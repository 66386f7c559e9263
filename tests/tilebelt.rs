use mbtiles_tool::tilebelt::{
    flip_x, get_children, get_children_until_zoom, get_position_in_parent,
    get_relative_position_in_ancestor, tile_is_ancestor,
};

#[test]
fn test_tile_is_ancestor() {
    assert!(tile_is_ancestor(&(0, 0, 0), &(0, 0, 0)));
    assert!(tile_is_ancestor(&(1, 1, 1), &(0, 0, 0)));
    assert!(tile_is_ancestor(&(3, 3, 2), &(0, 0, 0)));
    assert!(tile_is_ancestor(&(3, 3, 3), &(0, 0, 0)));

    assert!(tile_is_ancestor(&(9, 7, 4), &(4, 3, 3)));
    assert!(!tile_is_ancestor(&(0, 7, 4), &(4, 3, 3)));
}

#[test]
fn test_get_children() {
    assert_eq!(
        get_children(&(0, 0, 0)),
        vec![(0, 0, 1), (1, 0, 1), (0, 1, 1), (1, 1, 1)]
    );
    assert_eq!(
        get_children(&(1, 1, 1)),
        vec![(2, 2, 2), (3, 2, 2), (2, 3, 2), (3, 3, 2)]
    );
    assert_eq!(
        get_children(&(3, 3, 2)),
        vec![(6, 6, 3), (7, 6, 3), (6, 7, 3), (7, 7, 3)]
    );
}

#[test]
fn test_get_children_until_zoom() {
    assert_eq!(
        get_children_until_zoom(&(0, 0, 0), 2),
        vec![
            (0, 0, 1),
            (1, 0, 1),
            (0, 1, 1),
            (1, 1, 1),
            (0, 0, 2),
            (1, 0, 2),
            (0, 1, 2),
            (1, 1, 2),
            (2, 0, 2),
            (3, 0, 2),
            (2, 1, 2),
            (3, 1, 2),
            (0, 2, 2),
            (1, 2, 2),
            (0, 3, 2),
            (1, 3, 2),
            (2, 2, 2),
            (3, 2, 2),
            (2, 3, 2),
            (3, 3, 2)
        ]
    );

    assert_eq!(
        get_children_until_zoom(&(7274, 3224, 13), 14),
        vec![
            (14548, 6448, 14),
            (14549, 6448, 14),
            (14548, 6449, 14),
            (14549, 6449, 14),
        ]
    )
}

#[test]
fn test_get_position_in_parent() {
    assert_eq!(get_position_in_parent(&(0, 0, 1)), ((0, 0), (0, 0, 0)));
    assert_eq!(get_position_in_parent(&(0, 1, 1)), ((0, 1), (0, 0, 0)));
    assert_eq!(get_position_in_parent(&(1, 1, 1)), ((1, 1), (0, 0, 0)));
    assert_eq!(get_position_in_parent(&(1, 0, 1)), ((1, 0), (0, 0, 0)));

    assert_eq!(
        get_position_in_parent(&(14548, 6449, 14)),
        ((0, 1), (7274, 3224, 13))
    );
    assert_eq!(
        get_position_in_parent(&(14548, 6448, 14)),
        ((0, 0), (7274, 3224, 13))
    );
    assert_eq!(
        get_position_in_parent(&(28675, 13057, 15)),
        ((1, 1), (14337, 6528, 14))
    );
}

#[test]
fn test_get_relative_position_in_ancestor() {
    assert_eq!(
        get_relative_position_in_ancestor(&(0, 0, 1), 0),
        ((0, 0, 0), 1, (0, 0))
    );
    assert_eq!(
        get_relative_position_in_ancestor(&(0, 1, 1), 0),
        ((0, 0, 0), 1, (0, 1))
    );
    assert_eq!(
        get_relative_position_in_ancestor(&(1, 1, 1), 0),
        ((0, 0, 0), 1, (1, 1))
    );
    assert_eq!(
        get_relative_position_in_ancestor(&(1, 0, 1), 0),
        ((0, 0, 0), 1, (1, 0))
    );

    assert_eq!(
        get_relative_position_in_ancestor(&(227, 100, 8), 4),
        ((14, 6, 4), 4, (3, 4))
    );

    assert_eq!(
        get_relative_position_in_ancestor(&(28675, 13057, 15), 14),
        ((14337, 6528, 14), 1, (1, 1))
    )
}

#[test]
fn ancestor_is_reflexive_and_transitive_on_examples() {
    for t in [(0u32, 0u32, 0u32), (9, 7, 4), (14548, 6449, 14), (u32::MAX, 5, 32)] {
        assert!(tile_is_ancestor(&t, &t));
    }
    // (9,7,4) -> (4,3,3) -> (2,1,2)
    assert!(tile_is_ancestor(&(9, 7, 4), &(4, 3, 3)));
    assert!(tile_is_ancestor(&(4, 3, 3), &(2, 1, 2)));
    assert!(tile_is_ancestor(&(9, 7, 4), &(2, 1, 2)));
    assert!(!tile_is_ancestor(&(4, 3, 3), &(9, 7, 4)));
}

#[test]
fn ancestor_with_shift_of_32_or_more() {
    assert!(tile_is_ancestor(&(u32::MAX, u32::MAX, 40), &(0, 0, 8)));
    assert!(!tile_is_ancestor(&(u32::MAX, u32::MAX, 40), &(1, 0, 8)));
}

#[test]
fn flip_x_mirrors_rows() {
    assert_eq!(flip_x((3, 0, 2)), (3, 3, 2));
    assert_eq!(flip_x((5, 6448, 14)), (5, 16383 - 6448, 14));
    assert_eq!(flip_x((0, 0, 0)), (0, 0, 0));
    for t in [(1u32, 2u32, 3u32), (9, 7, 4), (0, 2147483647, 31)] {
        assert_eq!(flip_x(flip_x(t)), t);
    }
}

#[test]
fn children_until_when_already_at_zoom() {
    assert_eq!(get_children_until_zoom(&(1, 1, 3), 3), vec![]);
    assert_eq!(get_children_until_zoom(&(1, 1, 3), 2), vec![]);
    assert_eq!(get_children_until_zoom(&(5, 9, 32), 32), vec![]);
    assert_eq!(get_children_until_zoom(&(0, 0, 0), 3).len(), 4 + 16 + 64);
}
