use mbtiles_tool::overzoom::{check_overzoom, overzoom_targets, OverzoomError};
use mbtiles_tool::tilebelt::get_children_until_zoom;

#[test]
fn overzoom_checks() {
    assert_eq!(check_overzoom(Some(&b"14"[..]), 16), Ok(14));
    assert_eq!(check_overzoom(Some(&b"16"[..]), 16), Err(OverzoomError::AlreadyAtTargetZoom));
    assert_eq!(check_overzoom(Some(&b"17"[..]), 16), Err(OverzoomError::AlreadyAtTargetZoom));
    assert_eq!(check_overzoom(None, 16), Err(OverzoomError::MissingMaxzoom));
    assert_eq!(check_overzoom(Some(&b"x"[..]), 16), Err(OverzoomError::MissingMaxzoom));
    assert_eq!(check_overzoom(Some(&b"300"[..]), 16), Err(OverzoomError::MissingMaxzoom));
}

#[test]
fn overzoom_targets_of_max_zoom_tile() {
    let t = (7274, 3224, 13);
    assert_eq!(
        overzoom_targets(&t, 13, 14),
        vec![
            ((14548, 6448, 14), 1, (0, 0)),
            ((14549, 6448, 14), 1, (1, 0)),
            ((14548, 6449, 14), 1, (0, 1)),
            ((14549, 6449, 14), 1, (1, 1)),
        ]
    );
    assert_eq!(overzoom_targets(&t, 12, 14), vec![]);
    // nothing is made at or below the target zoom
    assert_eq!(overzoom_targets(&t, 13, 13), vec![]);
    assert_eq!(overzoom_targets(&t, 13, 12), vec![]);
}

#[test]
fn overzoom_emits_tile_and_all_descendants() {
    let t = (3, 5, 4);
    let targets = overzoom_targets(&t, 4, 6);
    let mut emitted = vec![t];
    emitted.extend(targets.iter().map(|x| x.0));
    let mut expected = vec![t];
    expected.extend(get_children_until_zoom(&t, 6));
    assert_eq!(emitted, expected);
    assert_eq!(emitted.len(), 1 + 4 + 16);
    let deepest = targets.iter().find(|x| x.0 == (15, 23, 6)).unwrap();
    assert_eq!((deepest.1, deepest.2), (2, (3, 3)));
}
