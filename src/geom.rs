use vstd::prelude::*;

verus! {

/// A point in integer tile coordinates.
#[derive(Debug, Clone, Copy, PartialEq, Eq, Structural)]
pub struct Point {
    pub x: i32,
    pub y: i32,
}

/// An open polyline; also used for polygon rings, which are never closed by a
/// repeated final point.
#[derive(Debug, Clone)]
pub struct LineString {
    pub points: Vec<Point>,
}

/// A polygon ring.
pub type Polygon = LineString;

impl View for LineString {
    type V = Seq<Point>;

    open spec fn view(&self) -> Seq<Point> {
        self.points@
    }
}

impl PartialEq for LineString {
    fn eq(&self, other: &LineString) -> (r: bool)
        ensures
            r == (self@ == other@),
    {
        let n = self.points.len();
        if n != other.points.len() {
            return false;
        }
        let mut i: usize = 0;
        while i < n
            invariant
                n == self.points@.len(),
                n == other.points@.len(),
                0 <= i <= n,
                forall|j: int| 0 <= j < i ==> self.points@[j] == other.points@[j],
            decreases n - i,
        {
            if self.points[i] != other.points[i] {
                return false;
            }
            i = i + 1;
        }
        assert(self.points@ =~= other.points@);
        true
    }
}

impl vstd::std_specs::cmp::PartialEqSpecImpl for LineString {
    open spec fn obeys_eq_spec() -> bool {
        true
    }

    open spec fn eq_spec(&self, other: &LineString) -> bool {
        self@ == other@
    }
}

impl Eq for LineString {
}

} // verus!
