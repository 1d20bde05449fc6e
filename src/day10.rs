//! The sides through which the pipe tiles of a maze connect.

use vstd::prelude::*;

verus! {

/// The side of a cell from which a neighbour is reached.
#[derive(Clone, Copy, Debug, PartialEq, Eq, Structural)]
pub enum Direction {
    Top,
    Bottom,
    Left,
    Right,
}

/// A side of a tile through which its pipe leaves.
#[derive(Clone, Copy, Debug, PartialEq, Eq, Structural)]
pub enum Edge {
    Top,
    Bottom,
    Left,
    Right,
}

/// The bytes that stand for a tile.
pub open spec fn is_tile(b: u8) -> bool {
    b == 124 || b == 45 || b == 76 || b == 74 || b == 55 || b == 70 || b == 46 || b == 83
}

/// The sides through which the pipe of a tile leaves: `|` top and bottom,
/// `-` left and right, `L` top and right, `J` top and left, `7` left and
/// bottom, `F` bottom and right, `.` none, and the start `S` every side.
pub open spec fn edges_of(b: u8) -> Seq<Edge> {
    if b == 124 {
        seq![Edge::Top, Edge::Bottom]
    } else if b == 45 {
        seq![Edge::Left, Edge::Right]
    } else if b == 76 {
        seq![Edge::Top, Edge::Right]
    } else if b == 74 {
        seq![Edge::Top, Edge::Left]
    } else if b == 55 {
        seq![Edge::Left, Edge::Bottom]
    } else if b == 70 {
        seq![Edge::Bottom, Edge::Right]
    } else if b == 46 {
        Seq::empty()
    } else {
        seq![Edge::Top, Edge::Bottom, Edge::Left, Edge::Right]
    }
}

/// The side mirrored left to right.
pub open spec fn mirrored(e: Edge) -> Edge {
    match e {
        Edge::Left => Edge::Right,
        Edge::Right => Edge::Left,
        x => x,
    }
}

/// A pipe leaving through `v` meets, in the neighbour reached from side
/// `direction`, a pipe leaving through `other`'s matching side.
pub open spec fn joins(v: Edge, direction: Direction, other: Seq<Edge>) -> bool {
    match (v, direction) {
        (Edge::Bottom, Direction::Top) => other.contains(Edge::Top),
        (Edge::Top, Direction::Bottom) => other.contains(Edge::Bottom),
        (Edge::Right, Direction::Left) => other.contains(Edge::Left),
        (Edge::Left, Direction::Right) => other.contains(Edge::Right),
        _ => false,
    }
}

/// Whether `e` is among `edges`.
fn has_edge(edges: &[Edge], e: Edge) -> (r: bool)
    ensures
        r == edges@.contains(e),
{
    let mut i: usize = 0;
    while i < edges.len()
        invariant
            i <= edges@.len(),
            forall|k: int| 0 <= k < i ==> edges@[k] != e,
        decreases edges@.len() - i,
    {
        if edges[i] == e {
            return true;
        }
        i = i + 1;
    }
    false
}

impl Edge {
    /// The sides through which the pipe of tile `b` leaves.
    pub fn of(b: u8) -> (r: Vec<Edge>)
        requires
            is_tile(b),
        ensures
            r@ == edges_of(b),
    {
        let r = if b == 124 {
            vec![Edge::Top, Edge::Bottom]
        } else if b == 45 {
            vec![Edge::Left, Edge::Right]
        } else if b == 76 {
            vec![Edge::Top, Edge::Right]
        } else if b == 74 {
            vec![Edge::Top, Edge::Left]
        } else if b == 55 {
            vec![Edge::Left, Edge::Bottom]
        } else if b == 70 {
            vec![Edge::Bottom, Edge::Right]
        } else if b == 46 {
            Vec::new()
        } else {
            vec![Edge::Top, Edge::Bottom, Edge::Left, Edge::Right]
        };
        proof {
            assert(r@ =~= edges_of(b));
        }
        r
    }

    /// The side mirrored left to right.
    pub fn invert_horizontal(self) -> (r: Edge)
        ensures
            r == mirrored(self),
    {
        match self {
            Edge::Left => Edge::Right,
            Edge::Right => Edge::Left,
            x => x,
        }
    }

    /// Whether two tiles have as many sides and each side of the first,
    /// mirrored left to right, is a side of the second: `7` and `F`, or `J`
    /// and `L`, but not `7` and `L`.
    pub fn horizontal_symmetric(this: &[Edge], other: &[Edge]) -> (r: bool)
        ensures
            r == (this@.len() == other@.len() && forall|k: int|
                0 <= k < this@.len() ==> other@.contains(mirrored(#[trigger] this@[k]))),
    {
        if this.len() != other.len() {
            return false;
        }
        let mut i: usize = 0;
        while i < this.len()
            invariant
                i <= this@.len(),
                forall|k: int| 0 <= k < i ==> other@.contains(mirrored(#[trigger] this@[k])),
            decreases this@.len() - i,
        {
            if !has_edge(other, this[i].invert_horizontal()) {
                return false;
            }
            i = i + 1;
        }
        true
    }

    /// Whether a pipe of `this` connects to the pipe of `other` in the
    /// neighbour reached from side `direction`.
    pub fn connects_to(direction: Direction, this: &[Edge], other: &[Edge]) -> (r: bool)
        ensures
            r == exists|k: int| 0 <= k < this@.len() && joins(#[trigger] this@[k], direction, other@),
    {
        let mut i: usize = 0;
        while i < this.len()
            invariant
                i <= this@.len(),
                forall|k: int| 0 <= k < i ==> !joins(#[trigger] this@[k], direction, other@),
            decreases this@.len() - i,
        {
            let v = this[i];
            let hit = match (v, direction) {
                (Edge::Bottom, Direction::Top) => has_edge(other, Edge::Top),
                (Edge::Top, Direction::Bottom) => has_edge(other, Edge::Bottom),
                (Edge::Right, Direction::Left) => has_edge(other, Edge::Left),
                (Edge::Left, Direction::Right) => has_edge(other, Edge::Right),
                _ => false,
            };
            if hit {
                return true;
            }
            i = i + 1;
        }
        false
    }
}

} // verus!
