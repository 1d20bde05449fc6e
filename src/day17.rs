//! Paths through a city of heat-losing blocks, recorded as parent links.

use crate::grid::Position;
use vstd::prelude::*;

verus! {

/// Every recorded step links back only to an earlier step.
pub open spec fn links_back(paths: Seq<(Option<usize>, Position)>) -> bool {
    forall|i: int|
        0 <= i < paths.len() ==> match (#[trigger] paths[i]).0 {
            Some(p) => p < i,
            None => true,
        }
}

/// The positions from step `i` back to the step that has no parent.
pub open spec fn chain(paths: Seq<(Option<usize>, Position)>, i: int) -> Seq<Position>
    decreases i,
{
    if i < 0 || i >= paths.len() {
        Seq::empty()
    } else {
        seq![paths[i].1] + match paths[i].0 {
            Some(p) => if p < i {
                chain(paths, p as int)
            } else {
                Seq::empty()
            },
            None => Seq::empty(),
        }
    }
}

/// The positions of the path that ends at step `last`, from its end back to
/// its start, following each step's link to the step it came from.
pub fn reconstruct_path(last: usize, paths: &[(Option<usize>, Position)]) -> (r: Vec<Position>)
    requires
        last < paths@.len(),
        links_back(paths@),
    ensures
        r@ == chain(paths@, last as int),
{
    let mut real_path: Vec<Position> = Vec::new();
    let mut index: Option<usize> = Some(last);
    while index.is_some()
        invariant
            links_back(paths@),
            match index {
                Some(i) => i < paths@.len() && real_path@ + chain(paths@, i as int) == chain(paths@, last as int),
                None => real_path@ == chain(paths@, last as int),
            },
        decreases match index {
            Some(i) => i + 1,
            None => 0,
        },
    {
        let i = match index {
            Some(i) => i,
            None => 0,
        };
        let ghost before = real_path@;
        real_path.push(paths[i].1);
        index = paths[i].0;
        proof {
            assert(match paths@[i as int].0 {
                Some(p) => p < i,
                None => true,
            });
            match index {
                Some(p) => {
                    assert(chain(paths@, i as int) == seq![paths@[i as int].1] + chain(paths@, p as int));
                    assert(real_path@ + chain(paths@, p as int) =~= before + chain(paths@, i as int));
                },
                None => {
                    assert(chain(paths@, i as int) =~= seq![paths@[i as int].1]);
                    assert(real_path@ =~= before + chain(paths@, i as int));
                },
            }
        }
    }
    real_path
}

} // verus!
