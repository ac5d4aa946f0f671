//! Grid cells and what it means to cover a grid.

use vstd::prelude::*;
use crate::color::Rgb;

verus! {

/// One cell of the grid with the color sampled for it.
#[derive(Clone, Copy, Debug, PartialEq, Eq, Structural)]
pub struct GridCell {
    pub x: u64,
    pub y: u64,
    pub source: Rgb,
}

/// The positions of a sequence of cells, in order.
pub open spec fn cell_positions(cells: Seq<GridCell>) -> Seq<(u64, u64)> {
    cells.map_values(|c: GridCell| (c.x, c.y))
}

/// The positions are exactly those of a grid of `width` by `height` cells,
/// each position occurring once, in any order.
pub open spec fn covers_grid(positions: Seq<(u64, u64)>, width: int, height: int) -> bool {
    &&& positions.len() == width * height
    &&& forall|x: u64, y: u64| #[trigger]
        positions.to_multiset().count((x, y)) == (if x < width && y < height {
            1nat
        } else {
            0nat
        })
}

/// Mapping two arrangements of the same items gives two arrangements of the
/// same images.
pub proof fn lemma_map_keeps_arrangement<A, B>(s1: Seq<A>, s2: Seq<A>, f: spec_fn(A) -> B)
    requires
        s1.to_multiset() == s2.to_multiset(),
    ensures
        s1.map_values(f).to_multiset() == s2.map_values(f).to_multiset(),
    decreases s1.len(),
{
    broadcast use vstd::seq_lib::group_to_multiset_ensures;

    assert(s1.len() == s2.len()) by {
        assert(s1.to_multiset().len() == s1.len());
        assert(s2.to_multiset().len() == s2.len());
    }
    if s1.len() == 0 {
        assert(s1.map_values(f) =~= s2.map_values(f));
    } else {
        let a = s1.last();
        let front = s1.drop_last();
        assert(s1 =~= front.push(a));
        assert(s2.contains(a)) by {
            assert(s1.contains(a));
            assert(s1.to_multiset().count(a) > 0);
            assert(s2.to_multiset().count(a) > 0);
        }
        let k = s2.index_of(a);
        let rest = s2.remove(k);
        assert(front.to_multiset() =~= rest.to_multiset());
        lemma_map_keeps_arrangement(front, rest, f);
        assert(s1.map_values(f) =~= front.map_values(f).push(f(a)));
        assert(s2.map_values(f).remove(k) =~= rest.map_values(f));
        assert(s2.map_values(f)[k] == f(a));
        assert(s2.map_values(f).to_multiset() =~= rest.map_values(f).to_multiset().insert(f(a)));
    }
}

} // verus!
