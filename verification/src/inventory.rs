//! The palette and its depletable stock.

use vstd::prelude::*;
use crate::color::{color_distance, distance, Rgb};
use crate::error::ErrorKind;

verus! {

/// One palette color with the number of pieces still available.
#[derive(Clone, Debug, PartialEq, Eq)]
pub struct PaletteColor {
    pub name: String,
    pub color: Rgb,
    pub remaining: u64,
}

/// The mathematical value of a palette entry.
pub ghost struct Entry {
    pub name: Seq<char>,
    pub color: Rgb,
    pub remaining: int,
}

impl View for PaletteColor {
    type V = Entry;

    open spec fn view(&self) -> Entry {
        Entry { name: self.name@, color: self.color, remaining: self.remaining as int }
    }
}

/// The ordered palette with its stock. Entries are identified by their
/// position, and earlier entries win ties.
#[derive(Clone, Debug, PartialEq, Eq)]
pub struct Inventory {
    pub entries: Vec<PaletteColor>,
}

/// The mathematical value of a list of palette entries.
pub open spec fn entries_view(entries: Seq<PaletteColor>) -> Seq<Entry> {
    Seq::new(entries.len(), |i: int| entries[i]@)
}

impl View for Inventory {
    type V = Seq<Entry>;

    open spec fn view(&self) -> Seq<Entry> {
        entries_view(self.entries@)
    }
}

/// No entry holds a negative number of pieces.
pub open spec fn valid_stock(inv: Seq<Entry>) -> bool {
    forall|i: int| 0 <= i < inv.len() ==> (#[trigger] inv[i]).remaining >= 0
}

/// Entry `i` exists and still has pieces.
pub open spec fn available(inv: Seq<Entry>, i: int) -> bool {
    0 <= i < inv.len() && inv[i].remaining > 0
}

/// No entry has pieces left.
pub open spec fn exhausted(inv: Seq<Entry>) -> bool {
    forall|i: int| !#[trigger] available(inv, i)
}

/// Entry `i` is the one to use for `sample`: it is available, no available
/// entry is closer to the sample, and every available entry before it is
/// strictly farther away.
pub open spec fn is_nearest_available(inv: Seq<Entry>, sample: Rgb, i: int) -> bool {
    &&& available(inv, i)
    &&& forall|j: int| #[trigger]
        available(inv, j) ==> distance(inv[i].color, sample) <= distance(inv[j].color, sample)
    &&& forall|j: int| #[trigger]
        available(inv, j) && j < i ==> distance(inv[i].color, sample) < distance(
            inv[j].color,
            sample,
        )
}

/// The entry to use for `sample`, or `None` when the stock is exhausted.
pub open spec fn nearest_entry(inv: Seq<Entry>, sample: Rgb) -> Option<int> {
    if exists|i: int| is_nearest_available(inv, sample, i) {
        Some(choose|i: int| is_nearest_available(inv, sample, i))
    } else {
        None
    }
}

/// The stock after one piece of entry `i` has been used.
pub open spec fn take_piece(inv: Seq<Entry>, i: int) -> Seq<Entry> {
    inv.update(i, Entry { remaining: inv[i].remaining - 1, ..inv[i] })
}

/// The number of pieces over all entries.
pub open spec fn total_stock(inv: Seq<Entry>) -> int
    decreases inv.len(),
{
    if inv.len() == 0 {
        0
    } else {
        total_stock(inv.drop_last()) + inv.last().remaining
    }
}

/// At most one entry is the nearest available one.
pub proof fn lemma_nearest_unique(inv: Seq<Entry>, sample: Rgb, i: int, j: int)
    requires
        is_nearest_available(inv, sample, i),
        is_nearest_available(inv, sample, j),
    ensures
        i == j,
{
    if i < j {
        assert(available(inv, i));
    } else if j < i {
        assert(available(inv, j));
    }
}

/// `nearest_entry` is the entry that `is_nearest_available` singles out.
pub proof fn lemma_nearest_entry_is(inv: Seq<Entry>, sample: Rgb, i: int)
    requires
        is_nearest_available(inv, sample, i),
    ensures
        nearest_entry(inv, sample) == Some(i),
{
    let c = choose|k: int| is_nearest_available(inv, sample, k);
    lemma_nearest_unique(inv, sample, i, c);
}

/// Some entry is the nearest available one unless the stock is exhausted.
pub proof fn lemma_nearest_exists(inv: Seq<Entry>, sample: Rgb) -> (i: int)
    requires
        !exhausted(inv),
    ensures
        is_nearest_available(inv, sample, i),
    decreases inv.len(),
{
    let w = choose|w: int| available(inv, w);
    assert(available(inv, w));
    let front = inv.drop_last();
    let last = inv.len() - 1;
    assert forall|j: int| j != last implies #[trigger] available(front, j) == available(
        inv,
        j,
    ) by {}
    if exhausted(front) {
        assert(!available(front, w));
        assert forall|j: int| #[trigger] available(inv, j) implies j == last by {
            assert(!available(front, j));
        }
        last
    } else {
        let k = lemma_nearest_exists(front, sample);
        if available(inv, last) && distance(inv[last].color, sample) < distance(
            inv[k].color,
            sample,
        ) {
            assert forall|j: int| #[trigger] available(inv, j) implies distance(
                inv[last].color,
                sample,
            ) <= distance(inv[j].color, sample) by {
                if j != last {
                    assert(available(front, j));
                }
            }
            assert forall|j: int| #[trigger] available(inv, j) && j < last implies distance(
                inv[last].color,
                sample,
            ) < distance(inv[j].color, sample) by {
                assert(available(front, j));
            }
            last
        } else {
            assert forall|j: int| #[trigger] available(inv, j) implies distance(
                inv[k].color,
                sample,
            ) <= distance(inv[j].color, sample) by {
                if j != last {
                    assert(available(front, j));
                }
            }
            assert forall|j: int| #[trigger] available(inv, j) && j < k implies distance(
                inv[k].color,
                sample,
            ) < distance(inv[j].color, sample) by {
                assert(available(front, j));
            }
            k
        }
    }
}

/// `nearest_entry` finds an entry exactly when the stock is not exhausted.
pub proof fn lemma_nearest_entry_some(inv: Seq<Entry>, sample: Rgb)
    ensures
        nearest_entry(inv, sample) is None <==> exhausted(inv),
        nearest_entry(inv, sample) matches Some(i) ==> is_nearest_available(inv, sample, i),
{
    if exhausted(inv) {
        assert forall|i: int| !is_nearest_available(inv, sample, i) by {
            assert(!available(inv, i));
        }
    } else {
        let i = lemma_nearest_exists(inv, sample);
    }
}

/// Tie-break law: of two available entries at the same distance from the
/// sample, the later one is never chosen.
pub proof fn lemma_tie_goes_to_earlier(inv: Seq<Entry>, sample: Rgb, first: int, second: int)
    requires
        available(inv, first),
        available(inv, second),
        first < second,
        distance(inv[first].color, sample) == distance(inv[second].color, sample),
    ensures
        nearest_entry(inv, sample) != Some(second),
{
    lemma_nearest_entry_some(inv, sample);
}

/// An entry that is the only one with pieces left is chosen for every
/// sample, however far away it is.
pub proof fn lemma_only_available_is_nearest(inv: Seq<Entry>, sample: Rgb, only: int)
    requires
        available(inv, only),
        forall|j: int| #[trigger] available(inv, j) ==> j == only,
    ensures
        nearest_entry(inv, sample) == Some(only),
{
    lemma_nearest_entry_is(inv, sample, only);
}

/// A valid stock holds no pieces in total exactly when it is exhausted.
pub proof fn lemma_total_stock_bounds(inv: Seq<Entry>)
    requires
        valid_stock(inv),
    ensures
        total_stock(inv) >= 0,
        total_stock(inv) == 0 <==> exhausted(inv),
    decreases inv.len(),
{
    if inv.len() > 0 {
        let front = inv.drop_last();
        let last = inv.len() - 1;
        assert forall|j: int| 0 <= j < front.len() implies (#[trigger] front[j]).remaining
            >= 0 by {
            assert(front[j] == inv[j]);
        }
        lemma_total_stock_bounds(front);
        assert forall|j: int| j != last implies #[trigger] available(front, j) == available(
            inv,
            j,
        ) by {}
        if exhausted(inv) {
            assert(!available(inv, last));
            assert(inv[last].remaining >= 0);
            assert forall|j: int| !#[trigger] available(front, j) by {
                assert(!available(inv, j));
            }
        }
        if total_stock(inv) == 0 {
            assert(inv[last].remaining >= 0);
            assert forall|j: int| !#[trigger] available(inv, j) by {
                if j != last {
                    assert(!available(front, j));
                }
            }
        }
    }
}

/// Using one piece lowers the total by one and keeps the stock valid.
pub proof fn lemma_take_piece(inv: Seq<Entry>, i: int)
    requires
        available(inv, i),
    ensures
        total_stock(take_piece(inv, i)) == total_stock(inv) - 1,
        valid_stock(inv) ==> valid_stock(take_piece(inv, i)),
        take_piece(inv, i).len() == inv.len(),
    decreases inv.len(),
{
    let after = take_piece(inv, i);
    let last = inv.len() - 1;
    if i == last {
        assert(after.drop_last() =~= inv.drop_last());
    } else {
        assert(after.drop_last() =~= take_piece(inv.drop_last(), i));
        lemma_take_piece(inv.drop_last(), i);
    }
    if valid_stock(inv) {
        assert forall|j: int| 0 <= j < after.len() implies (#[trigger] after[j]).remaining
            >= 0 by {
            assert(inv[j].remaining >= 0);
        }
    }
}

/// Builds the inventory for a run from the configured palette, keeping the
/// order of the entries. An empty palette is a configuration error.
pub fn build_inventory(entries: Vec<PaletteColor>) -> (res: Result<Inventory, ErrorKind>)
    ensures
        match res {
            Ok(inventory) => entries@.len() > 0 && inventory.entries == entries,
            Err(e) => entries@.len() == 0 && e == ErrorKind::ConfigError,
        },
{
    if entries.len() == 0 {
        Err(ErrorKind::ConfigError)
    } else {
        Ok(Inventory { entries })
    }
}

impl Inventory {
    /// The stock of an inventory in memory is always valid, and its entries
    /// can be counted by a machine integer.
    pub proof fn lemma_valid(&self)
        ensures
            valid_stock(self@),
            self@.len() <= usize::MAX,
    {
        assert(self.entries.len() == self@.len());
    }

    /// Finds the palette entry to use for `sample`: among the entries that
    /// still have pieces, the one at the least weighted distance, and of
    /// several such the first in palette order. `None` means that every
    /// entry is used up.
    pub fn nearest_available(&self, sample: Rgb) -> (res: Option<usize>)
        ensures
            res matches Some(i) ==> is_nearest_available(self@, sample, i as int),
            res is None ==> exhausted(self@),
            match res {
                Some(i) => nearest_entry(self@, sample) == Some(i as int),
                None => nearest_entry(self@, sample) is None,
            },
    {
        let mut best: Option<usize> = None;
        let mut best_distance: u64 = 0;
        let mut i: usize = 0;
        while i < self.entries.len()
            invariant
                i <= self.entries.len(),
                best is None ==> forall|j: int| j < i ==> !#[trigger] available(self@, j),
                best matches Some(b) ==> {
                    &&& b < i
                    &&& available(self@, b as int)
                    &&& best_distance == distance(self@[b as int].color, sample)
                    &&& forall|j: int| #[trigger]
                        available(self@, j) && j < i ==> best_distance <= distance(
                            self@[j].color,
                            sample,
                        )
                    &&& forall|j: int| #[trigger]
                        available(self@, j) && j < b ==> best_distance < distance(
                            self@[j].color,
                            sample,
                        )
                },
            decreases self.entries.len() - i,
        {
            let entry = &self.entries[i];
            if entry.remaining > 0 {
                let d = color_distance(entry.color, sample);
                if best.is_none() || d < best_distance {
                    best = Some(i);
                    best_distance = d;
                }
            }
            i += 1;
        }
        proof {
            match best {
                Some(b) => {
                    lemma_nearest_entry_is(self@, sample, b as int);
                },
                None => {
                    lemma_nearest_entry_some(self@, sample);
                },
            }
        }
        best
    }

    /// Uses one piece of entry `index`. Taking from an entry that does not
    /// exist or has no pieces left is refused and changes nothing.
    pub fn decrement(&mut self, index: usize) -> (res: Result<(), ErrorKind>)
        ensures
            match res {
                Ok(_) => available(old(self)@, index as int) && final(self)@ == take_piece(
                    old(self)@,
                    index as int,
                ),
                Err(e) => !available(old(self)@, index as int) && final(self)@ == old(self)@ && e
                    == ErrorKind::PreconditionViolation,
            },
    {
        if index >= self.entries.len() || self.entries[index].remaining == 0 {
            return Err(ErrorKind::PreconditionViolation);
        }
        self.entries[index].remaining -= 1;
        assert(self@ =~= take_piece(old(self)@, index as int));
        Ok(())
    }
}

} // verus!
