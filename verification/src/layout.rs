//! The canonical row-major order of a finished mosaic.

use vstd::prelude::*;
use crate::grid::covers_grid;
use crate::quantizer::{assigned_positions, count_of, refers_within, Assignment};

verus! {

/// `a` lies strictly before `b` in row-major order: in a lower row, or in
/// the same row further left.
pub open spec fn comes_before(a: Assignment, b: Assignment) -> bool {
    a.y < b.y || (a.y == b.y && a.x < b.x)
}

/// No assignment lies after one that should come later: the sequence is
/// ordered by row, and within a row by column.
pub open spec fn row_major(s: Seq<Assignment>) -> bool {
    forall|i: int, j: int| 0 <= i < j < s.len() ==> !comes_before(#[trigger] s[j], #[trigger] s[i])
}

/// `a` put into the row-major sequence `s`, behind everything that does not
/// lie after it.
pub open spec fn insert_sorted(s: Seq<Assignment>, a: Assignment) -> Seq<Assignment>
    decreases s.len(),
{
    if s.len() == 0 || !comes_before(a, s.last()) {
        s.push(a)
    } else {
        insert_sorted(s.drop_last(), a).push(s.last())
    }
}

/// The assignments in row-major order, where assignments at the same
/// position keep the order they had.
pub open spec fn sorted_layout(s: Seq<Assignment>) -> Seq<Assignment>
    decreases s.len(),
{
    if s.len() == 0 {
        s
    } else {
        insert_sorted(sorted_layout(s.drop_last()), s.last())
    }
}

/// `place` is where `a` belongs in `s`: everything from there on lies after
/// `a`, and what stands directly before does not.
pub open spec fn is_place(s: Seq<Assignment>, a: Assignment, place: int) -> bool {
    &&& 0 <= place <= s.len()
    &&& forall|j: int| place <= j < s.len() ==> comes_before(a, #[trigger] s[j])
    &&& place > 0 ==> !comes_before(a, s[place - 1])
}

/// `insert_sorted` puts the new assignment at its place.
pub proof fn lemma_insert_place(s: Seq<Assignment>, a: Assignment, place: int)
    requires
        is_place(s, a, place),
    ensures
        insert_sorted(s, a) == s.insert(place, a),
    decreases s.len(),
{
    if place == s.len() {
        assert(s.push(a) =~= s.insert(place, a));
    } else {
        assert(comes_before(a, s[s.len() - 1]));
        lemma_insert_place(s.drop_last(), a, place);
        assert(s.drop_last().insert(place, a).push(s.last()) =~= s.insert(place, a));
    }
}

/// Putting an assignment into a row-major sequence keeps it row-major and
/// adds just that assignment.
pub proof fn lemma_insert_sorted(s: Seq<Assignment>, a: Assignment)
    requires
        row_major(s),
    ensures
        row_major(insert_sorted(s, a)),
        insert_sorted(s, a).to_multiset() == s.to_multiset().insert(a),
        insert_sorted(s, a).len() == s.len() + 1,
    decreases s.len(),
{
    broadcast use vstd::seq_lib::group_to_multiset_ensures;

    lemma_place_exists(s, a, s.len() as int);
    let place = choose|place: int| is_place(s, a, place);
    lemma_insert_place(s, a, place);
    let t = s.insert(place, a);
    assert forall|i: int, j: int| 0 <= i < j < t.len() implies !comes_before(
        #[trigger] t[j],
        #[trigger] t[i],
    ) by {
        if j == place {
            assert(t[i] == s[i]);
            if i < place - 1 {
                assert(!comes_before(s[place - 1], s[i]));
            }
        } else if i == place {
            assert(t[j] == s[j - 1]);
        } else {
            let si = if i < place { i } else { i - 1 };
            let sj = if j < place { j } else { j - 1 };
            assert(t[i] == s[si] && t[j] == s[sj]);
        }
    }
}

/// There is a place for `a` in `s` among the first `n` positions or right
/// behind them, given that everything from `n` on lies after `a`.
proof fn lemma_place_exists(s: Seq<Assignment>, a: Assignment, n: int)
    requires
        0 <= n <= s.len(),
        forall|j: int| n <= j < s.len() ==> comes_before(a, #[trigger] s[j]),
    ensures
        exists|place: int| is_place(s, a, place),
    decreases n,
{
    if n > 0 && comes_before(a, s[n - 1]) {
        lemma_place_exists(s, a, n - 1);
    } else {
        assert(is_place(s, a, n));
    }
}

/// The sorted layout is in row-major order and holds the same assignments.
pub proof fn lemma_sorted_layout(s: Seq<Assignment>)
    ensures
        row_major(sorted_layout(s)),
        sorted_layout(s).to_multiset() == s.to_multiset(),
        sorted_layout(s).len() == s.len(),
    decreases s.len(),
{
    broadcast use vstd::seq_lib::group_to_multiset_ensures;

    if s.len() > 0 {
        lemma_sorted_layout(s.drop_last());
        lemma_insert_sorted(sorted_layout(s.drop_last()), s.last());
        assert(s =~= s.drop_last().push(s.last()));
    }
}

/// Sorting leaves a sequence that is already in row-major order as it is.
pub proof fn lemma_sorted_layout_fixes_row_major(s: Seq<Assignment>)
    requires
        row_major(s),
    ensures
        sorted_layout(s) == s,
    decreases s.len(),
{
    if s.len() > 0 {
        let front = s.drop_last();
        assert forall|i: int, j: int| 0 <= i < j < front.len() implies !comes_before(
            #[trigger] front[j],
            #[trigger] front[i],
        ) by {
            assert(front[i] == s[i] && front[j] == s[j]);
        }
        lemma_sorted_layout_fixes_row_major(front);
        if front.len() > 0 {
            assert(front.last() == s[front.len() - 1]);
            assert(!comes_before(s[s.len() - 1], s[front.len() - 1]));
        }
        assert(front.push(s.last()) =~= s);
    }
}

/// Sort idempotence: sorting a sorted layout gives the same layout again.
pub proof fn lemma_sort_idempotent(s: Seq<Assignment>)
    ensures
        sorted_layout(sorted_layout(s)) == sorted_layout(s),
{
    lemma_sorted_layout(s);
    lemma_sorted_layout_fixes_row_major(sorted_layout(s));
}

/// The assignments of `s` for position `(x, y)`, in the order they have in
/// `s`.
pub open spec fn placed_at(s: Seq<Assignment>, x: u64, y: u64) -> Seq<Assignment> {
    s.filter(|a: Assignment| a.x == x && a.y == y)
}

/// `insert_sorted` puts an assignment behind those for the same position
/// and leaves the others in their order.
proof fn lemma_insert_sorted_keeps_order(s: Seq<Assignment>, a: Assignment, x: u64, y: u64)
    ensures
        placed_at(insert_sorted(s, a), x, y) == if a.x == x && a.y == y {
            placed_at(s, x, y).push(a)
        } else {
            placed_at(s, x, y)
        },
    decreases s.len(),
{
    let here = |b: Assignment| b.x == x && b.y == y;
    if s.len() == 0 || !comes_before(a, s.last()) {
        s.lemma_filter_push(a, here);
    } else {
        let front = s.drop_last();
        lemma_insert_sorted_keeps_order(front, a, x, y);
        insert_sorted(front, a).lemma_filter_push(s.last(), here);
        front.lemma_filter_push(s.last(), here);
        assert(front.push(s.last()) =~= s);
    }
}

/// Stability: in the sorted layout the assignments for one position stand
/// in the order they had before.
pub proof fn lemma_sorted_layout_stable(s: Seq<Assignment>, x: u64, y: u64)
    ensures
        placed_at(sorted_layout(s), x, y) == placed_at(s, x, y),
    decreases s.len(),
{
    if s.len() > 0 {
        let front = s.drop_last();
        lemma_sorted_layout_stable(front, x, y);
        lemma_insert_sorted_keeps_order(sorted_layout(front), s.last(), x, y);
        front.lemma_filter_push(s.last(), |b: Assignment| b.x == x && b.y == y);
        assert(front.push(s.last()) =~= s);
    }
}

/// `insert_sorted` adds one to the count of the entry that the new
/// assignment names.
proof fn lemma_insert_sorted_count(s: Seq<Assignment>, a: Assignment, entry: int)
    ensures
        count_of(insert_sorted(s, a), entry) == count_of(s, entry) + if a.entry == entry {
            1int
        } else {
            0int
        },
    decreases s.len(),
{
    if s.len() == 0 || !comes_before(a, s.last()) {
        assert(s.push(a).drop_last() =~= s);
    } else {
        lemma_insert_sorted_count(s.drop_last(), a, entry);
        assert(insert_sorted(s.drop_last(), a).push(s.last()).drop_last() =~= insert_sorted(
            s.drop_last(),
            a,
        ));
    }
}

/// Sorting changes neither how often an entry is named nor which entries
/// are named.
pub proof fn lemma_sorted_layout_counts(s: Seq<Assignment>, entry: int)
    ensures
        count_of(sorted_layout(s), entry) == count_of(s, entry),
        forall|entries: int| refers_within(s, entries) ==> refers_within(sorted_layout(s), entries),
    decreases s.len(),
{
    broadcast use vstd::seq_lib::group_to_multiset_ensures;

    if s.len() > 0 {
        lemma_sorted_layout_counts(s.drop_last(), entry);
        lemma_insert_sorted_count(sorted_layout(s.drop_last()), s.last(), entry);
    }
    lemma_sorted_layout(s);
    assert forall|entries: int| refers_within(s, entries) implies refers_within(
        sorted_layout(s),
        entries,
    ) by {
        assert forall|i: int| 0 <= i < sorted_layout(s).len() implies (#[trigger] sorted_layout(
            s,
        )[i]).entry < entries by {
            let a = sorted_layout(s)[i];
            assert(sorted_layout(s).contains(a));
            assert(s.to_multiset().count(a) > 0);
            assert(s.contains(a));
            let k = s.index_of(a);
            assert(s[k].entry < entries);
        }
    }
}

/// Two layouts in one, built from the back: the assignment that goes last
/// is the later of the two last ones, and the last one of `right` where
/// neither is later.
pub open spec fn merged(left: Seq<Assignment>, right: Seq<Assignment>) -> Seq<Assignment>
    decreases left.len() + right.len(),
{
    if left.len() == 0 {
        right
    } else if right.len() == 0 {
        left
    } else if comes_before(right.last(), left.last()) {
        merged(left.drop_last(), right).push(left.last())
    } else {
        merged(left, right.drop_last()).push(right.last())
    }
}

/// Merging with nothing changes nothing.
proof fn lemma_merged_with_nothing(s: Seq<Assignment>)
    ensures
        merged(s, Seq::empty()) == s,
        merged(Seq::empty(), s) == s,
{
}

/// Putting an assignment into the right-hand layout before merging gives
/// what putting it into the merged layout gives.
proof fn lemma_merged_insert(left: Seq<Assignment>, right: Seq<Assignment>, a: Assignment)
    ensures
        merged(left, insert_sorted(right, a)) == insert_sorted(merged(left, right), a),
    decreases left.len() + right.len(),
{
    let with_a = insert_sorted(right, a);
    let both = merged(left, right);
    if left.len() == 0 {
        lemma_merged_with_nothing(right);
        lemma_merged_with_nothing(with_a);
    } else if right.len() == 0 {
        assert(right =~= Seq::<Assignment>::empty());
        assert(with_a =~= seq![a]);
        assert(with_a.last() == a);
        assert(with_a.drop_last() =~= right);
        lemma_merged_with_nothing(left);
        if comes_before(a, left.last()) {
            lemma_merged_insert(left.drop_last(), right, a);
            lemma_merged_with_nothing(left.drop_last());
        }
    } else if !comes_before(a, right.last()) {
        assert(with_a == right.push(a));
        assert(with_a.last() == a);
        assert(with_a.drop_last() =~= right);
        if comes_before(a, left.last()) {
            lemma_merged_insert(left.drop_last(), right, a);
            assert(comes_before(right.last(), left.last()));
            let inner = merged(left.drop_last(), right);
            assert(both == inner.push(left.last()));
            assert(both.last() == left.last());
            assert(both.drop_last() =~= inner);
        } else {
            if comes_before(right.last(), left.last()) {
                assert(both == merged(left.drop_last(), right).push(left.last()));
                assert(both.last() == left.last());
            } else {
                assert(both == merged(left, right.drop_last()).push(right.last()));
                assert(both.last() == right.last());
            }
        }
    } else {
        let inner_a = insert_sorted(right.drop_last(), a);
        assert(with_a == inner_a.push(right.last()));
        assert(with_a.last() == right.last());
        assert(with_a.drop_last() =~= inner_a);
        if comes_before(right.last(), left.last()) {
            lemma_merged_insert(left.drop_last(), right, a);
            let inner = merged(left.drop_last(), right);
            assert(both == inner.push(left.last()));
            assert(both.last() == left.last());
            assert(both.drop_last() =~= inner);
            assert(comes_before(a, left.last()));
        } else {
            lemma_merged_insert(left, right.drop_last(), a);
            let inner = merged(left, right.drop_last());
            assert(both == inner.push(right.last()));
            assert(both.last() == right.last());
            assert(both.drop_last() =~= inner);
        }
    }
}

/// Merging the sorted layouts of two sequences gives the sorted layout of
/// the one followed by the other.
proof fn lemma_merged_sorts(first: Seq<Assignment>, second: Seq<Assignment>)
    ensures
        merged(sorted_layout(first), sorted_layout(second)) == sorted_layout(first + second),
    decreases second.len(),
{
    if second.len() == 0 {
        lemma_merged_with_nothing(sorted_layout(first));
        assert(first + second =~= first);
    } else {
        lemma_merged_sorts(first, second.drop_last());
        lemma_merged_insert(
            sorted_layout(first),
            sorted_layout(second.drop_last()),
            second.last(),
        );
        assert((first + second).drop_last() =~= first + second.drop_last());
    }
}

fn precedes(a: &Assignment, b: &Assignment) -> (res: bool)
    ensures
        res == comes_before(*a, *b),
{
    a.y < b.y || (a.y == b.y && a.x < b.x)
}

fn merge(left: &Vec<Assignment>, right: &Vec<Assignment>) -> (res: Vec<Assignment>)
    requires
        left@.len() + right@.len() <= usize::MAX,
    ensures
        res@ == merged(left@, right@),
{
    let total: usize = left.len() + right.len();
    if left.len() == 0 {
        return right.clone();
    }
    let mut out: Vec<Assignment> = vec![left[0]; total];
    let mut i: usize = left.len();
    let mut j: usize = right.len();
    proof {
        assert(left@.take(i as int) =~= left@);
        assert(right@.take(j as int) =~= right@);
        assert(out@.subrange(total as int, total as int) =~= Seq::<Assignment>::empty());
        assert(merged(left@, right@) + Seq::<Assignment>::empty() =~= merged(left@, right@));
    }
    while i > 0 || j > 0
        invariant
            i <= left.len(),
            j <= right.len(),
            total == left.len() + right.len(),
            out@.len() == total,
            merged(left@, right@) == merged(left@.take(i as int), right@.take(j as int))
                + out@.subrange(i + j, total as int),
        decreases i + j,
    {
        let at: usize = i + j - 1;
        let ghost rest = out@.subrange(i + j, total as int);
        let ghost l = left@.take(i as int);
        let ghost r = right@.take(j as int);
        if i > 0 && (j == 0 || precedes(&right[j - 1], &left[i - 1])) {
            proof {
                assert(l.drop_last() =~= left@.take(i - 1));
                lemma_merged_with_nothing(l);
                lemma_merged_with_nothing(l.drop_last());
                assert(merged(l, r) == merged(l.drop_last(), r).push(left@[i - 1]));
            }
            out.set(at, left[i - 1]);
            i -= 1;
        } else {
            proof {
                assert(r.drop_last() =~= right@.take(j - 1));
                lemma_merged_with_nothing(r);
                lemma_merged_with_nothing(r.drop_last());
                assert(merged(l, r) == merged(l, r.drop_last()).push(right@[j - 1]));
            }
            out.set(at, right[j - 1]);
            j -= 1;
        }
        proof {
            let v = out@[at as int];
            assert(out@.subrange(i + j, total as int) =~= seq![v] + rest);
            assert(merged(l, r) + rest =~= merged(left@.take(i as int), right@.take(j as int))
                + (seq![v] + rest));
        }
    }
    proof {
        assert(out@.subrange(0, total as int) =~= out@);
        assert(merged(left@.take(0), right@.take(0)) =~= Seq::<Assignment>::empty());
        assert(Seq::<Assignment>::empty() + out@ =~= out@);
    }
    out
}

fn sort_range(assignments: &Vec<Assignment>, from: usize, to: usize) -> (res: Vec<Assignment>)
    requires
        from <= to <= assignments@.len(),
    ensures
        res@ == sorted_layout(assignments@.subrange(from as int, to as int)),
    decreases to - from,
{
    let ghost part = assignments@.subrange(from as int, to as int);
    if to - from == 0 {
        Vec::new()
    } else if to - from == 1 {
        let mut one: Vec<Assignment> = Vec::new();
        one.push(assignments[from]);
        proof {
            assert(part.drop_last() =~= Seq::<Assignment>::empty());
            assert(sorted_layout(part.drop_last()) =~= Seq::<Assignment>::empty());
            assert(one@ =~= sorted_layout(part));
        }
        one
    } else {
        let middle: usize = from + (to - from) / 2;
        let left = sort_range(assignments, from, middle);
        let right = sort_range(assignments, middle, to);
        proof {
            let first = assignments@.subrange(from as int, middle as int);
            let second = assignments@.subrange(middle as int, to as int);
            lemma_sorted_layout(first);
            lemma_sorted_layout(second);
            lemma_merged_sorts(first, second);
            assert(first + second =~= part);
        }
        merge(&left, &right)
    }
}

/// Puts the assignments into row-major order: by `y` ascending, then by `x`
/// ascending. Assignments at the same position keep their order.
pub fn sort_layout(assignments: &Vec<Assignment>) -> (res: Vec<Assignment>)
    ensures
        res@ == sorted_layout(assignments@),
        row_major(res@),
        res@.to_multiset() == assignments@.to_multiset(),
{
    proof {
        assert(assignments@.subrange(0, assignments@.len() as int) =~= assignments@);
        lemma_sorted_layout(assignments@);
    }
    sort_range(assignments, 0, assignments.len())
}

/// The place of position `(x, y)` in the row-major enumeration of a grid
/// that is `width` cells wide.
pub open spec fn row_major_index(x: u64, y: u64, width: int) -> int {
    y * width + x
}

/// The layout lists a grid that is `width` cells wide row by row: the
/// assignment at each index is the one for the position with that index.
pub open spec fn enumerates_rows(s: Seq<Assignment>, width: int) -> bool {
    forall|i: int| 0 <= i < s.len() ==> row_major_index((#[trigger] s[i]).x, s[i].y, width) == i
}

/// Numbers that increase strictly and all lie below their count are the
/// numbers from zero upwards.
proof fn lemma_increasing_fills(keys: Seq<int>, i: int)
    requires
        forall|a: int, b: int| 0 <= a < b < keys.len() ==> #[trigger] keys[a] < #[trigger] keys[b],
        forall|a: int| 0 <= a < keys.len() ==> 0 <= #[trigger] keys[a] < keys.len(),
        0 <= i < keys.len(),
    ensures
        keys[i] == i,
{
    lemma_increasing_from_below(keys, i);
    lemma_increasing_from_above(keys, i);
}

proof fn lemma_increasing_from_below(keys: Seq<int>, i: int)
    requires
        forall|a: int, b: int| 0 <= a < b < keys.len() ==> #[trigger] keys[a] < #[trigger] keys[b],
        forall|a: int| 0 <= a < keys.len() ==> 0 <= #[trigger] keys[a] < keys.len(),
        0 <= i < keys.len(),
    ensures
        keys[i] >= i,
    decreases i,
{
    if i > 0 {
        lemma_increasing_from_below(keys, i - 1);
        assert(keys[i - 1] < keys[i]);
    }
}

proof fn lemma_increasing_from_above(keys: Seq<int>, i: int)
    requires
        forall|a: int, b: int| 0 <= a < b < keys.len() ==> #[trigger] keys[a] < #[trigger] keys[b],
        forall|a: int| 0 <= a < keys.len() ==> 0 <= #[trigger] keys[a] < keys.len(),
        0 <= i < keys.len(),
    ensures
        keys[i] <= i,
    decreases keys.len() - i,
{
    if i < keys.len() - 1 {
        lemma_increasing_from_above(keys, i + 1);
        assert(keys[i] < keys[i + 1]);
    }
}

/// A row-major sequence that covers a grid enumerates it: the assignment
/// for position `(x, y)` stands at index `y * width + x`.
pub proof fn lemma_row_major_cover_enumerates(s: Seq<Assignment>, width: int, height: int)
    requires
        row_major(s),
        covers_grid(assigned_positions(s), width, height),
    ensures
        enumerates_rows(s, width),
{
    broadcast use vstd::seq_lib::group_to_multiset_ensures;

    let places = assigned_positions(s);
    let bag = places.to_multiset();
    assert forall|i: int| 0 <= i < s.len() implies (#[trigger] s[i]).x < width && s[i].y
        < height by {
        assert(places[i] == (s[i].x, s[i].y));
        assert(places.contains(places[i]));
        assert(bag.count((s[i].x, s[i].y)) > 0);
    }
    assert forall|p: (u64, u64)| bag.contains(p) implies bag.count(p) == 1 by {
        assert(bag.count((p.0, p.1)) > 0);
    }
    places.lemma_multiset_has_no_duplicates_conv();
    let keys = Seq::new(s.len(), |i: int| row_major_index(s[i].x, s[i].y, width));
    assert forall|a: int, b: int| 0 <= a < b < keys.len() implies #[trigger] keys[a]
        < #[trigger] keys[b] by {
        assert(!comes_before(s[b], s[a]));
        assert(places[a] != places[b]);
        assert(places[a] == (s[a].x, s[a].y) && places[b] == (s[b].x, s[b].y));
        assert(comes_before(s[a], s[b]));
        assert(s[a].x < width && s[b].x < width);
        if s[a].y < s[b].y {
            assert(s[a].y * width + width <= s[b].y * width) by (nonlinear_arith)
                requires
                    s[a].y < s[b].y,
                    width >= 0,
            ;
        }
    }
    assert forall|a: int| 0 <= a < keys.len() implies 0 <= #[trigger] keys[a] < keys.len() by {
        assert(s[a].x < width && s[a].y < height);
        assert(0 <= s[a].y * width && s[a].y * width + width <= height * width)
            by (nonlinear_arith)
            requires
                0 <= s[a].y < height,
                width >= 0,
        ;
        assert(height * width == width * height) by (nonlinear_arith);
    }
    assert forall|i: int| 0 <= i < s.len() implies row_major_index(
        (#[trigger] s[i]).x,
        s[i].y,
        width,
    ) == i by {
        lemma_increasing_fills(keys, i);
        assert(keys[i] == row_major_index(s[i].x, s[i].y, width));
    }
}

/// The sorted layout of assignments that cover a grid enumerates the grid
/// row by row, with no position missing and none twice.
pub proof fn lemma_sorted_cover_enumerates(s: Seq<Assignment>, width: int, height: int)
    requires
        covers_grid(assigned_positions(s), width, height),
    ensures
        sorted_layout(s).len() == width * height,
        enumerates_rows(sorted_layout(s), width),
{
    broadcast use vstd::seq_lib::group_to_multiset_ensures;

    lemma_sorted_layout(s);
    crate::grid::lemma_map_keeps_arrangement(sorted_layout(s), s, |a: Assignment| (a.x, a.y));
    lemma_row_major_cover_enumerates(sorted_layout(s), width, height);
}

} // verus!
