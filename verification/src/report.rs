//! How many pieces of each palette color a mosaic uses.

use vstd::prelude::*;
use crate::color::Rgb;
use crate::error::ErrorKind;
use crate::inventory::{Entry, Inventory};
use crate::layout::{lemma_sorted_layout, lemma_sorted_layout_counts, sorted_layout};
use crate::quantizer::{count_of, lemma_count_bounds, refers_within, Assignment};

verus! {

/// The use made of one palette entry.
#[derive(Clone, Debug, PartialEq, Eq)]
pub struct Usage {
    pub name: String,
    pub color: Rgb,
    pub count: u64,
}

/// The mathematical value of a `Usage`.
pub ghost struct UsageView {
    pub name: Seq<char>,
    pub color: Rgb,
    pub count: int,
}

impl View for Usage {
    type V = UsageView;

    open spec fn view(&self) -> UsageView {
        UsageView { name: self.name@, color: self.color, count: self.count as int }
    }
}

/// The use made of every palette entry, in palette order, and the number of
/// pieces in all.
#[derive(Clone, Debug, PartialEq, Eq)]
pub struct Summary {
    pub usage: Vec<Usage>,
    pub total: u64,
}

/// The mathematical value of a `Summary`.
pub ghost struct SummaryView {
    pub usage: Seq<UsageView>,
    pub total: int,
}

impl View for Summary {
    type V = SummaryView;

    open spec fn view(&self) -> SummaryView {
        SummaryView {
            usage: Seq::new(self.usage@.len(), |j: int| self.usage@[j]@),
            total: self.total as int,
        }
    }
}

/// The summary of the assignments over a palette: for each entry its name,
/// its color and the number of assignments that name it.
pub open spec fn summary_of(assigned: Seq<Assignment>, palette: Seq<Entry>) -> SummaryView {
    SummaryView {
        usage: Seq::new(
            palette.len(),
            |j: int|
                UsageView {
                    name: palette[j].name,
                    color: palette[j].color,
                    count: count_of(assigned, j),
                },
        ),
        total: assigned.len() as int,
    }
}

/// The sum of the counts.
pub open spec fn total_count(usage: Seq<UsageView>) -> int
    decreases usage.len(),
{
    if usage.len() == 0 {
        0
    } else {
        total_count(usage.drop_last()) + usage.last().count
    }
}

/// Counts that agree entry by entry, but for one that is higher by one, add
/// up to one more.
proof fn lemma_total_count_step(before: Seq<UsageView>, after: Seq<UsageView>, entry: int)
    requires
        before.len() == after.len(),
        0 <= entry < before.len(),
        forall|j: int|
            0 <= j < before.len() ==> (#[trigger] after[j]).count == before[j].count + if j
                == entry {
                1int
            } else {
                0int
            },
    ensures
        total_count(after) == total_count(before) + 1,
    decreases before.len(),
{
    let last = before.len() - 1;
    assert(after[last].count == before[last].count + if last == entry {
        1int
    } else {
        0int
    });
    if entry < last {
        assert forall|j: int| 0 <= j < before.drop_last().len() implies (
        #[trigger] after.drop_last()[j]).count == before.drop_last()[j].count + if j == entry {
            1int
        } else {
            0int
        } by {
            assert(after.drop_last()[j] == after[j]);
        }
        lemma_total_count_step(before.drop_last(), after.drop_last(), entry);
    } else {
        lemma_total_count_same(before.drop_last(), after.drop_last());
    }
}

/// Equal counts add up to the same.
proof fn lemma_total_count_same(a: Seq<UsageView>, b: Seq<UsageView>)
    requires
        a.len() == b.len(),
        forall|j: int| 0 <= j < a.len() ==> (#[trigger] a[j]).count == b[j].count,
    ensures
        total_count(a) == total_count(b),
    decreases a.len(),
{
    if a.len() > 0 {
        assert(a[a.len() - 1].count == b[a.len() - 1].count);
        assert forall|j: int| 0 <= j < a.drop_last().len() implies (#[trigger] a.drop_last()[j]).count
            == b.drop_last()[j].count by {
            assert(a.drop_last()[j] == a[j]);
        }
        lemma_total_count_same(a.drop_last(), b.drop_last());
    }
}

/// The counts of a summary add up to its total: every assignment is counted
/// once.
pub proof fn lemma_summary_total(assigned: Seq<Assignment>, palette: Seq<Entry>)
    requires
        refers_within(assigned, palette.len() as int),
    ensures
        total_count(summary_of(assigned, palette).usage) == assigned.len(),
        summary_of(assigned, palette).total == assigned.len(),
    decreases assigned.len(),
{
    let after = summary_of(assigned, palette).usage;
    if assigned.len() == 0 {
        lemma_total_count_zero(after);
    } else {
        let front = assigned.drop_last();
        assert forall|i: int| 0 <= i < front.len() implies (#[trigger] front[i]).entry
            < palette.len() by {
            assert(front[i] == assigned[i]);
        }
        lemma_summary_total(front, palette);
        let before = summary_of(front, palette).usage;
        assert(assigned[assigned.len() - 1].entry < palette.len());
        lemma_total_count_step(before, after, assigned.last().entry as int);
    }
}

/// Counts that are all zero add up to zero.
proof fn lemma_total_count_zero(usage: Seq<UsageView>)
    requires
        forall|j: int| 0 <= j < usage.len() ==> (#[trigger] usage[j]).count == 0,
    ensures
        total_count(usage) == 0,
    decreases usage.len(),
{
    if usage.len() > 0 {
        assert(usage[usage.len() - 1].count == 0);
        assert forall|j: int| 0 <= j < usage.drop_last().len() implies (
        #[trigger] usage.drop_last()[j]).count == 0 by {
            assert(usage.drop_last()[j] == usage[j]);
        }
        lemma_total_count_zero(usage.drop_last());
    }
}

/// The summary does not depend on the order of the assignments: that of
/// the sorted layout is that of the assignments as they were made.
pub proof fn lemma_summary_ignores_order(assigned: Seq<Assignment>, palette: Seq<Entry>)
    ensures
        summary_of(sorted_layout(assigned), palette) == summary_of(assigned, palette),
{
    lemma_sorted_layout(assigned);
    assert forall|j: int| 0 <= j < palette.len() implies count_of(sorted_layout(assigned), j)
        == count_of(assigned, j) by {
        lemma_sorted_layout_counts(assigned, j);
    }
    assert(summary_of(sorted_layout(assigned), palette).usage =~= summary_of(
        assigned,
        palette,
    ).usage);
}

/// Counts the assignments per palette entry. The summary lists every entry
/// of the palette in palette order, used or not, and the total is the number
/// of assignments. An assignment that names an entry outside the palette is
/// refused.
pub fn summarize(assignments: &Vec<Assignment>, inventory: &Inventory) -> (res: Result<
    Summary,
    ErrorKind,
>)
    ensures
        match res {
            Ok(summary) => {
                &&& refers_within(assignments@, inventory@.len() as int)
                &&& summary@ == summary_of(assignments@, inventory@)
                &&& summary@.total == assignments@.len()
                &&& total_count(summary@.usage) == summary@.total
            },
            Err(e) => !refers_within(assignments@, inventory@.len() as int) && e
                == ErrorKind::PreconditionViolation,
        },
{
    let entries: usize = inventory.entries.len();
    let mut usage: Vec<Usage> = Vec::new();
    let mut j: usize = 0;
    while j < entries
        invariant
            j <= entries,
            entries == inventory.entries@.len(),
            usage@.len() == j,
            forall|i: int|
                0 <= i < j ==> (#[trigger] usage@[i])@ == (UsageView {
                    name: inventory@[i].name,
                    color: inventory@[i].color,
                    count: 0,
                }),
        decreases entries - j,
    {
        let entry = &inventory.entries[j];
        usage.push(Usage { name: entry.name.clone(), color: entry.color, count: 0 });
        j += 1;
    }
    let mut k: usize = 0;
    assert(assignments@.take(0) =~= Seq::<Assignment>::empty());
    while k < assignments.len()
        invariant
            k <= assignments.len(),
            entries == inventory.entries@.len(),
            usage@.len() == entries,
            refers_within(assignments@.take(k as int), entries as int),
            forall|i: int|
                0 <= i < entries ==> (#[trigger] usage@[i])@ == (UsageView {
                    name: inventory@[i].name,
                    color: inventory@[i].color,
                    count: count_of(assignments@.take(k as int), i),
                }),
        decreases assignments.len() - k,
    {
        let entry: usize = assignments[k].entry;
        if entry >= entries {
            return Err(ErrorKind::PreconditionViolation);
        }
        proof {
            lemma_count_bounds(assignments@.take(k as int), entry as int);
            assert(assignments@.take(k + 1).drop_last() =~= assignments@.take(k as int));
            assert(assignments@.take(k + 1).last() == assignments@[k as int]);
        }
        usage[entry].count += 1;
        k += 1;
    }
    proof {
        assert(assignments@.take(k as int) =~= assignments@);
    }
    let summary = Summary { usage, total: assignments.len() as u64 };
    proof {
        assert(summary@.usage =~= summary_of(assignments@, inventory@).usage);
        lemma_summary_total(assignments@, inventory@);
    }
    Ok(summary)
}

/// The character for a decimal digit.
pub open spec fn digit_char(d: int) -> char {
    if d == 0 {
        '0'
    } else if d == 1 {
        '1'
    } else if d == 2 {
        '2'
    } else if d == 3 {
        '3'
    } else if d == 4 {
        '4'
    } else if d == 5 {
        '5'
    } else if d == 6 {
        '6'
    } else if d == 7 {
        '7'
    } else if d == 8 {
        '8'
    } else {
        '9'
    }
}

/// The decimal numeral of `n`, without leading zeros.
pub open spec fn decimal(n: nat) -> Seq<char>
    decreases n,
{
    if n < 10 {
        seq![digit_char(n as int)]
    } else {
        decimal(n / 10).push(digit_char((n % 10) as int))
    }
}

/// The report line for one palette entry: `<name> - <count> pieces`.
pub open spec fn usage_line(usage: UsageView) -> Seq<char> {
    usage.name + " - "@ + decimal(usage.count as nat) + " pieces"@
}

/// The closing line of a report: `Total Pieces: <total>`.
pub open spec fn total_line(total: int) -> Seq<char> {
    "Total Pieces: "@ + decimal(total as nat)
}

/// One line for each entry that was used at all, in palette order.
pub open spec fn usage_lines(usage: Seq<UsageView>) -> Seq<Seq<char>>
    decreases usage.len(),
{
    if usage.len() == 0 {
        Seq::empty()
    } else if usage.last().count > 0 {
        usage_lines(usage.drop_last()).push(usage_line(usage.last()))
    } else {
        usage_lines(usage.drop_last())
    }
}

/// The lines of the report for a summary: the entries that were used, then
/// the total.
pub open spec fn report_lines(summary: SummaryView) -> Seq<Seq<char>> {
    usage_lines(summary.usage).push(total_line(summary.total))
}

/// The text of each line.
pub open spec fn texts(lines: Seq<String>) -> Seq<Seq<char>> {
    Seq::new(lines.len(), |i: int| lines[i]@)
}

fn digit_text(d: u64) -> (res: &'static str)
    requires
        d < 10,
    ensures
        res@ == seq![digit_char(d as int)],
{
    proof {
        reveal_strlit("0");
        reveal_strlit("1");
        reveal_strlit("2");
        reveal_strlit("3");
        reveal_strlit("4");
        reveal_strlit("5");
        reveal_strlit("6");
        reveal_strlit("7");
        reveal_strlit("8");
        reveal_strlit("9");
    }
    let res = if d == 0 {
        "0"
    } else if d == 1 {
        "1"
    } else if d == 2 {
        "2"
    } else if d == 3 {
        "3"
    } else if d == 4 {
        "4"
    } else if d == 5 {
        "5"
    } else if d == 6 {
        "6"
    } else if d == 7 {
        "7"
    } else if d == 8 {
        "8"
    } else {
        "9"
    };
    assert(res@ =~= seq![digit_char(d as int)]);
    res
}

fn push_decimal(text: &mut String, n: u64)
    ensures
        final(text)@ == old(text)@ + decimal(n as nat),
    decreases n,
{
    if n >= 10 {
        push_decimal(text, n / 10);
    }
    text.append(digit_text(n % 10));
    assert(text@ =~= old(text)@ + decimal(n as nat));
}

/// Writes the report for a summary: one line `<name> - <count> pieces` for
/// each palette entry that was used, in palette order, and then the line
/// `Total Pieces: <total>`. Entries that were not used get no line.
pub fn report(summary: &Summary) -> (lines: Vec<String>)
    ensures
        texts(lines@) == report_lines(summary@),
{
    let mut lines: Vec<String> = Vec::new();
    let mut j: usize = 0;
    assert(summary@.usage.take(0) =~= Seq::<UsageView>::empty());
    while j < summary.usage.len()
        invariant
            j <= summary.usage.len(),
            texts(lines@) == usage_lines(summary@.usage.take(j as int)),
        decreases summary.usage.len() - j,
    {
        let usage = &summary.usage[j];
        proof {
            assert(summary@.usage.take(j + 1).drop_last() =~= summary@.usage.take(j as int));
            assert(summary@.usage.take(j + 1).last() == usage@);
        }
        if usage.count > 0 {
            let mut line = usage.name.clone();
            line.append(" - ");
            push_decimal(&mut line, usage.count);
            line.append(" pieces");
            assert(line@ == usage_line(usage@));
            let ghost before = texts(lines@);
            lines.push(line);
            assert(texts(lines@) =~= before.push(usage_line(usage@)));
        }
        j += 1;
    }
    assert(summary@.usage.take(j as int) =~= summary@.usage);
    let mut line = String::new();
    line.append("Total Pieces: ");
    push_decimal(&mut line, summary.total);
    assert(line@ =~= total_line(summary@.total));
    let ghost before = texts(lines@);
    lines.push(line);
    assert(texts(lines@) =~= before.push(total_line(summary@.total)));
    lines
}

} // verus!
