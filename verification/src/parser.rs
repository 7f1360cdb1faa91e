//! Cutting the lines of a log into records and turning each record into an
//! entry.

use crate::entry::{allowed, entry_of, LogEntry, LogEntryView, VALUE_SEPARATOR};
use crate::filter::{Criteria, CriteriaView};
use crate::parameter::LogParameter;
use crate::text::{chars_of, contains, ends_with, holds};
use vstd::prelude::*;

verus! {

/// The words that mark the line on which a record ends.
pub open spec fn sentinel() -> Seq<char> {
    "pattern: NGINXPROXYACCESS"@
}

/// Whether `line` ends a record: it holds the sentinel somewhere.
pub open spec fn closes_record(line: Seq<char>) -> bool {
    contains(line, sentinel())
}

/// Whether `line` goes into the record that is open: it does not end the
/// record, and it does not stop at the separator with no value behind it.
pub open spec fn is_content(line: Seq<char>) -> bool {
    !closes_record(line) && !ends_with(line, VALUE_SEPARATOR)
}

/// The lines that the record still open after `lines` has gathered.
pub open spec fn open_content(lines: Seq<Seq<char>>) -> Seq<Seq<char>>
    decreases lines.len(),
{
    if lines.len() == 0 || closes_record(lines.last()) {
        Seq::empty()
    } else if is_content(lines.last()) {
        open_content(lines.drop_last()).push(lines.last())
    } else {
        open_content(lines.drop_last())
    }
}

/// How many records end within `lines`.
pub open spec fn closed_count(lines: Seq<Seq<char>>) -> nat
    decreases lines.len(),
{
    if lines.len() == 0 {
        0
    } else if closes_record(lines.last()) {
        closed_count(lines.drop_last()) + 1
    } else {
        closed_count(lines.drop_last())
    }
}

/// What record number `number` with the lines `content` adds to the
/// result: its entry, if it has a line at all and the entry passes.
pub open spec fn kept(
    content: Seq<Seq<char>>,
    number: nat,
    criteria: CriteriaView,
    parameter: Option<LogParameter>,
) -> Seq<LogEntryView> {
    if content.len() > 0 && allowed(entry_of(content, number as u64), criteria, parameter) {
        seq![entry_of(content, number as u64)]
    } else {
        Seq::empty()
    }
}

/// The entries of the records that end within `lines`.
pub open spec fn closed_entries(
    lines: Seq<Seq<char>>,
    criteria: CriteriaView,
    parameter: Option<LogParameter>,
) -> Seq<LogEntryView>
    decreases lines.len(),
{
    if lines.len() == 0 {
        Seq::empty()
    } else {
        let before = lines.drop_last();
        if closes_record(lines.last()) {
            closed_entries(before, criteria, parameter) + kept(
                open_content(before),
                closed_count(before),
                criteria,
                parameter,
            )
        } else {
            closed_entries(before, criteria, parameter)
        }
    }
}

/// The entries that `lines` give: those of the records that end within
/// them, then that of the record left open at the end.
pub open spec fn converted(
    lines: Seq<Seq<char>>,
    criteria: CriteriaView,
    parameter: Option<LogParameter>,
) -> Seq<LogEntryView> {
    closed_entries(lines, criteria, parameter) + kept(
        open_content(lines),
        closed_count(lines),
        criteria,
        parameter,
    )
}

/// No more records end within `lines` than there are lines.
pub proof fn lemma_closed_count_bound(lines: Seq<Seq<char>>)
    ensures
        closed_count(lines) <= lines.len(),
    decreases lines.len(),
{
    if lines.len() > 0 {
        lemma_closed_count_bound(lines.drop_last());
    }
}

/// Puts the entry of a record behind `result`, if there is one and it passes.
fn add_entry(
    result: &mut Vec<LogEntry>,
    content: &Vec<String>,
    number: u64,
    filter: &Criteria,
    parameter: Option<LogParameter>,
)
    ensures
        final(result).deep_view() == old(result).deep_view() + kept(
            content.deep_view(),
            number as nat,
            filter@,
            parameter,
        ),
{
    match LogEntry::new(content.as_slice(), number) {
        Some(entry) => {
            if entry.allow(filter, parameter) {
                result.push(entry);
            }
        },
        None => {},
    }
}

/// Turns the lines of a log into entries. A line that holds the sentinel
/// ends a record; the lines before it, but for those that stop at the
/// separator, are the record. Records are numbered from 0 in the order in
/// which they end, empty ones too. What is left after the last sentinel is
/// a record as well. A record gives an entry if it has a line and the
/// entry passes `filter` on the field that `parameter` names.
#[must_use]
pub fn convert(entries: &[String], filter: &Criteria, parameter: Option<LogParameter>) -> (result:
    Vec<LogEntry>)
    ensures
        result.deep_view() == converted(entries.deep_view(), filter@, parameter),
{
    let mark = chars_of("pattern: NGINXPROXYACCESS");
    let mut result: Vec<LogEntry> = Vec::new();
    let mut content: Vec<String> = Vec::new();
    let mut line: u64 = 0;
    let ghost lines = entries.deep_view();
    let mut i: usize = 0;
    while i < entries.len()
        invariant
            i <= entries.len(),
            lines == entries.deep_view(),
            mark@ == sentinel(),
            result.deep_view() == closed_entries(lines.take(i as int), filter@, parameter),
            content.deep_view() == open_content(lines.take(i as int)),
            line == closed_count(lines.take(i as int)),
        decreases entries.len() - i,
    {
        let chars = chars_of(entries[i].as_str());
        proof {
            assert(lines.take(i + 1).drop_last() =~= lines.take(i as int));
            lemma_closed_count_bound(lines.take(i + 1));
        }
        if holds(&chars, &mark) {
            add_entry(&mut result, &content, line, filter, parameter);
            content.clear();
            line += 1;
        } else if !(chars.len() > 0 && chars[chars.len() - 1] == VALUE_SEPARATOR) {
            content.push(entries[i].clone());
        }
        i += 1;
    }
    assert(lines.take(i as int) =~= lines);
    add_entry(&mut result, &content, line, filter, parameter);
    result
}

/// Input without a line gives no entry.
pub proof fn lemma_no_lines_no_entries(criteria: CriteriaView, parameter: Option<LogParameter>)
    ensures
        converted(Seq::empty(), criteria, parameter) == Seq::<LogEntryView>::empty(),
{
}

/// A record that no sentinel ends still gives its entry: where the input
/// stops on a line that goes into a record, the last entry of an
/// unfiltered result is that of the open record, numbered after the records
/// that ended before it.
pub proof fn lemma_trailing_record(lines: Seq<Seq<char>>, criteria: CriteriaView)
    requires
        lines.len() > 0,
        is_content(lines.last()),
    ensures
        open_content(lines).len() > 0,
        converted(lines, criteria, None).len() > 0,
        converted(lines, criteria, None).last() == entry_of(
            open_content(lines),
            closed_count(lines) as u64,
        ),
{
}

/// Whether the record numbers of `entries` rise and stay below `bound`.
pub open spec fn rising_below(entries: Seq<LogEntryView>, bound: nat) -> bool {
    &&& forall|i: int, j: int| 0 <= i < j < entries.len() ==> entries[i].line < entries[j].line
    &&& forall|i: int| 0 <= i < entries.len() ==> entries[i].line < bound
}

/// The entries of the records that end within `lines` come in the order
/// of the records, and each passes the filter.
proof fn lemma_closed_entries_in_order(
    lines: Seq<Seq<char>>,
    criteria: CriteriaView,
    parameter: Option<LogParameter>,
)
    requires
        lines.len() <= u64::MAX,
    ensures
        rising_below(closed_entries(lines, criteria, parameter), closed_count(lines)),
        forall|i: int|
            0 <= i < closed_entries(lines, criteria, parameter).len() ==> allowed(
                #[trigger] closed_entries(lines, criteria, parameter)[i],
                criteria,
                parameter,
            ),
    decreases lines.len(),
{
    if lines.len() > 0 {
        lemma_closed_entries_in_order(lines.drop_last(), criteria, parameter);
        lemma_closed_count_bound(lines.drop_last());
    }
}

/// Entries come in the order of their records, and only entries that pass
/// the filter come: through the result the record numbers rise, none of
/// them beyond the number of records that ended, and every entry passes.
pub proof fn lemma_entries_in_order(
    lines: Seq<Seq<char>>,
    criteria: CriteriaView,
    parameter: Option<LogParameter>,
)
    requires
        lines.len() <= u64::MAX,
    ensures
        rising_below(converted(lines, criteria, parameter), closed_count(lines) + 1),
        forall|i: int|
            0 <= i < converted(lines, criteria, parameter).len() ==> allowed(
                #[trigger] converted(lines, criteria, parameter)[i],
                criteria,
                parameter,
            ),
{
    lemma_closed_entries_in_order(lines, criteria, parameter);
    lemma_closed_count_bound(lines);
}

/// A sentinel behind `lines` ends the record that they left open and is
/// counted, and the entries stay those that `lines` give without it: it is
/// all one whether the last record of the input is closed or not.
pub proof fn lemma_sentinel_closes(
    lines: Seq<Seq<char>>,
    mark: Seq<char>,
    criteria: CriteriaView,
    parameter: Option<LogParameter>,
)
    requires
        closes_record(mark),
    ensures
        open_content(lines.push(mark)) == Seq::<Seq<char>>::empty(),
        closed_count(lines.push(mark)) == closed_count(lines) + 1,
        converted(lines.push(mark), criteria, parameter) == converted(lines, criteria, parameter),
{
    assert(lines.push(mark).drop_last() =~= lines);
}

} // verus!
