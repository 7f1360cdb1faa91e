//! Counting entries by a field, ranking the groups and adding up traffic.

use crate::entry::{field_text, LogEntry, LogEntryView};
use crate::interner::Interner;
use crate::parameter::LogParameter;
use vstd::prelude::*;

verus! {

/// A value of a field together with the number of entries that have it.
#[derive(Debug, Default, PartialEq, Eq)]
pub struct GroupedParameter<T> {
    pub parameter: T,
    pub count: usize,
}

/// The groups that are shown of a field, with the number of entries that
/// all groups of the field hold together, shown or not. A group's share is
/// its count out of this total.
#[derive(Debug, PartialEq, Eq)]
pub struct Breakdown {
    pub groups: Vec<GroupedParameter<String>>,
    pub total: usize,
}

/// A `GroupedParameter` as contracts speak of it.
pub struct Group<K> {
    pub parameter: K,
    pub count: nat,
}

impl<T: DeepView> DeepView for GroupedParameter<T> {
    type V = Group<T::V>;

    open spec fn deep_view(&self) -> Group<T::V> {
        Group { parameter: self.parameter.deep_view(), count: self.count as nat }
    }
}

/// How often `key` stands in `keys`.
pub open spec fn occurrences<K>(keys: Seq<K>, key: K) -> nat
    decreases keys.len(),
{
    if keys.len() == 0 {
        0
    } else if keys.last() == key {
        occurrences(keys.drop_last(), key) + 1
    } else {
        occurrences(keys.drop_last(), key)
    }
}

/// The keys of `keys` without repetition, each where it stands first.
pub open spec fn distinct<K>(keys: Seq<K>) -> Seq<K>
    decreases keys.len(),
{
    if keys.len() == 0 {
        Seq::empty()
    } else if keys.drop_last().contains(keys.last()) {
        distinct(keys.drop_last())
    } else {
        distinct(keys.drop_last()).push(keys.last())
    }
}

/// The groups of `keys`: one for each key that occurs, in the order in
/// which the keys are first seen, with the number of its occurrences.
pub open spec fn grouped<K>(keys: Seq<K>) -> Seq<Group<K>> {
    Seq::new(
        distinct(keys).len(),
        |i: int| Group { parameter: distinct(keys)[i], count: occurrences(keys, distinct(keys)[i]) },
    )
}

/// The texts by which `entries` are grouped under `parameter`.
pub open spec fn projected(entries: Seq<LogEntryView>, parameter: LogParameter) -> Seq<Seq<char>> {
    Seq::new(entries.len(), |i: int| field_text(entries[i], parameter))
}

/// The sum of the counts of `groups`.
pub open spec fn total_count<K>(groups: Seq<Group<K>>) -> nat
    decreases groups.len(),
{
    if groups.len() == 0 {
        0
    } else {
        total_count(groups.drop_last()) + groups.last().count
    }
}

/// `at` is where a group that counts `count` goes into `ranked`: behind
/// every group that counts as much or more, before the first that counts less.
pub open spec fn is_place<K>(ranked: Seq<Group<K>>, count: nat, at: int) -> bool {
    &&& 0 <= at <= ranked.len()
    &&& forall|j: int| 0 <= j < at ==> (#[trigger] ranked[j]).count >= count
    &&& at < ranked.len() ==> ranked[at].count < count
}

/// Where a group that counts `count` goes into `ranked`.
pub open spec fn place<K>(ranked: Seq<Group<K>>, count: nat) -> int {
    choose|at: int| is_place(ranked, count, at)
}

/// `groups` by falling count. Groups that count the same keep the order
/// that they have in `groups`.
pub open spec fn ranked<K>(groups: Seq<Group<K>>) -> Seq<Group<K>>
    decreases groups.len(),
{
    if groups.len() == 0 {
        Seq::empty()
    } else {
        let before = ranked(groups.drop_last());
        before.insert(place(before, groups.last().count), groups.last())
    }
}

/// The first `limit` of `groups` by falling count, or all of them where
/// there is no limit or there are no more than `limit`.
pub open spec fn top<K>(groups: Seq<Group<K>>, limit: Option<usize>) -> Seq<Group<K>> {
    match limit {
        Some(n) => if n < groups.len() {
            ranked(groups).take(n as int)
        } else {
            ranked(groups)
        },
        None => ranked(groups),
    }
}

/// The sum of `numbers`.
pub open spec fn sum(numbers: Seq<nat>) -> nat
    decreases numbers.len(),
{
    if numbers.len() == 0 {
        0
    } else {
        sum(numbers.drop_last()) + numbers.last()
    }
}

/// The lengths of the responses of `entries`.
pub open spec fn lengths(entries: Seq<LogEntryView>) -> Seq<nat> {
    Seq::new(entries.len(), |i: int| entries[i].length as nat)
}

/// A key stands among the distinct keys exactly if it stands among the keys.
pub proof fn lemma_distinct_contains<K>(keys: Seq<K>, key: K)
    ensures
        distinct(keys).contains(key) <==> keys.contains(key),
    decreases keys.len(),
{
    if keys.len() > 0 {
        let before = keys.drop_last();
        lemma_distinct_contains(before, key);
        lemma_distinct_contains(before, keys.last());
        if keys.contains(key) {
            let i = choose|i: int| 0 <= i < keys.len() && keys[i] == key;
            if i < keys.len() - 1 {
                assert(before[i] == key);
            }
        }
        if before.contains(key) {
            let i = choose|i: int| 0 <= i < before.len() && before[i] == key;
            assert(keys[i] == key);
        }
        assert(keys[keys.len() - 1] == keys.last());
        if distinct(keys).contains(key) && !before.contains(keys.last()) {
            let d = distinct(before);
            let i = choose|i: int| 0 <= i < d.push(keys.last()).len() && d.push(keys.last())[i] == key;
            if i < d.len() {
                assert(d[i] == key);
            }
        }
        if !before.contains(keys.last()) {
            let d = distinct(before);
            assert(d.push(keys.last())[d.len() as int] == keys.last());
            if d.contains(key) {
                let i = choose|i: int| 0 <= i < d.len() && d[i] == key;
                assert(d.push(keys.last())[i] == key);
            }
        }
    }
}

/// No key stands twice among the distinct keys.
pub proof fn lemma_distinct_no_duplicates<K>(keys: Seq<K>)
    ensures
        distinct(keys).no_duplicates(),
    decreases keys.len(),
{
    if keys.len() > 0 {
        lemma_distinct_no_duplicates(keys.drop_last());
        lemma_distinct_contains(keys.drop_last(), keys.last());
    }
}

/// A key occurs no more often than there are keys, and does not occur at
/// all where it does not stand among them.
pub proof fn lemma_occurrences_bound<K>(keys: Seq<K>, key: K)
    ensures
        occurrences(keys, key) <= keys.len(),
        !keys.contains(key) ==> occurrences(keys, key) == 0,
    decreases keys.len(),
{
    if keys.len() > 0 {
        lemma_occurrences_bound(keys.drop_last(), key);
        assert(keys[keys.len() - 1] == keys.last());
        if keys.drop_last().contains(key) {
            let i = choose|i: int| 0 <= i < keys.drop_last().len() && keys.drop_last()[i] == key;
            assert(keys[i] == key);
        }
    }
}

/// A count that passes `is_place` is the one that `place` gives.
pub proof fn lemma_place_is<K>(ranked: Seq<Group<K>>, count: nat, at: int)
    requires
        is_place(ranked, count, at),
    ensures
        place(ranked, count) == at,
{
    let other = place(ranked, count);
    assert(is_place(ranked, count, other));
    if other < at {
        assert(ranked[other].count >= count);
    }
    if at < other {
        assert(ranked[at].count >= count);
    }
}

/// There is a place for every count.
pub proof fn lemma_place_exists<K>(ranked: Seq<Group<K>>, count: nat)
    ensures
        is_place(ranked, count, place(ranked, count)),
    decreases ranked.len(),
{
    if ranked.len() == 0 {
        assert(is_place(ranked, count, 0));
    } else {
        let before = ranked.drop_last();
        lemma_place_exists(before, count);
        let at = place(before, count);
        if at < before.len() {
            assert(ranked[at] == before[at]);
            assert forall|j: int| 0 <= j < at implies (#[trigger] ranked[j]).count >= count by {
                assert(ranked[j] == before[j]);
            }
            assert(is_place(ranked, count, at));
        } else {
            assert forall|j: int| 0 <= j < at implies (#[trigger] ranked[j]).count >= count by {
                assert(ranked[j] == before[j]);
            }
            if ranked.last().count >= count {
                assert(is_place(ranked, count, ranked.len() as int));
            } else {
                assert(is_place(ranked, count, at));
            }
        }
    }
}

/// Ranking neither adds a group nor drops one.
pub proof fn lemma_ranked_len<K>(groups: Seq<Group<K>>)
    ensures
        ranked(groups).len() == groups.len(),
    decreases groups.len(),
{
    if groups.len() > 0 {
        lemma_ranked_len(groups.drop_last());
        lemma_place_exists(ranked(groups.drop_last()), groups.last().count);
    }
}

/// Counts the keys: one group for each key that occurs, in the order in
/// which the keys are first seen.
pub fn group(keys: &[String]) -> (groups: Vec<GroupedParameter<String>>)
    ensures
        groups.deep_view() == grouped(keys.deep_view()),
{
    let ghost all = keys.deep_view();
    let mut found = Interner::new();
    let mut counts: Vec<usize> = Vec::new();
    let mut i: usize = 0;
    while i < keys.len()
        invariant
            i <= keys.len(),
            all == keys.deep_view(),
            found.wf(),
            found@ == distinct(all.take(i as int)),
            counts.len() == found@.len(),
            forall|j: int|
                0 <= j < counts.len() ==> #[trigger] counts[j] == occurrences(
                    all.take(i as int),
                    found@[j],
                ),
        decreases keys.len() - i,
    {
        let ghost seen = all.take(i as int);
        let ghost next = all.take(i + 1);
        let ghost key = keys[i as int]@;
        proof {
            assert(next.drop_last() =~= seen);
            lemma_distinct_no_duplicates(seen);
            lemma_distinct_contains(seen, key);
            lemma_occurrences_bound(seen, key);
        }
        let id = found.intern(&keys[i]);
        if id == counts.len() {
            counts.push(1);
        } else {
            counts[id] = counts[id] + 1;
        }
        i += 1;
    }
    assert(all.take(i as int) =~= all);
    let texts = found.into_texts();
    let ghost given = texts@;
    let mut groups: Vec<GroupedParameter<String>> = Vec::new();
    let mut j: usize = 0;
    for text in it: texts
        invariant
            it.seq() == given,
            j == it.index(),
            given.len() == distinct(all).len(),
            counts.len() == given.len(),
            forall|k: int| 0 <= k < given.len() ==> (#[trigger] given[k])@ == distinct(all)[k],
            forall|k: int|
                0 <= k < counts.len() ==> #[trigger] counts[k] == occurrences(all, distinct(all)[k]),
            groups.deep_view() == grouped(all).take(j as int),
    {
        let ghost before = groups.deep_view();
        groups.push(GroupedParameter { parameter: text, count: counts[j] });
        assert(groups.deep_view() =~= before.push(grouped(all)[j as int]));
        j += 1;
    }
    groups
}

/// Counts the entries by the text of the field that `parameter` names:
/// the status by its decimal digits, the time by its canonical form.
pub fn group_by(data: &[LogEntry], parameter: LogParameter) -> (groups: Vec<
    GroupedParameter<String>,
>)
    ensures
        groups.deep_view() == grouped(projected(data.deep_view(), parameter)),
{
    let mut keys: Vec<String> = Vec::new();
    let mut i: usize = 0;
    while i < data.len()
        invariant
            i <= data.len(),
            keys.len() == i,
            forall|k: int| 0 <= k < i ==> (#[trigger] keys[k])@ == field_text(data[k]@, parameter),
        decreases data.len() - i,
    {
        keys.push(data[i].field(parameter));
        i += 1;
    }
    let texts = keys.as_slice();
    assert(texts.deep_view() =~= projected(data.deep_view(), parameter));
    group(texts)
}

/// Orders the groups by falling count and keeps the first `limit` of them,
/// or all of them without a limit. Groups that count the same stay in the
/// order in which they came.
pub fn rank_and_limit<T: DeepView>(groups: Vec<GroupedParameter<T>>, limit: Option<usize>) -> (r:
    Vec<GroupedParameter<T>>)
    ensures
        r.deep_view() == top(groups.deep_view(), limit),
{
    let ghost all = groups.deep_view();
    let ghost given = groups@;
    let mut r: Vec<GroupedParameter<T>> = Vec::new();
    for g in it: groups
        invariant
            it.seq() == given,
            all.len() == given.len(),
            forall|k: int| 0 <= k < given.len() ==> all[k] == (#[trigger] given[k]).deep_view(),
            r.deep_view() == ranked(all.take(it.index() as int)),
    {
        let ghost before = r.deep_view();
        let ghost added = g.deep_view();
        proof {
            assert(all.take(it.index() + 1).drop_last() =~= all.take(it.index() as int));
        }
        // Most groups count little and go to the end, so the place is
        // looked for from there.
        let mut at: usize = r.len();
        while at > 0 && r[at - 1].count < g.count
            invariant
                at <= r.len(),
                before == r.deep_view(),
                added == g.deep_view(),
                forall|j: int| at <= j < before.len() ==> (#[trigger] before[j]).count < added.count,
            decreases at,
        {
            at -= 1;
        }
        proof {
            lemma_ranked_falls(all.take(it.index() as int));
            if at > 0 {
                assert(before[at - 1].count >= added.count);
            }
            lemma_place_is(before, added.count, at as int);
        }
        r.insert(at, g);
    }
    proof {
        assert(all.take(given.len() as int) =~= all);
        lemma_ranked_len(all);
    }
    match limit {
        Some(n) => {
            if n < r.len() {
                r.truncate(n);
            }
        },
        None => {},
    }
    r
}

/// Counts the entries by the field that `parameter` names, orders the
/// groups by falling count and keeps the first `limit` of them. The total
/// is that of all groups, taken before any of them is cut away.
pub fn breakdown(data: &[LogEntry], parameter: LogParameter, limit: Option<usize>) -> (r: Breakdown)
    ensures
        r.groups.deep_view() == top(grouped(projected(data.deep_view(), parameter)), limit),
        r.total == total_count(grouped(projected(data.deep_view(), parameter))),
        r.total == data@.len(),
{
    let groups = group_by(data, parameter);
    proof {
        lemma_groups_count_every_key(projected(data.deep_view(), parameter));
    }
    Breakdown { groups: rank_and_limit(groups, limit), total: data.len() }
}

/// The sum of the counts of `groups`, or nothing where it is beyond `usize`.
pub fn total<T: DeepView>(groups: &[GroupedParameter<T>]) -> (r: Option<usize>)
    ensures
        total_count(groups.deep_view()) <= usize::MAX ==> r == Some(
            total_count(groups.deep_view()) as usize,
        ),
        total_count(groups.deep_view()) > usize::MAX ==> r is None,
{
    let ghost all = groups.deep_view();
    let mut sum: usize = 0;
    let mut i: usize = 0;
    while i < groups.len()
        invariant
            i <= groups.len(),
            all == groups.deep_view(),
            sum == total_count(all.take(i as int)),
        decreases groups.len() - i,
    {
        proof {
            assert(all.take(i + 1).drop_last() =~= all.take(i as int));
        }
        if groups[i].count > usize::MAX - sum {
            proof {
                lemma_total_count_grows(all, i + 1);
            }
            return None;
        }
        sum = sum + groups[i].count;
        i += 1;
    }
    assert(all.take(i as int) =~= all);
    Some(sum)
}

/// The bytes that the responses of `entries` hold together, or nothing
/// where the sum is beyond `u64`.
pub fn total_traffic(entries: &[LogEntry]) -> (r: Option<u64>)
    ensures
        sum(lengths(entries.deep_view())) <= u64::MAX ==> r == Some(
            sum(lengths(entries.deep_view())) as u64,
        ),
        sum(lengths(entries.deep_view())) > u64::MAX ==> r is None,
{
    let ghost all = lengths(entries.deep_view());
    let mut bytes: u64 = 0;
    let mut i: usize = 0;
    while i < entries.len()
        invariant
            i <= entries.len(),
            all == lengths(entries.deep_view()),
            bytes == sum(all.take(i as int)),
        decreases entries.len() - i,
    {
        proof {
            assert(all.take(i + 1).drop_last() =~= all.take(i as int));
        }
        if entries[i].length > u64::MAX - bytes {
            proof {
                lemma_sum_grows(all, i + 1);
            }
            return None;
        }
        bytes = bytes + entries[i].length;
        i += 1;
    }
    assert(all.take(i as int) =~= all);
    Some(bytes)
}

/// The groups of `groups` that count `count`, in their order.
pub open spec fn with_count<K>(groups: Seq<Group<K>>, count: nat) -> Seq<Group<K>>
    decreases groups.len(),
{
    if groups.len() == 0 {
        Seq::empty()
    } else if groups.last().count == count {
        with_count(groups.drop_last(), count).push(groups.last())
    } else {
        with_count(groups.drop_last(), count)
    }
}

/// Whether no group of `groups` counts more than one before it.
pub open spec fn falling<K>(groups: Seq<Group<K>>) -> bool {
    forall|i: int, j: int| 0 <= i < j < groups.len() ==> groups[i].count >= groups[j].count
}

/// A group put into `groups` adds its count to their sum.
proof fn lemma_total_count_insert<K>(groups: Seq<Group<K>>, at: int, group: Group<K>)
    requires
        0 <= at <= groups.len(),
    ensures
        total_count(groups.insert(at, group)) == total_count(groups) + group.count,
    decreases groups.len(),
{
    let longer = groups.insert(at, group);
    if at == groups.len() {
        assert(longer.drop_last() =~= groups);
    } else {
        lemma_total_count_insert(groups.drop_last(), at, group);
        assert(longer.drop_last() =~= groups.drop_last().insert(at, group));
        assert(longer.last() == groups.last());
    }
}

/// One more entry in one group is one more in the sum.
proof fn lemma_total_count_bump<K>(groups: Seq<Group<K>>, more: Seq<Group<K>>, at: int)
    requires
        0 <= at < groups.len(),
        more.len() == groups.len(),
        more[at].count == groups[at].count + 1,
        forall|m: int| 0 <= m < groups.len() && m != at ==> more[m].count == groups[m].count,
    ensures
        total_count(more) == total_count(groups) + 1,
    decreases groups.len(),
{
    if at < groups.len() - 1 {
        lemma_total_count_bump(groups.drop_last(), more.drop_last(), at);
    } else {
        lemma_total_count_same(groups.drop_last(), more.drop_last());
    }
}

/// Groups that count the same one by one count the same together.
proof fn lemma_total_count_same<K>(groups: Seq<Group<K>>, other: Seq<Group<K>>)
    requires
        other.len() == groups.len(),
        forall|m: int| 0 <= m < groups.len() ==> other[m].count == groups[m].count,
    ensures
        total_count(other) == total_count(groups),
    decreases groups.len(),
{
    if groups.len() > 0 {
        lemma_total_count_same(groups.drop_last(), other.drop_last());
    }
}

/// Every key is counted once: the counts of the groups add up to the
/// number of keys.
pub proof fn lemma_groups_count_every_key<K>(keys: Seq<K>)
    ensures
        total_count(grouped(keys)) == keys.len(),
    decreases keys.len(),
{
    if keys.len() > 0 {
        let seen = keys.drop_last();
        let key = keys.last();
        lemma_groups_count_every_key(seen);
        lemma_distinct_contains(seen, key);
        lemma_distinct_no_duplicates(seen);
        lemma_occurrences_bound(seen, key);
        let d = distinct(seen);
        if seen.contains(key) {
            let at = choose|at: int| 0 <= at < d.len() && d[at] == key;
            assert forall|m: int| 0 <= m < d.len() && m != at implies grouped(keys)[m].count
                == grouped(seen)[m].count by {
                assert(d[m] != d[at]);
            }
            lemma_total_count_bump(grouped(seen), grouped(keys), at);
        } else {
            let added = Group { parameter: key, count: 1 };
            assert forall|m: int| 0 <= m < d.len() implies grouped(keys)[m] == grouped(seen)[m] by {
                assert(d.contains(d[m]));
            }
            assert(grouped(keys) =~= grouped(seen).push(added));
            assert(grouped(seen).push(added).drop_last() =~= grouped(seen));
        }
    }
}

/// Ranking puts the groups in the order of falling count.
pub proof fn lemma_ranked_falls<K>(groups: Seq<Group<K>>)
    ensures
        falling(ranked(groups)),
    decreases groups.len(),
{
    if groups.len() > 0 {
        let before = ranked(groups.drop_last());
        let added = groups.last();
        lemma_ranked_falls(groups.drop_last());
        lemma_place_exists(before, added.count);
        let at = place(before, added.count);
        let after = before.insert(at, added);
        assert forall|i: int, j: int| 0 <= i < j < after.len() implies after[i].count
            >= after[j].count by {
            if j < at {
                assert(after[i] == before[i] && after[j] == before[j]);
            } else if j == at {
                assert(after[i] == before[i]);
            } else if i < at {
                assert(after[i] == before[i] && after[j] == before[j - 1]);
                assert(before[at].count >= before[j - 1].count || at == j - 1);
            } else if i == at {
                assert(after[j] == before[j - 1]);
                assert(before[at].count >= before[j - 1].count || at == j - 1);
            } else {
                assert(after[i] == before[i - 1] && after[j] == before[j - 1]);
            }
        }
    }
}

/// A group put into `groups` is not seen among those of another count.
proof fn lemma_with_count_insert_other<K>(groups: Seq<Group<K>>, at: int, group: Group<K>, count: nat)
    requires
        0 <= at <= groups.len(),
        group.count != count,
    ensures
        with_count(groups.insert(at, group), count) == with_count(groups, count),
    decreases groups.len(),
{
    let longer = groups.insert(at, group);
    if at == groups.len() {
        assert(longer.drop_last() =~= groups);
    } else {
        lemma_with_count_insert_other(groups.drop_last(), at, group, count);
        assert(longer.drop_last() =~= groups.drop_last().insert(at, group));
        assert(longer.last() == groups.last());
    }
}

/// A group put before groups that all count less comes last among
/// those of its own count.
proof fn lemma_with_count_insert_same<K>(groups: Seq<Group<K>>, at: int, group: Group<K>)
    requires
        0 <= at <= groups.len(),
        forall|j: int| at <= j < groups.len() ==> (#[trigger] groups[j]).count < group.count,
    ensures
        with_count(groups.insert(at, group), group.count) == with_count(groups, group.count).push(
            group,
        ),
    decreases groups.len(),
{
    let longer = groups.insert(at, group);
    if at == groups.len() {
        assert(longer.drop_last() =~= groups);
    } else {
        lemma_with_count_insert_same(groups.drop_last(), at, group);
        assert(longer.drop_last() =~= groups.drop_last().insert(at, group));
        assert(longer.last() == groups.last());
        assert(groups[groups.len() - 1].count < group.count);
    }
}

/// Ranking is stable and loses nothing: the groups of any one count are
/// the same before and after, in the same order.
pub proof fn lemma_ranked_keeps_order<K>(groups: Seq<Group<K>>, count: nat)
    ensures
        with_count(ranked(groups), count) == with_count(groups, count),
    decreases groups.len(),
{
    if groups.len() > 0 {
        let before = ranked(groups.drop_last());
        let added = groups.last();
        lemma_ranked_keeps_order(groups.drop_last(), count);
        lemma_ranked_falls(groups.drop_last());
        lemma_place_exists(before, added.count);
        let at = place(before, added.count);
        if added.count == count {
            assert forall|j: int| at <= j < before.len() implies (#[trigger] before[j]).count
                < added.count by {
                assert(before[at].count >= before[j].count || at == j);
            }
            lemma_with_count_insert_same(before, at, added);
        } else {
            lemma_with_count_insert_other(before, at, added, count);
        }
    }
}

/// Ranking leaves the sum of the counts as it is, and a limit can only
/// take away from it: what the groups count together has to be asked of
/// the groups before they are cut.
pub proof fn lemma_top_counts_no_more<K>(groups: Seq<Group<K>>, limit: Option<usize>)
    ensures
        total_count(ranked(groups)) == total_count(groups),
        total_count(top(groups, limit)) <= total_count(groups),
        top(groups, None) == ranked(groups),
    decreases groups.len(),
{
    if groups.len() > 0 {
        let before = ranked(groups.drop_last());
        lemma_top_counts_no_more(groups.drop_last(), None);
        lemma_place_exists(before, groups.last().count);
        lemma_total_count_insert(before, place(before, groups.last().count), groups.last());
    }
    lemma_ranked_len(groups);
    match limit {
        Some(n) => {
            if n < groups.len() {
                lemma_total_count_grows(ranked(groups), n as int);
            }
        },
        None => {},
    }
}

/// The first groups count no more together than all of them.
pub proof fn lemma_total_count_grows<K>(groups: Seq<Group<K>>, n: int)
    requires
        0 <= n <= groups.len(),
    ensures
        total_count(groups.take(n)) <= total_count(groups),
    decreases groups.len() - n,
{
    if n == groups.len() {
        assert(groups.take(n) =~= groups);
    } else {
        lemma_total_count_grows(groups, n + 1);
        assert(groups.take(n + 1).drop_last() =~= groups.take(n));
    }
}

/// The first numbers add up to no more than all of them.
pub proof fn lemma_sum_grows(numbers: Seq<nat>, n: int)
    requires
        0 <= n <= numbers.len(),
    ensures
        sum(numbers.take(n)) <= sum(numbers),
    decreases numbers.len() - n,
{
    if n == numbers.len() {
        assert(numbers.take(n) =~= numbers);
    } else {
        lemma_sum_grows(numbers, n + 1);
        assert(numbers.take(n + 1).drop_last() =~= numbers.take(n));
    }
}

} // verus!
