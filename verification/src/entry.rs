//! One record of the log as an entry: its fields read out of the record's
//! lines.

use crate::filter::{Criteria, CriteriaView};
use crate::number::{bounded_value, decimal, decimal_text, lemma_decimal_reads_back, parse_unsigned};
use crate::parameter::LogParameter;
use crate::text::{
    chars_of, find, find_char, is_whitespace, lemma_find_is, lemma_leading_is,
    lemma_trimmed_clean, lemma_trimmed_padded, same_chars, trim_range, trimmed, Strip,
};
use crate::timestamp::{date_of, epoch, moment_of, Timestamp, TimestampView};
use vstd::prelude::*;

verus! {

/// The character that parts a key from its value.
pub const VALUE_SEPARATOR: char = ':';

/// One request that the proxy logged.
#[derive(Debug)]
pub struct LogEntry {
    pub agent: String,
    pub clientip: String,
    pub gzip: String,
    pub host: String,
    pub length: u64,
    pub method: String,
    pub request: String,
    pub referrer: String,
    pub schema: String,
    pub serverhost: String,
    pub status: u16,
    pub timestamp: Timestamp,
    /// The record's number among the records of the input, counted from 0.
    pub line: u64,
}

/// A `LogEntry` as contracts speak of it.
pub struct LogEntryView {
    pub agent: Seq<char>,
    pub clientip: Seq<char>,
    pub gzip: Seq<char>,
    pub host: Seq<char>,
    pub length: u64,
    pub method: Seq<char>,
    pub request: Seq<char>,
    pub referrer: Seq<char>,
    pub schema: Seq<char>,
    pub serverhost: Seq<char>,
    pub status: u16,
    pub timestamp: TimestampView,
    pub line: u64,
}

impl View for LogEntry {
    type V = LogEntryView;

    open spec fn view(&self) -> LogEntryView {
        LogEntryView {
            agent: self.agent@,
            clientip: self.clientip@,
            gzip: self.gzip@,
            host: self.host@,
            length: self.length,
            method: self.method@,
            request: self.request@,
            referrer: self.referrer@,
            schema: self.schema@,
            serverhost: self.serverhost@,
            status: self.status,
            timestamp: self.timestamp@,
            line: self.line,
        }
    }
}

/// The entry of which nothing is known: every text empty, every number
/// 0, the timestamp the epoch.
pub open spec fn blank_entry() -> LogEntryView {
    LogEntryView {
        agent: Seq::empty(),
        clientip: Seq::empty(),
        gzip: Seq::empty(),
        host: Seq::empty(),
        length: 0,
        method: Seq::empty(),
        request: Seq::empty(),
        referrer: Seq::empty(),
        schema: Seq::empty(),
        serverhost: Seq::empty(),
        status: 0,
        timestamp: epoch(),
        line: 0,
    }
}

impl Default for LogEntry {
    fn default() -> (r: Self)
        ensures
            r@ == blank_entry(),
    {
        LogEntry {
            agent: String::new(),
            clientip: String::new(),
            gzip: String::new(),
            host: String::new(),
            length: 0,
            method: String::new(),
            request: String::new(),
            referrer: String::new(),
            schema: String::new(),
            serverhost: String::new(),
            status: 0,
            timestamp: Timestamp::default(),
            line: 0,
        }
    }
}

impl DeepView for LogEntry {
    type V = LogEntryView;

    open spec fn deep_view(&self) -> LogEntryView {
        self@
    }
}

/// A key with its value.
pub type Pair = (Seq<char>, Seq<char>);

/// The key and the value that `line` gives: the key is what stands before
/// the first separator, without white space around it; the value is what
/// stands from that separator on, without separators and blanks at its two
/// ends. A line without a separator gives nothing.
pub open spec fn key_value(line: Seq<char>) -> Option<Pair> {
    match find(line, VALUE_SEPARATOR) {
        Some(at) => Some(
            (trimmed(line.take(at), Strip::Whitespace), trimmed(line.skip(at), Strip::Separators)),
        ),
        None => None,
    }
}

/// The keys and values that `lines` give, in the order of the lines.
pub open spec fn key_values(lines: Seq<Seq<char>>) -> Seq<Pair>
    decreases lines.len(),
{
    if lines.len() == 0 {
        Seq::empty()
    } else {
        match key_value(lines.last()) {
            Some(pair) => key_values(lines.drop_last()).push(pair),
            None => key_values(lines.drop_last()),
        }
    }
}

/// The value that `pairs` give to `key`: that of the last pair with this
/// key, or the empty text where no pair has it.
pub open spec fn lookup(pairs: Seq<Pair>, key: Seq<char>) -> Seq<char>
    decreases pairs.len(),
{
    if pairs.len() == 0 {
        Seq::empty()
    } else if pairs.last().0 == key {
        pairs.last().1
    } else {
        lookup(pairs.drop_last(), key)
    }
}

/// The number that `text` writes if it writes one that is `max` at most,
/// else 0.
pub open spec fn number_or_zero(text: Seq<char>, max: nat) -> nat {
    match bounded_value(text, max) {
        Some(n) => n,
        None => 0,
    }
}

/// The entry that the lines of a record give, as record number `line`.
pub open spec fn entry_of(content: Seq<Seq<char>>, line: u64) -> LogEntryView {
    let fields = key_values(content);
    LogEntryView {
        agent: trimmed(lookup(fields, "agent"@), Strip::Quotes),
        clientip: lookup(fields, "clientip"@),
        gzip: Seq::empty(),
        host: Seq::empty(),
        length: number_or_zero(lookup(fields, "length"@), u64::MAX as nat) as u64,
        method: lookup(fields, "method"@),
        request: lookup(fields, "request"@),
        referrer: lookup(fields, "referrer"@),
        schema: lookup(fields, "schema"@),
        serverhost: Seq::empty(),
        status: number_or_zero(lookup(fields, "status"@), u16::MAX as nat) as u16,
        timestamp: moment_of(lookup(fields, "timestamp"@)),
        line,
    }
}

/// The text by which `entry` is filtered and grouped under `parameter`.
pub open spec fn field_text(entry: LogEntryView, parameter: LogParameter) -> Seq<char> {
    match parameter {
        LogParameter::Time => entry.timestamp.text,
        LogParameter::Date => date_of(entry.timestamp),
        LogParameter::Agent => entry.agent,
        LogParameter::ClientIp => entry.clientip,
        LogParameter::Status => decimal(entry.status as nat),
        LogParameter::Method => entry.method,
        LogParameter::Schema => entry.schema,
        LogParameter::Request => entry.request,
        LogParameter::Referrer => entry.referrer,
    }
}

/// Whether `entry` passes `criteria` on the field that `parameter` names.
/// Without a parameter every entry passes.
pub open spec fn allowed(
    entry: LogEntryView,
    criteria: CriteriaView,
    parameter: Option<LogParameter>,
) -> bool {
    match parameter {
        Some(p) => criteria.allows(field_text(entry, p)),
        None => true,
    }
}

/// The key under which a record holds the field that `parameter` names.
pub open spec fn record_key(parameter: LogParameter) -> Seq<char> {
    match parameter {
        LogParameter::Time => "timestamp"@,
        LogParameter::Date => "timestamp"@,
        LogParameter::Agent => "agent"@,
        LogParameter::ClientIp => "clientip"@,
        LogParameter::Status => "status"@,
        LogParameter::Method => "method"@,
        LogParameter::Schema => "schema"@,
        LogParameter::Request => "request"@,
        LogParameter::Referrer => "referrer"@,
    }
}

/// Whether `text` is a word: without a separator in it and without white
/// space at its two ends.
pub open spec fn is_word(text: Seq<char>) -> bool {
    &&& forall|j: int| 0 <= j < text.len() ==> text[j] != VALUE_SEPARATOR
    &&& text.len() > 0 ==> !is_whitespace(text[0]) && !is_whitespace(text.last())
}

/// Whether `text` has neither a separator nor a blank at its two ends.
pub open spec fn is_bare(text: Seq<char>) -> bool {
    text.len() > 0 ==> !Strip::Separators.takes(text[0]) && !Strip::Separators.takes(text.last())
}

/// The line that writes `value` under `key`: the key, the separator, a
/// blank and the value.
pub open spec fn assignment(key: Seq<char>, value: Seq<char>) -> Seq<char> {
    key + seq![VALUE_SEPARATOR, ' '] + value
}

/// A line that writes a bare value under a word gives that word and that
/// value. The value is taken from the first separator on, so a separator
/// inside the value stays in it.
pub proof fn lemma_assignment_read(key: Seq<char>, value: Seq<char>)
    requires
        is_word(key),
        is_bare(value),
    ensures
        key_value(assignment(key, value)) == Some((key, value)),
{
    let line = assignment(key, value);
    let at = key.len() as int;
    lemma_find_is(line, VALUE_SEPARATOR, at);
    assert(line.take(at) =~= key);
    lemma_trimmed_clean(key, Strip::Whitespace);
    let rest = line.skip(at);
    let padding = seq![VALUE_SEPARATOR, ' '];
    assert(rest =~= padding + value);
    if value.len() > 0 {
        lemma_trimmed_padded(padding, value, Seq::empty(), Strip::Separators);
    } else {
        lemma_leading_is(rest, Strip::Separators, 2);
    }
}

/// Whether `line` gives a value to `key`.
pub open spec fn gives_key(line: Seq<char>, key: Seq<char>) -> bool {
    match key_value(line) {
        Some(pair) => pair.0 == key,
        None => false,
    }
}

/// The value of a key is that of the last line that gives the key.
pub proof fn lemma_last_line_wins(lines: Seq<Seq<char>>, at: int, key: Seq<char>, value: Seq<char>)
    requires
        0 <= at < lines.len(),
        key_value(lines[at]) == Some((key, value)),
        forall|j: int| at < j < lines.len() ==> !gives_key(#[trigger] lines[j], key),
    ensures
        lookup(key_values(lines), key) == value,
    decreases lines.len(),
{
    let before = lines.drop_last();
    if at < lines.len() - 1 {
        lemma_last_line_wins(before, at, key, value);
        if key_value(lines.last()) is Some {
            assert(key_values(lines).drop_last() =~= key_values(before));
        }
    }
}

/// What a record writes comes back out of its entry. Where the last line
/// that gives the key of `parameter` writes `value` under it, the entry's
/// text under `parameter` is `value` again: without the double quotes
/// around it for the user agent, and for the status where `value` is a
/// number up to 65535 in decimal digits without leading zeros. The
/// timestamp is left out, as its text is written anew.
pub proof fn lemma_field_round_trip(
    content: Seq<Seq<char>>,
    line: u64,
    at: int,
    parameter: LogParameter,
    value: Seq<char>,
)
    requires
        parameter != LogParameter::Time,
        parameter != LogParameter::Date,
        0 <= at < content.len(),
        content[at] == assignment(record_key(parameter), value),
        forall|j: int|
            at < j < content.len() ==> !gives_key(#[trigger] content[j], record_key(parameter)),
        is_bare(value),
        parameter == LogParameter::Status ==> exists|n: nat| n <= u16::MAX && value == decimal(n),
    ensures
        parameter == LogParameter::Agent ==> field_text(entry_of(content, line), parameter)
            == trimmed(value, Strip::Quotes),
        parameter != LogParameter::Agent ==> field_text(entry_of(content, line), parameter)
            == value,
{
    let key = record_key(parameter);
    assert(is_word(key)) by {
        reveal_strlit("agent");
        reveal_strlit("clientip");
        reveal_strlit("status");
        reveal_strlit("method");
        reveal_strlit("schema");
        reveal_strlit("request");
        reveal_strlit("referrer");
    }
    lemma_assignment_read(key, value);
    lemma_last_line_wins(content, at, key, value);
    if parameter == LogParameter::Status {
        let n = choose|n: nat| n <= u16::MAX && value == decimal(n);
        lemma_decimal_reads_back(n);
    }
}

/// Reads key and value out of each line that has a separator.
pub fn hash<'a>(strings: &'a [String]) -> (pairs: Vec<(&'a str, &'a str)>)
    ensures
        pairs.deep_view() == key_values(strings.deep_view()),
{
    let mut pairs: Vec<(&'a str, &'a str)> = Vec::new();
    let ghost lines = strings.deep_view();
    let mut i: usize = 0;
    while i < strings.len()
        invariant
            i <= strings.len(),
            lines == strings.deep_view(),
            pairs.deep_view() == key_values(lines.take(i as int)),
        decreases strings.len() - i,
    {
        let line: &'a str = strings[i].as_str();
        let chars = chars_of(line);
        proof {
            assert(lines.take(i + 1).drop_last() =~= lines.take(i as int));
        }
        match find_char(&chars, VALUE_SEPARATOR) {
            Some(at) => {
                let (key_from, key_to) = trim_range(&chars, 0, at, Strip::Whitespace);
                let (value_from, value_to) = trim_range(&chars, at, chars.len(), Strip::Separators);
                let key = line.substring_char(key_from, key_to);
                let value = line.substring_char(value_from, value_to);
                pairs.push((key, value));
            },
            None => {},
        }
        i += 1;
    }
    assert(lines.take(i as int) =~= lines);
    pairs
}

/// The characters of each key of `pairs`.
fn keys_of(pairs: &Vec<(&str, &str)>) -> (keys: Vec<Vec<char>>)
    ensures
        keys.len() == pairs.len(),
        forall|i: int| 0 <= i < keys.len() ==> (#[trigger] keys[i])@ == pairs[i].0@,
{
    let mut keys: Vec<Vec<char>> = Vec::new();
    let mut i: usize = 0;
    while i < pairs.len()
        invariant
            i <= pairs.len(),
            keys.len() == i,
            forall|k: int| 0 <= k < i ==> (#[trigger] keys[k])@ == pairs[k].0@,
        decreases pairs.len() - i,
    {
        keys.push(chars_of(pairs[i].0));
        i += 1;
    }
    keys
}

/// The value that `pairs` give to `key`; `keys` holds the characters of
/// their keys.
fn value_of<'a>(pairs: &Vec<(&'a str, &'a str)>, keys: &Vec<Vec<char>>, key: &str) -> (r: &'a str)
    requires
        keys.len() == pairs.len(),
        forall|i: int| 0 <= i < keys.len() ==> (#[trigger] keys[i])@ == pairs[i].0@,
    ensures
        r@ == lookup(pairs.deep_view(), key@),
{
    let wanted = chars_of(key);
    let ghost all = pairs.deep_view();
    let mut i: usize = pairs.len();
    assert(all.take(i as int) =~= all);
    while i > 0
        invariant
            i <= pairs.len(),
            keys.len() == pairs.len(),
            forall|k: int| 0 <= k < keys.len() ==> (#[trigger] keys[k])@ == pairs[k].0@,
            all == pairs.deep_view(),
            wanted@ == key@,
            lookup(all, key@) == lookup(all.take(i as int), key@),
        decreases i,
    {
        i -= 1;
        proof {
            assert(all.take(i + 1).drop_last() =~= all.take(i as int));
        }
        if same_chars(&keys[i], &wanted) {
            return pairs[i].1;
        }
    }
    proof {
        reveal_strlit("");
    }
    ""
}

/// `text` without double quotes at its two ends.
fn unquoted(text: &str) -> (r: String)
    ensures
        r@ == trimmed(text@, Strip::Quotes),
{
    let chars = chars_of(text);
    let (from, to) = trim_range(&chars, 0, chars.len(), Strip::Quotes);
    assert(chars@.subrange(0, chars@.len() as int) =~= text@);
    String::from_str(text.substring_char(from, to))
}

impl LogEntry {
    /// Builds the entry of the record whose lines are `content`, as record
    /// number `line`. Only a record without lines gives no entry: a field
    /// that is missing or cannot be read gets the empty text, 0 or the epoch.
    #[must_use]
    pub fn new(content: &[String], line: u64) -> (r: Option<Self>)
        ensures
            r is None <==> content@.len() == 0,
            r matches Some(entry) ==> entry@ == entry_of(content.deep_view(), line),
    {
        if content.len() == 0 {
            return None;
        }
        let pairs = hash(content);
        let keys = keys_of(&pairs);
        let length = parse_unsigned(value_of(&pairs, &keys, "length"), u64::MAX);
        let status = parse_unsigned(value_of(&pairs, &keys, "status"), 65535);
        Some(
            LogEntry {
                agent: unquoted(value_of(&pairs, &keys, "agent")),
                clientip: String::from_str(value_of(&pairs, &keys, "clientip")),
                gzip: String::new(),
                host: String::new(),
                length: match length {
                    Some(n) => n,
                    None => 0,
                },
                method: String::from_str(value_of(&pairs, &keys, "method")),
                request: String::from_str(value_of(&pairs, &keys, "request")),
                referrer: String::from_str(value_of(&pairs, &keys, "referrer")),
                schema: String::from_str(value_of(&pairs, &keys, "schema")),
                serverhost: String::new(),
                status: match status {
                    Some(n) => n as u16,
                    None => 0,
                },
                timestamp: Timestamp::parse(value_of(&pairs, &keys, "timestamp")),
                line,
            },
        )
    }

    /// The text by which the entry is filtered and grouped under `parameter`.
    pub fn field(&self, parameter: LogParameter) -> (r: String)
        ensures
            r@ == field_text(self@, parameter),
    {
        match parameter {
            LogParameter::Time => self.timestamp.text.clone(),
            LogParameter::Date => self.timestamp.date_text(),
            LogParameter::Agent => self.agent.clone(),
            LogParameter::ClientIp => self.clientip.clone(),
            LogParameter::Status => decimal_text(self.status as u64),
            LogParameter::Method => self.method.clone(),
            LogParameter::Schema => self.schema.clone(),
            LogParameter::Request => self.request.clone(),
            LogParameter::Referrer => self.referrer.clone(),
        }
    }

    /// Whether the entry passes `filter` on the field that `parameter`
    /// names. Without a parameter every entry passes.
    pub fn allow(&self, filter: &Criteria, parameter: Option<LogParameter>) -> (b: bool)
        ensures
            b == allowed(self@, filter@, parameter),
    {
        match parameter {
            Some(LogParameter::Time) => filter.allow(self.timestamp.text.as_str()),
            Some(LogParameter::Date) => filter.allow(self.timestamp.date_text().as_str()),
            Some(LogParameter::Agent) => filter.allow(self.agent.as_str()),
            Some(LogParameter::ClientIp) => filter.allow(self.clientip.as_str()),
            Some(LogParameter::Status) => filter.allow(decimal_text(self.status as u64).as_str()),
            Some(LogParameter::Method) => filter.allow(self.method.as_str()),
            Some(LogParameter::Schema) => filter.allow(self.schema.as_str()),
            Some(LogParameter::Request) => filter.allow(self.request.as_str()),
            Some(LogParameter::Referrer) => filter.allow(self.referrer.as_str()),
            None => true,
        }
    }
}

} // verus!
