use npma::filter::Criteria;
use npma::timestamp::Timestamp;
use npma::{hash, LogEntry, LogParameter};

fn lines(text: &[&str]) -> Vec<String> {
    text.iter().map(|line| line.to_string()).collect()
}

fn complete_record() -> Vec<String> {
    lines(&[
        "agent: \"Mozilla/5.0 (X11; Linux x86_64)\"",
        "clientip: 203.0.113.7",
        "gzip: 1.25",
        "host: example.org",
        "length: 5120",
        "method: GET",
        "request: /index.html?page=2",
        "referrer: https://example.org/start",
        "schema: https",
        "serverhost: proxy-1",
        "status: 200",
        "timestamp: 10/Oct/2023:13:55:36 +0000",
    ])
}

#[test]
fn hash_reads_key_and_value() {
    let content = lines(&["request: /index.html", "status: 200"]);
    assert_eq!(hash(&content), vec![("request", "/index.html"), ("status", "200")]);
}

#[test]
fn hash_splits_at_the_first_separator_only() {
    let content = lines(&["request: /a:b:c", "timestamp: 10/Oct/2023:13:55:36 +0000", "a:b:c"]);
    assert_eq!(
        hash(&content),
        vec![("request", "/a:b:c"), ("timestamp", "10/Oct/2023:13:55:36 +0000"), ("a", "b:c")]
    );
}

#[test]
fn hash_trims_key_and_value() {
    let content = lines(&["  key \t: value", "key::  : value :: ", "k:v", "key:", " : ", ":"]);
    assert_eq!(
        hash(&content),
        vec![("key", "value"), ("key", "value"), ("k", "v"), ("key", ""), ("", ""), ("", "")]
    );
}

#[test]
fn hash_keeps_inner_blanks_and_outer_tabs_of_a_value() {
    let content = lines(&["agent: a b  c", "x:\tvalue\t"]);
    assert_eq!(hash(&content), vec![("agent", "a b  c"), ("x", "\tvalue\t")]);
}

#[test]
fn hash_skips_lines_without_separator() {
    let content = lines(&["no separator here", "", "key: value", "another line"]);
    assert_eq!(hash(&content), vec![("key", "value")]);
    assert_eq!(hash(&[]), Vec::<(&str, &str)>::new());
}

#[test]
fn hash_counts_characters_not_bytes() {
    let content = lines(&["clé: värde", "ключ : значение :"]);
    assert_eq!(hash(&content), vec![("clé", "värde"), ("ключ", "значение")]);
}

#[test]
fn new_gives_nothing_for_an_empty_record() {
    assert!(LogEntry::new(&[], 0).is_none());
    assert!(LogEntry::new(&[], 17).is_none());
}

#[test]
fn new_reads_a_complete_record() {
    let entry = LogEntry::new(&complete_record(), 3).unwrap();
    assert_eq!(entry.line, 3);
    assert_eq!(entry.agent, "Mozilla/5.0 (X11; Linux x86_64)");
    assert_eq!(entry.clientip, "203.0.113.7");
    assert_eq!(entry.length, 5120);
    assert_eq!(entry.method, "GET");
    assert_eq!(entry.request, "/index.html?page=2");
    assert_eq!(entry.referrer, "https://example.org/start");
    assert_eq!(entry.schema, "https");
    assert_eq!(entry.status, 200);
    assert_eq!(entry.timestamp, Timestamp::parse("10/Oct/2023:13:55:36 +0000"));
    assert_eq!(entry.timestamp.text, "2023-10-10 13:55:36 +00:00");
}

#[test]
fn new_leaves_fields_it_does_not_read_empty() {
    let entry = LogEntry::new(&complete_record(), 0).unwrap();
    assert_eq!(entry.gzip, "");
    assert_eq!(entry.host, "");
    assert_eq!(entry.serverhost, "");
}

#[test]
fn new_gives_defaults_for_missing_fields() {
    let entry = LogEntry::new(&lines(&["something else"]), 5).unwrap();
    assert_eq!(entry.line, 5);
    assert_eq!(entry.agent, "");
    assert_eq!(entry.clientip, "");
    assert_eq!(entry.length, 0);
    assert_eq!(entry.method, "");
    assert_eq!(entry.request, "");
    assert_eq!(entry.referrer, "");
    assert_eq!(entry.schema, "");
    assert_eq!(entry.status, 0);
    assert_eq!(entry.timestamp, Timestamp::default());
}

#[test]
fn new_gives_defaults_for_fields_it_cannot_read() {
    let content = lines(&[
        "length: lots",
        "status: 70000",
        "timestamp: 2023-10-10T13:55:36Z",
        "request: /x",
    ]);
    let entry = LogEntry::new(&content, 0).unwrap();
    assert_eq!(entry.length, 0);
    assert_eq!(entry.status, 0);
    assert_eq!(entry.timestamp, Timestamp::default());
    assert_eq!(entry.request, "/x");
}

#[test]
fn new_reads_numbers_as_std_does() {
    let content = lines(&["length: +0042", "status: -1"]);
    let entry = LogEntry::new(&content, 0).unwrap();
    assert_eq!(entry.length, 42);
    assert_eq!(entry.status, 0);

    let content = lines(&["length: 18446744073709551615", "status: 65535"]);
    let entry = LogEntry::new(&content, 0).unwrap();
    assert_eq!(entry.length, u64::MAX);
    assert_eq!(entry.status, u16::MAX);

    let content = lines(&["length: 18446744073709551616", "status: 65536"]);
    let entry = LogEntry::new(&content, 0).unwrap();
    assert_eq!(entry.length, 0);
    assert_eq!(entry.status, 0);
}

#[test]
fn new_takes_the_last_of_repeated_keys() {
    let content = lines(&["request: /first", "method: GET", "request: /second"]);
    let entry = LogEntry::new(&content, 0).unwrap();
    assert_eq!(entry.request, "/second");
    assert_eq!(entry.method, "GET");
}

#[test]
fn new_ignores_unknown_keys_and_case() {
    let content = lines(&["Request: /upper", "requests: /plural", "pattern: whatever", "method: PUT"]);
    let entry = LogEntry::new(&content, 0).unwrap();
    assert_eq!(entry.request, "");
    assert_eq!(entry.method, "PUT");
}

#[test]
fn new_strips_quotes_from_the_agent_only() {
    let content = lines(&["agent: \"\"curl/8.0\"", "request: \"/quoted\"", "referrer: \"-\""]);
    let entry = LogEntry::new(&content, 0).unwrap();
    assert_eq!(entry.agent, "curl/8.0");
    assert_eq!(entry.request, "\"/quoted\"");
    assert_eq!(entry.referrer, "\"-\"");
}

#[test]
fn new_keeps_quotes_inside_the_agent() {
    let content = lines(&["agent: \"say \"hi\" twice\""]);
    let entry = LogEntry::new(&content, 0).unwrap();
    assert_eq!(entry.agent, "say \"hi\" twice");
}

#[test]
fn field_gives_the_text_of_every_parameter() {
    let entry = LogEntry::new(&complete_record(), 0).unwrap();
    assert_eq!(entry.field(LogParameter::Time), "2023-10-10 13:55:36 +00:00");
    assert_eq!(entry.field(LogParameter::Date), "2023-10-10");
    assert_eq!(entry.field(LogParameter::Agent), "Mozilla/5.0 (X11; Linux x86_64)");
    assert_eq!(entry.field(LogParameter::ClientIp), "203.0.113.7");
    assert_eq!(entry.field(LogParameter::Status), "200");
    assert_eq!(entry.field(LogParameter::Method), "GET");
    assert_eq!(entry.field(LogParameter::Schema), "https");
    assert_eq!(entry.field(LogParameter::Request), "/index.html?page=2");
    assert_eq!(entry.field(LogParameter::Referrer), "https://example.org/start");
}

#[test]
fn field_recovers_what_the_record_wrote() {
    let written = [
        (LogParameter::Agent, "agent", "Mozilla/5.0 (X11; Linux x86_64)"),
        (LogParameter::ClientIp, "clientip", "203.0.113.7"),
        (LogParameter::Status, "status", "200"),
        (LogParameter::Method, "method", "GET"),
        (LogParameter::Schema, "schema", "https"),
        (LogParameter::Request, "request", "/index.html?page=2"),
        (LogParameter::Referrer, "referrer", "https://example.org/start"),
    ];
    let entry = LogEntry::new(&complete_record(), 0).unwrap();
    for (parameter, key, value) in written {
        assert_eq!(entry.field(parameter), value, "{}", key);
    }
}

#[test]
fn field_of_a_blank_entry() {
    let entry = LogEntry::default();
    assert_eq!(entry.field(LogParameter::Time), "1970-01-01 00:00:00 +00:00");
    assert_eq!(entry.field(LogParameter::Date), "1970-01-01");
    assert_eq!(entry.field(LogParameter::Status), "0");
    assert_eq!(entry.field(LogParameter::Request), "");
}

#[test]
fn allow_without_parameter_lets_everything_pass() {
    let entry = LogEntry::new(&complete_record(), 0).unwrap();
    let nothing = "$^".to_string();
    let filter = Criteria::new(Some(&nothing), None);
    assert!(!filter.allow("anything"));
    assert!(entry.allow(&filter, None));
}

#[test]
fn allow_looks_at_the_named_field_only() {
    let entry = LogEntry::new(&complete_record(), 0).unwrap();
    let get = "^GET$".to_string();
    let filter = Criteria::new(Some(&get), None);
    assert!(entry.allow(&filter, Some(LogParameter::Method)));
    assert!(!entry.allow(&filter, Some(LogParameter::Request)));
    assert!(!entry.allow(&filter, Some(LogParameter::Agent)));
}

#[test]
fn allow_filters_on_each_parameter() {
    let entry = LogEntry::new(&complete_record(), 0).unwrap();
    let cases = [
        (LogParameter::Time, r"^2023-10-10 13:55:36 \+00:00$"),
        (LogParameter::Date, r"^2023-10-10$"),
        (LogParameter::Agent, r"^Mozilla/5\.0 \(X11; Linux x86_64\)$"),
        (LogParameter::ClientIp, r"^203\.0\.113\.7$"),
        (LogParameter::Status, r"^200$"),
        (LogParameter::Method, r"^GET$"),
        (LogParameter::Schema, r"^https$"),
        (LogParameter::Request, r"^/index\.html\?page=2$"),
        (LogParameter::Referrer, r"^https://example\.org/start$"),
    ];
    for (parameter, pattern) in cases {
        let pattern = pattern.to_string();
        let keep = Criteria::new(Some(&pattern), None);
        let drop = Criteria::new(None, Some(&pattern));
        assert!(entry.allow(&keep, Some(parameter)), "{:?}", parameter);
        assert!(!entry.allow(&drop, Some(parameter)), "{:?}", parameter);
    }
}
