use npma::convert;
use npma::filter::Criteria;
use npma::LogParameter;

const SENTINEL: &str = "pattern: NGINXPROXYACCESS";

fn lines(text: &[&str]) -> Vec<String> {
    text.iter().map(|line| line.to_string()).collect()
}

fn unfiltered(text: &[&str]) -> Vec<(u64, String)> {
    convert(&lines(text), &Criteria::new(None, None), None)
        .into_iter()
        .map(|entry| (entry.line, entry.request))
        .collect()
}

fn numbered(entries: &[(u64, &str)]) -> Vec<(u64, String)> {
    entries.iter().map(|(line, request)| (*line, request.to_string())).collect()
}

#[test]
fn two_records_give_two_entries_in_order() {
    let input = lines(&["key1: \"a\"", SENTINEL, "key2: \"b\"", SENTINEL]);
    let entries = convert(&input, &Criteria::new(None, None), None);
    assert_eq!(entries.len(), 2);
    assert_eq!(entries[0].line, 0);
    assert_eq!(entries[1].line, 1);
}

#[test]
fn no_lines_give_no_entries() {
    assert!(convert(&[], &Criteria::new(None, None), None).is_empty());
    let pattern = "x".to_string();
    let filter = Criteria::new(Some(&pattern), Some(&pattern));
    assert!(convert(&[], &filter, Some(LogParameter::Request)).is_empty());
}

#[test]
fn trailing_record_without_sentinel_gives_an_entry() {
    assert_eq!(
        unfiltered(&["request: /a", SENTINEL, "request: /b"]),
        numbered(&[(0, "/a"), (1, "/b")])
    );
    assert_eq!(unfiltered(&["request: /only"]), numbered(&[(0, "/only")]));
}

#[test]
fn closing_sentinel_at_the_end_changes_nothing() {
    let open = unfiltered(&["request: /a", SENTINEL, "request: /b"]);
    let closed = unfiltered(&["request: /a", SENTINEL, "request: /b", SENTINEL]);
    assert_eq!(open, closed);
}

#[test]
fn empty_records_are_counted_but_give_nothing() {
    assert_eq!(unfiltered(&[SENTINEL]), numbered(&[]));
    assert_eq!(unfiltered(&[SENTINEL, SENTINEL, SENTINEL]), numbered(&[]));
    assert_eq!(
        unfiltered(&[SENTINEL, "request: /a", SENTINEL, SENTINEL, "request: /b"]),
        numbered(&[(1, "/a"), (3, "/b")])
    );
}

#[test]
fn sentinel_is_found_anywhere_in_a_line() {
    assert_eq!(
        unfiltered(&[
            "request: /a",
            "  some pattern: NGINXPROXYACCESS tail",
            "request: /b",
            "xpattern: NGINXPROXYACCESSx",
        ]),
        numbered(&[(0, "/a"), (1, "/b")])
    );
}

#[test]
fn sentinel_is_taken_as_it_is_written() {
    // Neither of these lines ends a record, so all go into one record.
    assert_eq!(
        unfiltered(&[
            "request: /a",
            "pattern: nginxproxyaccess",
            "pattern:NGINXPROXYACCESS",
            "pattern:  NGINXPROXYACCESS",
            "request: /b",
        ]),
        numbered(&[(0, "/b")])
    );
}

#[test]
fn sentinel_line_is_not_part_of_a_record() {
    let input = lines(&["request: /a pattern: NGINXPROXYACCESS", "method: GET"]);
    let entries = convert(&input, &Criteria::new(None, None), None);
    assert_eq!(entries.len(), 1);
    assert_eq!(entries[0].line, 1);
    assert_eq!(entries[0].request, "");
    assert_eq!(entries[0].method, "GET");
}

#[test]
fn lines_that_stop_at_the_separator_are_dropped() {
    // The second `request` line has no value, so it does not overwrite the first.
    assert_eq!(
        unfiltered(&["request: /kept", "request:", "referrer::", SENTINEL]),
        numbered(&[(0, "/kept")])
    );
    // A record made of such lines alone is empty.
    assert_eq!(
        unfiltered(&["request:", SENTINEL, "request: /next", SENTINEL]),
        numbered(&[(1, "/next")])
    );
    // A blank after the separator makes the line count.
    assert_eq!(unfiltered(&["request: /a", "request: ", SENTINEL]), numbered(&[(0, "")]));
}

#[test]
fn record_fields_come_from_its_own_lines_only() {
    let input = lines(&[
        "request: /first",
        "method: GET",
        "status: 200",
        SENTINEL,
        "request: /second",
        SENTINEL,
    ]);
    let entries = convert(&input, &Criteria::new(None, None), None);
    assert_eq!(entries.len(), 2);
    assert_eq!(entries[0].request, "/first");
    assert_eq!(entries[0].method, "GET");
    assert_eq!(entries[0].status, 200);
    assert_eq!(entries[1].request, "/second");
    assert_eq!(entries[1].method, "");
    assert_eq!(entries[1].status, 0);
}

#[test]
fn filter_drops_entries_but_keeps_their_numbers() {
    let input = lines(&[
        "request: /api/a",
        "status: 200",
        SENTINEL,
        "request: /static/b",
        "status: 404",
        SENTINEL,
        "request: /api/c",
        "status: 500",
        SENTINEL,
        "request: /api/d",
        "status: 404",
    ]);
    let api = "^/api/".to_string();
    let not_found = "404".to_string();

    let kept = convert(&input, &Criteria::new(Some(&api), None), Some(LogParameter::Request));
    let numbers: Vec<u64> = kept.iter().map(|entry| entry.line).collect();
    assert_eq!(numbers, vec![0, 2, 3]);

    let kept = convert(&input, &Criteria::new(None, Some(&not_found)), Some(LogParameter::Status));
    let numbers: Vec<u64> = kept.iter().map(|entry| entry.line).collect();
    assert_eq!(numbers, vec![0, 2]);

    // Without a parameter the patterns are not looked at.
    let kept = convert(&input, &Criteria::new(Some(&api), Some(&api)), None);
    assert_eq!(kept.len(), 4);
}

#[test]
fn filter_on_the_date_of_a_record() {
    let input = lines(&[
        "timestamp: 10/Oct/2023:13:55:36 +0000",
        SENTINEL,
        "timestamp: 11/Oct/2023:00:00:01 +0000",
        SENTINEL,
        "timestamp: not a time",
        SENTINEL,
    ]);
    let day = "^2023-10-11$".to_string();
    let kept = convert(&input, &Criteria::new(Some(&day), None), Some(LogParameter::Date));
    assert_eq!(kept.len(), 1);
    assert_eq!(kept[0].line, 1);

    let epoch = "^1970-01-01 00:00:00".to_string();
    let kept = convert(&input, &Criteria::new(Some(&epoch), None), Some(LogParameter::Time));
    assert_eq!(kept.len(), 1);
    assert_eq!(kept[0].line, 2);
}
