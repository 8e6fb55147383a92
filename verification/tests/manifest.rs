use marmita::manifest::{format_vendor, parse_vendor, push_entry, Entry};
use marmita::order::{sort_entries, text_lt};

fn entry(file: &str, origin: &str, reference: Option<&str>, commit: &str, date: &str) -> Entry {
    Entry {
        file: file.to_string(),
        origin: origin.to_string(),
        reference: reference.map(|r| r.to_string()),
        commit: commit.to_string(),
        date: date.to_string(),
    }
}

fn fields(e: &Entry) -> (String, String, Option<String>, String, String) {
    (
        e.file.clone(),
        e.origin.clone(),
        e.reference.clone(),
        e.commit.clone(),
        e.date.clone(),
    )
}

const README_MANIFEST: &str = "jackson.rs\n\torigin:\tssh://ijanc@ijanc.org/json/jackson\n\tref:\tv1.3.0\n\tcommit:\ta4e84f6d2f21d8a5f28d17a38ed9968251325714\n\tdate:\t2026-04-18\n\nManaged by marmita(1).  Use 'marmita update' to refresh.\n";

#[test]
fn parse_readme_manifest() {
    let es = parse_vendor(README_MANIFEST).unwrap();
    assert_eq!(es.len(), 1);
    assert_eq!(
        fields(&es[0]),
        fields(&entry(
            "jackson.rs",
            "ssh://ijanc@ijanc.org/json/jackson",
            Some("v1.3.0"),
            "a4e84f6d2f21d8a5f28d17a38ed9968251325714",
            "2026-04-18"
        ))
    );
}

#[test]
fn format_readme_manifest() {
    let es = vec![entry(
        "jackson.rs",
        "ssh://ijanc@ijanc.org/json/jackson",
        Some("v1.3.0"),
        "a4e84f6d2f21d8a5f28d17a38ed9968251325714",
        "2026-04-18",
    )];
    assert_eq!(format_vendor(&es), README_MANIFEST);
}

#[test]
fn format_empty_manifest_is_trailer() {
    assert_eq!(
        format_vendor(&[]),
        "Managed by marmita(1).  Use 'marmita update' to refresh.\n"
    );
}

#[test]
fn format_without_reference() {
    let es = vec![entry("a.rs", "o", None, "c", "d")];
    assert_eq!(
        format_vendor(&es),
        "a.rs\n\torigin:\to\n\tcommit:\tc\n\tdate:\td\n\nManaged by marmita(1).  Use 'marmita update' to refresh.\n"
    );
}

#[test]
fn format_then_parse_gives_entries_back() {
    let es = vec![
        entry("b.rs", "https://x/b", None, "0123456789abcdef", "2026-01-02"),
        entry("a.rs", "ssh://h:22/a", Some("main"), "ffff", "2026-03-04"),
        entry("b.rs", "o: with colon", Some(""), "c", "d"),
    ];
    let text = format_vendor(&es);
    let back = parse_vendor(&text).unwrap();
    assert_eq!(back.len(), es.len());
    for (x, y) in back.iter().zip(es.iter()) {
        assert_eq!(fields(x), fields(y));
    }
}

#[test]
fn parse_empty_text() {
    assert_eq!(parse_vendor("").unwrap().len(), 0);
    assert_eq!(parse_vendor("\n\n  \n").unwrap().len(), 0);
}

#[test]
fn parse_spaces_around_values() {
    let es = parse_vendor("x.rs\n  origin :  o  \n\tcommit:c\n\tdate:  d\n").unwrap();
    assert_eq!(fields(&es[0]), fields(&entry("x.rs", "o", None, "c", "d")));
}

#[test]
fn parse_crlf_lines() {
    let es = parse_vendor("x.rs\r\n\torigin:\to\r\n\tcommit:\tc\r\n\tdate:\td\r\n\r\n").unwrap();
    assert_eq!(es.len(), 1);
    assert_eq!(fields(&es[0]), fields(&entry("x.rs", "o", None, "c", "d")));
}

#[test]
fn parse_header_ends_previous_entry() {
    let es = parse_vendor("a.rs\n\torigin:o\n\tcommit:c\n\tdate:d\nb.rs\n\torigin:p\n\tcommit:e\n\tdate:f\n").unwrap();
    assert_eq!(es.len(), 2);
    assert_eq!(es[0].file, "a.rs");
    assert_eq!(es[1].file, "b.rs");
    assert_eq!(es[1].origin, "p");
}

#[test]
fn parse_free_form_line_ends_manifest() {
    let es = parse_vendor("a.rs\n\torigin:o\n\tcommit:c\n\tdate:d\nsome prose here\n\tbogus line\n").unwrap();
    assert_eq!(es.len(), 1);
}

#[test]
fn parse_later_attribute_wins() {
    let es = parse_vendor("a.rs\n\torigin:o\n\torigin:p\n\tcommit:c\n\tdate:d\n").unwrap();
    assert_eq!(es[0].origin, "p");
}

#[test]
fn parse_error_expected_key_value() {
    assert_eq!(
        parse_vendor("a.rs\n\tbogus\n").unwrap_err(),
        "vendor/VENDOR:2: expected 'key: value'"
    );
}

#[test]
fn parse_error_attribute_outside_entry() {
    assert_eq!(
        parse_vendor("\torigin: x\n").unwrap_err(),
        "vendor/VENDOR:1: attribute outside entry"
    );
}

#[test]
fn parse_error_unknown_attribute() {
    assert_eq!(
        parse_vendor("a.rs\n\tcolor : red\n").unwrap_err(),
        "vendor/VENDOR:2: unknown attribute 'color'"
    );
}

#[test]
fn parse_error_missing_fields_at_blank_line() {
    assert_eq!(
        parse_vendor("a.rs\n\torigin: x\n\n").unwrap_err(),
        "vendor/VENDOR:3: entry 'a.rs' is missing origin/commit/date"
    );
}

#[test]
fn parse_error_missing_fields_at_end() {
    assert_eq!(
        parse_vendor("a.rs\n\torigin: x\n").unwrap_err(),
        "vendor/VENDOR:0: entry 'a.rs' is missing origin/commit/date"
    );
}

#[test]
fn parse_error_missing_fields_at_next_header() {
    assert_eq!(
        parse_vendor("a.rs\n\torigin: x\nb.rs\n").unwrap_err(),
        "vendor/VENDOR:3: entry 'a.rs' is missing origin/commit/date"
    );
}

#[test]
fn push_entry_checks_fields() {
    let mut out = Vec::new();
    assert!(push_entry(&mut out, entry("a.rs", "o", None, "c", "d"), 4).is_ok());
    assert_eq!(out.len(), 1);
    assert_eq!(
        push_entry(&mut out, entry("b.rs", "o", None, "", "d"), 7).unwrap_err(),
        "vendor/VENDOR:7: entry 'b.rs' is missing origin/commit/date"
    );
    assert_eq!(out.len(), 1);
}

#[test]
fn sort_by_file_keeps_equal_names_in_order() {
    let mut es = vec![
        entry("c.rs", "1", None, "c", "d"),
        entry("a.rs", "2", None, "c", "d"),
        entry("c.rs", "3", None, "c", "d"),
        entry("B.rs", "4", None, "c", "d"),
        entry("a.rs", "5", None, "c", "d"),
    ];
    sort_entries(&mut es);
    let got: Vec<(String, String)> = es.iter().map(|e| (e.file.clone(), e.origin.clone())).collect();
    let want: Vec<(String, String)> = vec![
        ("B.rs", "4"),
        ("a.rs", "2"),
        ("a.rs", "5"),
        ("c.rs", "1"),
        ("c.rs", "3"),
    ]
    .into_iter()
    .map(|(a, b)| (a.to_string(), b.to_string()))
    .collect();
    assert_eq!(got, want);
}

#[test]
fn text_order_is_str_order() {
    let words = ["", "a", "ab", "b", "B", "é", "z", "aa", "a b"];
    for x in words.iter() {
        for y in words.iter() {
            assert_eq!(text_lt(&x.to_string(), &y.to_string()), x < y);
        }
    }
}

#[test]
fn reread_manifest_is_stable() {
    let text = "b.rs\n   origin :  x  \n\tcommit: c \n\tdate:d\n\tref: r1\n\na.rs\n\torigin:o\n\tcommit:c\n\tdate:d\nclosing words\n";
    let first = parse_vendor(text).unwrap();
    let again = parse_vendor(&format_vendor(&first)).unwrap();
    assert_eq!(first.len(), 2);
    assert_eq!(again.len(), 2);
    for (x, y) in first.iter().zip(again.iter()) {
        assert_eq!(fields(x), fields(y));
    }
}

#[test]
fn render_sorts_then_formats() {
    let mut es = vec![
        entry("z.rs", "o", None, "c", "d"),
        entry("a.rs", "o", None, "c", "d"),
    ];
    let text = marmita::order::render_manifest(&mut es);
    assert_eq!(es[0].file, "a.rs");
    assert_eq!(text, format_vendor(&es));
    assert!(text.starts_with("a.rs\n"));
}

#[test]
fn text_after_written_manifest_is_ignored() {
    let es = vec![entry("a.rs", "o", None, "c", "d")];
    let text = format_vendor(&es);
    for tail in ["", "junk\n", "\tbogus\n", "b.rs\n\torigin: x\n"] {
        let read = parse_vendor(&(text.clone() + tail)).unwrap();
        assert_eq!(read.len(), 1);
        assert_eq!(fields(&read[0]), fields(&es[0]));
    }
}
