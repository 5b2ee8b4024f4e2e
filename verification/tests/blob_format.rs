use fileagg::blob::{combine_records, parse_blob};
use fileagg::plan::{plan_writes, safe_records};
use fileagg::records::FileRecord;

fn rec(path: &str, content: &str) -> FileRecord {
    FileRecord { path: path.as_bytes().to_vec(), content: content.as_bytes().to_vec() }
}

fn assert_records_eq(got: &[FileRecord], want: &[(&str, &str)]) {
    assert_eq!(got.len(), want.len());
    for (g, (p, c)) in got.iter().zip(want.iter()) {
        assert_eq!(g.path, p.as_bytes().to_vec());
        assert_eq!(g.content, c.as_bytes().to_vec());
    }
}

#[test]
fn combine_two_records() {
    let records = vec![rec("a.txt", "hello"), rec("sub/b.txt", "world")];
    let blob = combine_records(&records).unwrap();
    assert_eq!(blob, b"//a.txt\nhello\n//sub/b.txt\nworld\n".to_vec());
}

#[test]
fn combine_empty_is_no_content() {
    let records: Vec<FileRecord> = Vec::new();
    assert!(combine_records(&records).is_none());
}

#[test]
fn parse_two_records() {
    let blob = b"//a.txt\nhello\n//sub/b.txt\nworld\n".to_vec();
    let parsed = parse_blob(&blob);
    assert_records_eq(&parsed, &[("a.txt", "hello"), ("sub/b.txt", "world")]);
}

#[test]
fn round_trip_preserves_records() {
    let records = vec![
        rec("a.txt", "hello"),
        rec("sub/b.txt", "two lines\nsecond"),
        rec("c.md", ""),
        rec("d.txt", "ends with newline\n"),
        rec("e.txt", "slashes // inside a line"),
    ];
    let blob = combine_records(&records).unwrap();
    let parsed = parse_blob(&blob);
    assert_eq!(parsed.len(), records.len());
    for (p, r) in parsed.iter().zip(records.iter()) {
        assert_eq!(p.path, r.path);
        assert_eq!(p.content, r.content);
    }
}

#[test]
fn parse_without_marker_yields_nothing() {
    let blob = b"plain text, no header line at all\n".to_vec();
    assert!(parse_blob(&blob).is_empty());
}

#[test]
fn parse_empty_blob_yields_nothing() {
    let blob: Vec<u8> = Vec::new();
    assert!(parse_blob(&blob).is_empty());
}

#[test]
fn parse_with_content_before_first_header_yields_nothing() {
    let blob = b"junk\n//a.txt\nhello\n".to_vec();
    assert!(parse_blob(&blob).is_empty());
}

#[test]
fn parse_unterminated_header_line() {
    let blob = b"//just-a-name".to_vec();
    let parsed = parse_blob(&blob);
    assert_records_eq(&parsed, &[("just-a-name", "")]);
}

#[test]
fn parse_keeps_trailing_newline_of_content() {
    let blob = b"//a.txt\nline\n\n".to_vec();
    let parsed = parse_blob(&blob);
    assert_records_eq(&parsed, &[("a.txt", "line\n")]);
}

#[test]
fn plan_drops_escaping_record() {
    let records = vec![rec("../../etc/passwd", "pwned"), rec("ok.txt", "fine")];
    let blob = combine_records(&records).unwrap();
    let plan = plan_writes(&blob);
    assert_records_eq(&plan, &[("ok.txt", "fine")]);
}

#[test]
fn plan_of_malformed_blob_is_empty() {
    let blob = b"nothing to see here".to_vec();
    assert!(plan_writes(&blob).is_empty());
}

#[test]
fn safe_records_drops_absolute_path() {
    let records = vec![rec("/etc/passwd", "x"), rec("a/b.txt", "y")];
    let kept = safe_records(&records);
    assert_records_eq(&kept, &[("a/b.txt", "y")]);
}

#[test]
fn distribute_twice_gives_same_contents() {
    let records = vec![rec("a.txt", "one"), rec("b.txt", "two"), rec("a.txt", "three")];
    let blob = combine_records(&records).unwrap();
    let mut tree = std::collections::HashMap::new();
    for pass in 0..2 {
        let plan = plan_writes(&blob);
        for r in plan {
            tree.insert(r.path, r.content);
        }
        if pass == 0 {
            let first = tree.clone();
            let plan2 = plan_writes(&blob);
            for r in plan2 {
                tree.insert(r.path, r.content);
            }
            assert_eq!(tree, first);
        }
    }
    assert_eq!(tree.get(&b"a.txt".to_vec()), Some(&b"three".to_vec()));
    assert_eq!(tree.get(&b"b.txt".to_vec()), Some(&b"two".to_vec()));
}
