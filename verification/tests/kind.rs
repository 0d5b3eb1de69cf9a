use aus_vs_hound::kind::BenchKind;

const ALL: [BenchKind; 4] =
    [BenchKind::Read, BenchKind::Write, BenchKind::StreamedRead, BenchKind::StreamedWrite];

#[test]
fn labels() {
    let labels: Vec<&str> = ALL.iter().map(|k| k.label()).collect();
    assert_eq!(labels, vec!["Read", "Write", "Streamed Read", "Streamed Write"]);
}

#[test]
fn slugs() {
    let slugs: Vec<&str> = ALL.iter().map(|k| k.slug()).collect();
    assert_eq!(slugs, vec!["read", "write", "streamed-read", "streamed-write"]);
}

#[test]
fn shorts_are_seven_characters() {
    let shorts: Vec<&str> = ALL.iter().map(|k| k.short()).collect();
    assert_eq!(shorts, vec!["read   ", "write  ", "s-read ", "s-write"]);
    assert!(shorts.iter().all(|s| s.chars().count() == 7));
}

#[test]
fn slug_names_its_kind() {
    for k in ALL {
        assert_eq!(BenchKind::from_name(k.slug()), Some(k));
    }
}

#[test]
fn other_names_name_no_kind() {
    assert_eq!(BenchKind::from_name("Read"), None);
    assert_eq!(BenchKind::from_name(" read"), None);
    assert_eq!(BenchKind::from_name(""), None);
    assert_eq!(BenchKind::from_name("s-read"), None);
}
