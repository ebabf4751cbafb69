use virtual_branches::{FileOwnership, Hunk, HunkError, Ownership};

fn h(start: usize, end: usize) -> Hunk {
    Hunk::new(start, end, None).unwrap()
}

#[test]
fn hunk_with_reversed_range_is_refused() {
    assert_eq!(Hunk::new(5, 1, None), Err(HunkError::InvalidRange));
    assert_eq!(Hunk::new(3, 3, Some(7)), Ok(Hunk { start: 3, end: 3, hash: Some(7) }));
}

#[test]
fn overlapping_hunk_replaces_the_earlier_one() {
    let mut f = FileOwnership::new("src/main.rs".to_string());
    f.add(h(1, 5));
    f.add(h(3, 8));
    assert_eq!(f.hunks, vec![h(3, 8)]);
}

#[test]
fn insertions_stay_sorted_and_disjoint() {
    let mut f = FileOwnership::new("a.txt".to_string());
    for (s, e) in [(20, 25), (1, 2), (10, 12), (4, 6), (11, 21), (30, 30), (3, 3)] {
        f.add(h(s, e));
    }
    assert_eq!(f.hunks, vec![h(1, 2), h(3, 3), h(4, 6), h(11, 21), h(30, 30)]);
    for w in f.hunks.windows(2) {
        assert!(w[0].end < w[1].start);
    }
}

#[test]
fn adjacent_hunks_that_share_a_line_overlap() {
    let mut f = FileOwnership::new("a.txt".to_string());
    f.add(h(1, 5));
    f.add(h(5, 9));
    assert_eq!(f.hunks, vec![h(5, 9)]);
    f.add(h(10, 12));
    assert_eq!(f.hunks, vec![h(5, 9), h(10, 12)]);
}

#[test]
fn ownership_text_round_trip() {
    let text = "src/a.rs:1-5,10-12\nb.txt:3-4-99";
    let o = Ownership::parse(text).unwrap();
    assert_eq!(o.files.len(), 2);
    assert_eq!(o.files[0].file_path, "src/a.rs");
    assert_eq!(o.files[0].hunks, vec![h(1, 5), h(10, 12)]);
    assert_eq!(o.files[1].hunks, vec![Hunk { start: 3, end: 4, hash: Some(99) }]);
    assert_eq!(o.to_text(), text);
    let again = Ownership::parse(&o.to_text()).unwrap();
    assert_eq!(again.to_text(), text);
}

#[test]
fn empty_text_is_empty_ownership() {
    let o = Ownership::parse("").unwrap();
    assert!(o.files.is_empty());
    assert_eq!(o.to_text(), "");
}

#[test]
fn file_without_hunks_round_trips() {
    let o = Ownership::parse("a.rs:").unwrap();
    assert_eq!(o.files[0].hunks.len(), 0);
    assert_eq!(o.to_text(), "a.rs:");
}

#[test]
fn malformed_ownership_text_is_refused() {
    for bad in ["nocolon", "a.rs:1-x", "a.rs:5-1", "a.rs:1-5,3-8", "a.rs:1-2\na.rs:4-5", ":1-2", "a.rs:1-2,", "a:b:1-2", "a.rs:1"] {
        let e = Ownership::parse(bad).unwrap_err();
        assert!(!e.fragment.is_empty() || bad.is_empty(), "{}", bad);
    }
    let e = Ownership::parse("ok.rs:1-2\nbad.rs:9-3").unwrap_err();
    assert_eq!(e.fragment, "bad.rs:9-3");
}

#[test]
fn add_and_take_by_path() {
    let mut o = Ownership::new();
    o.add(&"a.rs".to_string(), h(1, 5));
    o.add(&"b.rs".to_string(), h(2, 2));
    o.add(&"a.rs".to_string(), h(3, 8));
    assert_eq!(o.to_text(), "a.rs:3-8\nb.rs:2-2");
    let t = o.take(&"a.rs".to_string());
    assert_eq!(t.file_path, "a.rs");
    assert_eq!(t.hunks, vec![h(3, 8)]);
    assert_eq!(o.to_text(), "b.rs:2-2");
    let none = o.take(&"zzz".to_string());
    assert_eq!(none.file_path, "zzz");
    assert!(none.hunks.is_empty());
    assert_eq!(o.to_text(), "b.rs:2-2");
}

#[test]
fn largest_numbers_round_trip() {
    let text = format!("f:0-{}-{}", usize::MAX, u128::MAX);
    let o = Ownership::parse(&text).unwrap();
    assert_eq!(o.files[0].hunks, vec![Hunk { start: 0, end: usize::MAX, hash: Some(u128::MAX) }]);
    assert_eq!(o.to_text(), text);
    let over = format!("f:0-{}0", usize::MAX);
    assert!(Ownership::parse(&over).is_err());
}

#[test]
fn well_formedness_of_hand_built_ownership() {
    let good = Ownership { files: vec![FileOwnership { file_path: "a.rs".to_string(), hunks: vec![h(1, 2), h(4, 5)] }] };
    assert!(good.is_well_formed());
    let unsorted = Ownership { files: vec![FileOwnership { file_path: "a.rs".to_string(), hunks: vec![h(4, 5), h(1, 2)] }] };
    assert!(!unsorted.is_well_formed());
    let reversed = Ownership { files: vec![FileOwnership { file_path: "a.rs".to_string(), hunks: vec![Hunk { start: 3, end: 1, hash: None }] }] };
    assert!(!reversed.is_well_formed());
    let twice = Ownership {
        files: vec![
            FileOwnership { file_path: "a.rs".to_string(), hunks: vec![] },
            FileOwnership { file_path: "a.rs".to_string(), hunks: vec![] },
        ],
    };
    assert!(!twice.is_well_formed());
    let colon = Ownership { files: vec![FileOwnership { file_path: "c:d".to_string(), hunks: vec![] }] };
    assert!(!colon.is_well_formed());
}

#[test]
fn hunks_intersect_when_they_share_a_line() {
    assert!(h(1, 5).intersects(&h(5, 9)));
    assert!(h(3, 4).intersects(&h(1, 10)));
    assert!(!h(1, 4).intersects(&h(5, 9)));
    assert!(!h(6, 9).intersects(&h(1, 5)));
}
