use virtual_branches::{
    Branch, BranchCreateRequest, BranchId, BranchUpdateRequest, Cause, Content, Entry, Field, Hunk,
    LoadError, Oid, Ownership, Reader, RemoteRefname,
};

const ID: &str = "67e55044-10b1-426f-9247-bb680e5fe0c8";
const TREE: &str = "0123456789abcdef0123456789abcdef01234567";
const HEAD: &str = "89abcdef0123456789abcdef0123456789abcdef";

fn text(key: &str, value: &str) -> Entry {
    Entry { key: key.to_string(), value: Content::Utf8(value.to_string()) }
}

fn mandatory() -> Vec<Entry> {
    vec![
        text("id", ID),
        text("meta/name", "my branch"),
        text("meta/tree", TREE),
        text("meta/head", HEAD),
        text("meta/created_timestamp_ms", "1000"),
        text("meta/updated_timestamp_ms", "2000"),
        text("meta/ownership", "a.rs:1-5"),
    ]
}

fn without(key: &str) -> Vec<Entry> {
    mandatory().into_iter().filter(|e| e.key != key).collect()
}

fn with(key: &str, value: Content) -> Vec<Entry> {
    let mut es = without(key);
    es.push(Entry { key: key.to_string(), value });
    es
}

fn load(es: Vec<Entry>) -> Result<Branch, LoadError> {
    Branch::load(&Reader::new(es))
}

fn full_branch() -> Branch {
    let mut ownership = Ownership::new();
    ownership.add(&"src/lib.rs".to_string(), Hunk::new(1, 5, Some(42)).unwrap());
    ownership.add(&"README.md".to_string(), Hunk::new(7, 9, None).unwrap());
    Branch {
        id: BranchId::parse(ID).unwrap(),
        name: "feature: x".to_string(),
        notes: "some notes".to_string(),
        applied: true,
        upstream: RemoteRefname::parse("refs/remotes/origin/feature-x"),
        upstream_head: Oid::parse(HEAD),
        created_timestamp_ms: 1_700_000_000_000,
        updated_timestamp_ms: 1_700_000_000_123,
        tree: Oid::parse(TREE).unwrap(),
        head: Oid::parse(HEAD).unwrap(),
        ownership,
        order: 3,
    }
}

fn assert_same(a: &Branch, b: &Branch) {
    assert_eq!(a.id.bytes, b.id.bytes);
    assert_eq!(a.name, b.name);
    assert_eq!(a.notes, b.notes);
    assert_eq!(a.applied, b.applied);
    assert_eq!(a.upstream.as_ref().map(|u| u.to_text()), b.upstream.as_ref().map(|u| u.to_text()));
    assert_eq!(a.upstream_head.as_ref().map(|o| o.to_text()), b.upstream_head.as_ref().map(|o| o.to_text()));
    assert_eq!(a.created_timestamp_ms, b.created_timestamp_ms);
    assert_eq!(a.updated_timestamp_ms, b.updated_timestamp_ms);
    assert_eq!(a.tree.bytes, b.tree.bytes);
    assert_eq!(a.head.bytes, b.head.bytes);
    assert_eq!(a.ownership.to_text(), b.ownership.to_text());
    assert_eq!(a.order, b.order);
}

#[test]
fn store_then_load_gives_the_same_branch() {
    let b = full_branch();
    let loaded = load(b.store()).unwrap();
    assert_same(&b, &loaded);
}

#[test]
fn store_writes_each_field_under_its_key() {
    let es = full_branch().store();
    let find = |k: &str| match &es.iter().find(|e| e.key == k).unwrap().value {
        Content::Utf8(s) => s.clone(),
        Content::Binary(_) => panic!("binary"),
    };
    assert_eq!(find("id"), ID);
    assert_eq!(find("meta/applied"), "true");
    assert_eq!(find("meta/order"), "3");
    assert_eq!(find("meta/created_timestamp_ms"), "1700000000000");
    assert_eq!(find("meta/upstream"), "refs/remotes/origin/feature-x");
    assert_eq!(find("meta/upstream_head"), HEAD);
    assert_eq!(find("meta/ownership"), "src/lib.rs:1-5-42\nREADME.md:7-9");
    assert_eq!(es.len(), 12);
}

#[test]
fn optional_fields_default_when_missing() {
    let b = load(mandatory()).unwrap();
    assert_eq!(b.notes, "");
    assert!(!b.applied);
    assert_eq!(b.order, 0);
    assert!(b.upstream.is_none());
    assert!(b.upstream_head.is_none());
    assert_eq!(b.name, "my branch");
    assert_eq!(b.created_timestamp_ms, 1000);
    assert_eq!(b.updated_timestamp_ms, 2000);
}

#[test]
fn missing_mandatory_fields_fail_by_name() {
    let cases = [
        ("id", Field::Id),
        ("meta/name", Field::Name),
        ("meta/tree", Field::Tree),
        ("meta/head", Field::Head),
        ("meta/created_timestamp_ms", Field::CreatedTimestamp),
        ("meta/updated_timestamp_ms", Field::UpdatedTimestamp),
        ("meta/ownership", Field::Ownership),
    ];
    for (key, field) in cases {
        let e = load(without(key)).unwrap_err();
        assert_eq!(e, LoadError::NotFound(field));
        assert_eq!(e.key(), key);
    }
}

#[test]
fn malformed_tree_fails_as_invalid() {
    let e = load(with("meta/tree", Content::Utf8("not an oid".to_string()))).unwrap_err();
    assert_eq!(e, LoadError::Invalid(Field::Tree, Cause::MalformedOid));
    assert_eq!(e.key(), "meta/tree");
}

#[test]
fn malformed_id_fails_naming_the_id_key() {
    let e = load(with("id", Content::Utf8("not-a-uuid".to_string()))).unwrap_err();
    assert_eq!(e, LoadError::Invalid(Field::Id, Cause::MalformedIdentifier));
    assert_eq!(e.key(), "id");
}

#[test]
fn binary_content_in_text_fields() {
    let bin = || Content::Binary(vec![1, 2, 3]);
    assert_eq!(load(with("meta/name", bin())).unwrap_err(), LoadError::Invalid(Field::Name, Cause::NotText));
    let mut es = mandatory();
    es.push(Entry { key: "meta/notes".to_string(), value: bin() });
    assert_eq!(load(es).unwrap_err(), LoadError::Invalid(Field::Notes, Cause::NotText));
    let mut es = mandatory();
    es.push(Entry { key: "meta/order".to_string(), value: bin() });
    assert_eq!(load(es).unwrap_err(), LoadError::Invalid(Field::Order, Cause::NotText));
}

#[test]
fn applied_is_lenient() {
    for (value, expected) in [
        (Content::Utf8("true".to_string()), true),
        (Content::Utf8("false".to_string()), false),
        (Content::Utf8("yes".to_string()), false),
        (Content::Binary(vec![1]), false),
    ] {
        let mut es = mandatory();
        es.push(Entry { key: "meta/applied".to_string(), value });
        assert_eq!(load(es).unwrap().applied, expected);
    }
}

#[test]
fn malformed_order_and_timestamps_fail() {
    let mut es = mandatory();
    es.push(text("meta/order", "abc"));
    assert_eq!(load(es).unwrap_err(), LoadError::Invalid(Field::Order, Cause::MalformedNumber));
    let mut es = mandatory();
    es.push(text("meta/order", "17"));
    assert_eq!(load(es).unwrap().order, 17);
    let e = load(with("meta/created_timestamp_ms", Content::Utf8("-1".to_string()))).unwrap_err();
    assert_eq!(e, LoadError::Invalid(Field::CreatedTimestamp, Cause::MalformedNumber));
    let e = load(with("meta/ownership", Content::Utf8("garbage".to_string()))).unwrap_err();
    assert_eq!(e, LoadError::Invalid(Field::Ownership, Cause::MalformedOwnership));
}

#[test]
fn empty_upstream_loads_as_unset() {
    let mut es = mandatory();
    es.push(text("meta/upstream", ""));
    assert!(load(es).unwrap().upstream.is_none());
}

#[test]
fn upstream_fields_tri_state() {
    let mut es = mandatory();
    es.push(Entry { key: "meta/upstream".to_string(), value: Content::Binary(vec![0]) });
    es.push(Entry { key: "meta/upstream_head".to_string(), value: Content::Binary(vec![0]) });
    let b = load(es).unwrap();
    assert!(b.upstream.is_none());
    assert!(b.upstream_head.is_none());
    let mut es = mandatory();
    es.push(text("meta/upstream", "origin/main"));
    assert_eq!(load(es).unwrap_err(), LoadError::Invalid(Field::Upstream, Cause::MalformedRefname));
    let mut es = mandatory();
    es.push(text("meta/upstream_head", "xyz"));
    assert_eq!(load(es).unwrap_err(), LoadError::Invalid(Field::UpstreamHead, Cause::MalformedOid));
    let mut es = mandatory();
    es.push(text("meta/upstream", "refs/remotes/origin/main"));
    let u = load(es).unwrap().upstream.unwrap();
    assert_eq!((u.remote.as_str(), u.branch.as_str()), ("origin", "main"));
}

#[test]
fn first_failing_field_is_reported() {
    let mut es = without("meta/tree");
    es.retain(|e| e.key != "meta/name");
    assert_eq!(load(es).unwrap_err(), LoadError::NotFound(Field::Name));
}

fn created() -> Branch {
    let req = BranchCreateRequest { name: None, ownership: None, order: None };
    Branch::from_create_request(
        req,
        BranchId::parse(ID).unwrap(),
        Oid::parse(TREE).unwrap(),
        Oid::parse(HEAD).unwrap(),
        5000,
        "Virtual branch".to_string(),
        0,
    )
}

#[test]
fn created_branch_round_trips_with_defaults() {
    let b = created();
    let loaded = load(b.store()).unwrap();
    assert!(!loaded.applied);
    assert_eq!(loaded.order, 0);
    assert_eq!(loaded.notes, "");
    assert!(loaded.upstream.is_none());
    assert_eq!(loaded.name, "Virtual branch");
    assert_eq!(loaded.created_timestamp_ms, 5000);
    assert_eq!(loaded.updated_timestamp_ms, 5000);
    assert_eq!(loaded.ownership.to_text(), "");
}

#[test]
fn create_request_fields_are_used() {
    let req = BranchCreateRequest {
        name: Some("mine".to_string()),
        ownership: Some(Ownership::parse("x.rs:2-3").unwrap()),
        order: Some(4),
    };
    let b = Branch::from_create_request(
        req,
        BranchId::parse(ID).unwrap(),
        Oid::parse(TREE).unwrap(),
        Oid::parse(HEAD).unwrap(),
        1,
        "default".to_string(),
        9,
    );
    assert_eq!(b.name, "mine");
    assert_eq!(b.order, 4);
    assert_eq!(b.ownership.to_text(), "x.rs:2-3");
}

fn update(name: Option<&str>, upstream: Option<&str>) -> BranchUpdateRequest {
    BranchUpdateRequest {
        id: BranchId::parse(ID).unwrap(),
        name: name.map(|n| n.to_string()),
        notes: None,
        ownership: None,
        order: None,
        upstream: upstream.map(|u| u.to_string()),
    }
}

#[test]
fn update_changes_only_what_it_names() {
    let before = load(full_branch().store()).unwrap();
    let mut b = load(full_branch().store()).unwrap();
    b.apply_update(update(Some("x"), None), &"origin".to_string(), 1_800_000_000_000).unwrap();
    let stored = load(b.store()).unwrap();
    assert_eq!(stored.name, "x");
    assert_eq!(stored.updated_timestamp_ms, 1_800_000_000_000);
    let mut expected = before;
    expected.name = "x".to_string();
    expected.updated_timestamp_ms = 1_800_000_000_000;
    assert_same(&expected, &stored);
}

#[test]
fn update_qualifies_the_upstream_name() {
    let mut b = created();
    b.apply_update(update(None, Some("feature/y")), &"origin".to_string(), 6000).unwrap();
    assert_eq!(b.upstream.as_ref().unwrap().to_text(), "refs/remotes/origin/feature/y");
    assert_eq!(b.updated_timestamp_ms, 6000);
    let loaded = load(b.store()).unwrap();
    assert_eq!(loaded.upstream.unwrap().branch, "feature/y");
}

#[test]
fn update_with_invalid_upstream_changes_nothing() {
    let mut b = created();
    let e = b.apply_update(update(Some("z"), Some("")), &"origin".to_string(), 6000).unwrap_err();
    assert_eq!(e, LoadError::Invalid(Field::Upstream, Cause::MalformedRefname));
    assert_eq!(b.name, "Virtual branch");
    assert_eq!(b.updated_timestamp_ms, 5000);
    let e = b.apply_update(update(None, Some("main")), &"a/b".to_string(), 6000).unwrap_err();
    assert_eq!(e, LoadError::Invalid(Field::Upstream, Cause::MalformedRefname));
}

#[test]
fn refname_normalizes_the_name() {
    let mut b = created();
    assert_eq!(b.refname().to_text(), "refs/gitbutler/Virtual-branch");
    b.name = "feat: add  stuff!/v1.2_x".to_string();
    assert_eq!(b.refname().branch, "feat-add-stuff-/v1.2_x");
    b.name = "ok/name_1.0".to_string();
    assert_eq!(b.refname().to_text(), "refs/gitbutler/ok/name_1.0");
}

#[test]
fn reader_finds_the_first_entry_of_a_key() {
    let r = Reader::new(vec![text("k", "one"), text("k", "two")]);
    match r.read("k") {
        Some(Content::Utf8(s)) => assert_eq!(s, "one"),
        _ => panic!("not found"),
    }
    assert!(r.read("other").is_none());
}

#[test]
fn well_formedness_of_branches() {
    assert!(full_branch().is_well_formed());
    let mut b = full_branch();
    b.tree = Oid { bytes: vec![0; 19] };
    assert!(!b.is_well_formed());
    let mut b = full_branch();
    b.upstream = Some(RemoteRefname { remote: "a/b".to_string(), branch: "main".to_string() });
    assert!(!b.is_well_formed());
    let mut b = full_branch();
    b.id = BranchId { bytes: vec![] };
    assert!(!b.is_well_formed());
}

#[test]
fn refname_of_edge_names() {
    let mut b = created();
    b.name = String::new();
    assert_eq!(b.refname().to_text(), "refs/gitbutler/");
    b.name = "  lead".to_string();
    assert_eq!(b.refname().branch, "-lead");
    b.name = "a\u{e9}b".to_string();
    assert_eq!(b.refname().branch, "a-b");
}

#[test]
fn field_keys() {
    let keys: Vec<&str> = [
        Field::Id, Field::Name, Field::Notes, Field::Applied, Field::Order, Field::UpstreamHead,
        Field::Upstream, Field::Tree, Field::Head, Field::CreatedTimestamp, Field::UpdatedTimestamp,
        Field::Ownership,
    ]
    .iter()
    .map(|f| f.key())
    .collect();
    assert_eq!(keys, vec![
        "id", "meta/name", "meta/notes", "meta/applied", "meta/order", "meta/upstream_head",
        "meta/upstream", "meta/tree", "meta/head", "meta/created_timestamp_ms",
        "meta/updated_timestamp_ms", "meta/ownership",
    ]);
}
