use virtual_branches::{BranchId, IdError, Oid, RemoteRefname};

#[test]
fn branch_id_text_round_trip() {
    let text = "67e55044-10b1-426f-9247-bb680e5fe0c8";
    let id = BranchId::parse(text).unwrap();
    assert_eq!(id.bytes, vec![0x67, 0xe5, 0x50, 0x44, 0x10, 0xb1, 0x42, 0x6f, 0x92, 0x47, 0xbb, 0x68, 0x0e, 0x5f, 0xe0, 0xc8]);
    assert_eq!(id.to_text(), text);
}

#[test]
fn branch_id_accepts_upper_case_and_writes_lower() {
    let id = BranchId::parse("67E55044-10B1-426F-9247-BB680E5FE0C8").unwrap();
    assert_eq!(id.to_text(), "67e55044-10b1-426f-9247-bb680e5fe0c8");
}

#[test]
fn malformed_branch_ids_are_refused() {
    for bad in ["not-a-uuid", "", "67e55044-10b1-426f-9247-bb680e5fe0c", "67e5504410b1426f9247bb680e5fe0c8", "67e55044-10b1-426f-9247-bb680e5fe0cg", "67e55044+10b1-426f-9247-bb680e5fe0c8"] {
        assert_eq!(BranchId::parse(bad).unwrap_err(), IdError::MalformedIdentifier, "{}", bad);
    }
}

#[test]
fn branch_id_from_bytes() {
    assert!(BranchId::from_bytes(vec![1; 15]).is_none());
    let id = BranchId::from_bytes(vec![0xab; 16]).unwrap();
    assert_eq!(id.to_text(), "abababab-abab-abab-abab-abababababab");
}

#[test]
fn oid_text_round_trip() {
    let text = "0123456789abcdef0123456789abcdef01234567";
    let o = Oid::parse(text).unwrap();
    assert_eq!(o.bytes[0], 0x01);
    assert_eq!(o.bytes[19], 0x67);
    assert_eq!(o.to_text(), text);
    let upper = Oid::parse("0123456789ABCDEF0123456789ABCDEF01234567").unwrap();
    assert_eq!(upper.to_text(), text);
}

#[test]
fn malformed_oids_are_refused() {
    assert!(Oid::parse("").is_none());
    assert!(Oid::parse("0123456789abcdef0123456789abcdef0123456").is_none());
    assert!(Oid::parse("0123456789abcdef0123456789abcdef012345678").is_none());
    assert!(Oid::parse("z123456789abcdef0123456789abcdef01234567").is_none());
    assert!(Oid::from_bytes(vec![0; 19]).is_none());
    assert_eq!(Oid::from_bytes(vec![0; 20]).unwrap().to_text(), "0".repeat(40));
}

#[test]
fn remote_refname_parse() {
    let r = RemoteRefname::parse("refs/remotes/origin/feature/x").unwrap();
    assert_eq!(r.remote, "origin");
    assert_eq!(r.branch, "feature/x");
    assert_eq!(r.to_text(), "refs/remotes/origin/feature/x");
}

#[test]
fn malformed_remote_refnames_are_refused() {
    for bad in ["", "origin/main", "refs/remotes/origin", "refs/remotes/origin/", "refs/remotes//main", "refs/heads/origin/main", "refs/remotes/"] {
        assert!(RemoteRefname::parse(bad).is_none(), "{}", bad);
    }
}
