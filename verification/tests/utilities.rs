use bft_json_crdt::keypair::{lsb_32, make_author};
use bft_json_crdt::op::{
    ensure_subpath, join_path, parse_field, print_hex, print_path, root_id, Op, PathSegment,
};
use bft_json_crdt::value::Value;

#[test]
fn test_print_hex() {
    let bytes = vec![0u8, 15, 16, 255, 171];
    assert_eq!(print_hex(&bytes), "000f10ffab");
    assert_eq!(print_hex(&Vec::new()), "");
}

#[test]
fn test_print_path() {
    let path = vec![
        PathSegment::Field("player".to_string()),
        PathSegment::Index(vec![0xab, 0xcd, 0xef, 0x01]),
        PathSegment::Field("name".to_string()),
    ];
    assert_eq!(print_path(&path), "player.abcdef.name");
    assert_eq!(print_path(&Vec::new()), "");
}

#[test]
fn test_lsb_32() {
    let author = make_author(7);
    assert_eq!(lsb_32(&author), 7 << 24);
    let id = vec![0x12u8, 0x34, 0x56, 0x78, 0x99];
    assert_eq!(lsb_32(&id), 0x12345678);
}

#[test]
fn test_make_author() {
    let author = make_author(9);
    assert_eq!(author.len(), 32);
    assert_eq!(author[0], 9);
    assert!(author[1..].iter().all(|b| *b == 0));
}

#[test]
fn test_subpath_and_join() {
    let base = vec![PathSegment::Field("a".to_string())];
    let longer = join_path(
        vec![PathSegment::Field("a".to_string())],
        PathSegment::Field("b".to_string()),
    );
    assert!(ensure_subpath(&base, &longer));
    assert!(ensure_subpath(&base, &base));
    assert!(!ensure_subpath(&longer, &base));
    let other = vec![PathSegment::Field("x".to_string())];
    assert!(!ensure_subpath(&other, &longer));
}

#[test]
fn test_parse_field() {
    let path = vec![
        PathSegment::Field("a".to_string()),
        PathSegment::Field("b".to_string()),
    ];
    assert_eq!(parse_field(&path), Some("b".to_string()));
    let indexed = vec![PathSegment::Index(root_id())];
    assert_eq!(parse_field(&indexed), None);
    assert_eq!(parse_field(&Vec::new()), None);
}

// The op id really is a digest of the canonical fields: any change to the
// content, counter or tombstone flag yields a different id, and the
// recomputation detects mismatches.
#[test]
fn test_op_hashing() {
    let author = make_author(1);
    let a = Op::new(
        root_id(),
        author.clone(),
        1,
        false,
        Some(Value::String("a".to_string())),
        Vec::new(),
    );
    assert_eq!(a.id.len(), 32);
    assert!(a.is_valid_hash());

    let b = Op::new(
        root_id(),
        author.clone(),
        1,
        false,
        Some(Value::String("b".to_string())),
        Vec::new(),
    );
    assert_ne!(a.id, b.id);

    let later = Op::new(
        root_id(),
        author.clone(),
        2,
        false,
        Some(Value::String("a".to_string())),
        Vec::new(),
    );
    assert_ne!(a.id, later.id);

    let mut tampered = a.duplicate();
    tampered.content = Some(Value::String("z".to_string()));
    assert!(!tampered.is_valid_hash());

    // content present on a tombstone breaks the content/tombstone pairing
    let mut broken = a.duplicate();
    broken.is_deleted = true;
    assert!(!broken.is_valid_hash());
}
