// What is potentially byzantine behaviour?
// 1. send valid updates
// 2. send a mix of valid and invalid updates
//  a) messages with a duplicate id (attempt to overwrite old entries)
//  b) equivocation: different messages claiming the same author and counter
//  c) forged envelopes claiming somebody else's key
// Malformed updates and queue flooding are left to the transport and the
// embedder, as the library keeps an unbounded queue by design.
use bft_json_crdt::json_crdt::{BaseCrdt, FieldSchema, OpState, Schema};
use bft_json_crdt::keypair::{make_keypair, sign, verify};
use bft_json_crdt::op::{root_id, PathSegment};
use bft_json_crdt::value::Value;

fn s(text: &str) -> String {
    text.to_string()
}

fn vstr(text: &str) -> Value {
    Value::String(text.to_string())
}

fn list_example_schema() -> Schema {
    Schema::Record(vec![FieldSchema {
        name: s("list"),
        schema: Schema::List(Box::new(Schema::Primitive)),
    }])
}

// case 2a + 2b
#[test]
fn test_equivocation() {
    let key = make_keypair();
    let testkey = make_keypair();
    let mut crdt = BaseCrdt::new(&key, &list_example_schema());
    let mut testcrdt = BaseCrdt::new(&testkey, &list_example_schema());
    let _a = crdt.doc.get_field(&s("list")).unwrap().as_list().unwrap().insert(root_id(), vstr("a")).sign(&key);
    let _b = crdt
        .doc
        .get_field(&s("list"))
        .unwrap()
        .as_list()
        .unwrap()
        .insert(_a.id().clone(), vstr("b"))
        .sign(&key);

    // make a fake operation with the same id as _b but different content
    let mut fake_op = _b.duplicate();
    fake_op.inner.content = Some(vstr("c"));

    // also try modifying the sequence number
    let mut fake_op_seq = _b.duplicate();
    fake_op_seq.inner.seq = 99;
    fake_op_seq.inner.is_deleted = true;

    assert_eq!(crdt.apply(fake_op.duplicate()), OpState::ErrHashMismatch);
    assert_eq!(crdt.apply(fake_op_seq.duplicate()), OpState::ErrHashMismatch);

    assert_eq!(testcrdt.apply(fake_op_seq), OpState::ErrHashMismatch);
    assert_eq!(testcrdt.apply(fake_op), OpState::ErrHashMismatch);
    assert_eq!(testcrdt.apply(_a), OpState::Applied);
    assert_eq!(testcrdt.apply(_b), OpState::Applied);

    // make sure neither accepted either of the fake operations
    let view = crdt.doc.get_field(&s("list")).unwrap().as_list().unwrap().view();
    assert_eq!(view, vec![vstr("a"), vstr("b")]);
    let test_view = testcrdt.doc.get_field(&s("list")).unwrap().as_list().unwrap().view();
    assert_eq!(view, test_view);
}

// case 2c: an envelope claiming one author but signed under another key is
// rejected outright, so authorship of envelopes cannot be forged.
#[test]
fn test_forge_update() {
    let key = make_keypair();
    let testkey = make_keypair();
    let mut crdt = BaseCrdt::new(&key, &list_example_schema());
    let mut testcrdt = BaseCrdt::new(&testkey, &list_example_schema());
    let _a = crdt.doc.get_field(&s("list")).unwrap().as_list().unwrap().insert(root_id(), vstr("a")).sign(&key);

    // generate a new keypair, as we do not hold the private key of the
    // replica we want to impersonate
    let fake_key = make_keypair();
    let forged_op = bft_json_crdt::op::Op::new(
        _a.id().clone(),
        crdt.id.clone(),
        2,
        false,
        Some(vstr("b")),
        vec![PathSegment::Field(s("list"))],
    );
    // sign under the fake key, then claim the envelope came from the
    // replica's key
    let mut signed = forged_op.sign(&fake_key);
    signed.author = crdt.id.clone();

    assert_eq!(crdt.apply(signed.duplicate()), OpState::ErrDigestMismatch);
    assert_eq!(testcrdt.apply(signed), OpState::ErrDigestMismatch);
    assert_eq!(testcrdt.apply(_a), OpState::Applied);

    // make sure nobody accepted the forged operation
    let view = crdt.doc.get_field(&s("list")).unwrap().as_list().unwrap().view();
    assert_eq!(view, vec![vstr("a")]);
}

fn nested_schema() -> Schema {
    Schema::Record(vec![FieldSchema {
        name: s("a"),
        schema: Schema::Record(vec![FieldSchema { name: s("b"), schema: Schema::Register }]),
    }])
}

#[test]
fn test_path_update() {
    let key = make_keypair();
    let testkey = make_keypair();
    let mut crdt = BaseCrdt::new(&key, &nested_schema());
    let mut testcrdt = BaseCrdt::new(&testkey, &nested_schema());
    let mut _true = crdt
        .doc
        .get_field(&s("a"))
        .unwrap()
        .get_field(&s("b"))
        .unwrap()
        .as_register()
        .unwrap()
        .set(Value::Bool(true));
    _true.path = vec![PathSegment::Field(s("x"))];
    let mut _false = crdt
        .doc
        .get_field(&s("a"))
        .unwrap()
        .get_field(&s("b"))
        .unwrap()
        .as_register()
        .unwrap()
        .set(Value::Bool(false));
    let false_id = _false.id.clone();
    _false.path = vec![PathSegment::Field(s("a")), PathSegment::Index(false_id)];

    let signedtrue = _true.sign(&key);
    let signedfalse = _false.sign(&key);
    let mut signedfalsefakepath = signedfalse.duplicate();
    signedfalsefakepath.inner.path = vec![PathSegment::Field(s("a")), PathSegment::Field(s("b"))];

    assert_eq!(testcrdt.apply(signedtrue), OpState::ErrPathMismatch);
    assert_eq!(testcrdt.apply(signedfalse), OpState::ErrPathMismatch);
    assert_eq!(testcrdt.apply(signedfalsefakepath), OpState::ErrDigestMismatch);

    // the honest replica saw both sets; the test replica accepted nothing
    let local = crdt.doc.get_field(&s("a")).unwrap().get_field(&s("b")).unwrap().as_register().unwrap().view();
    assert_eq!(local, Some(Value::Bool(false)));
    let remote = testcrdt.doc.get_field(&s("a")).unwrap().get_field(&s("b")).unwrap().as_register().unwrap().view();
    assert_eq!(remote, None);
}

// A tampered copy of an op (same id, altered content) is rejected, and the
// original still applies afterwards.
#[test]
fn test_tampered_then_genuine() {
    let key = make_keypair();
    let mut crdt = BaseCrdt::new(&key, &list_example_schema());
    let genuine = crdt.doc.get_field(&s("list")).unwrap().as_list().unwrap().insert(root_id(), vstr("x")).sign(&key);

    let other = make_keypair();
    let mut remote = BaseCrdt::new(&other, &list_example_schema());
    let mut tampered = genuine.duplicate();
    tampered.inner.content = Some(vstr("y"));
    assert_eq!(remote.apply(tampered), OpState::ErrHashMismatch);
    assert_eq!(remote.doc.view(), crdt_empty_view());
    assert_eq!(remote.apply(genuine), OpState::Applied);
    let view = remote.doc.get_field(&s("list")).unwrap().as_list().unwrap().view();
    assert_eq!(view, vec![vstr("x")]);
}

fn crdt_empty_view() -> Value {
    Value::Object(vec![(s("list"), Value::Array(vec![]))])
}

// An envelope that names a causal dependency sits in the queue until the
// dependency arrives, then both apply in order.
#[test]
fn test_causal_queue() {
    let key = make_keypair();
    let schema = Schema::Record(vec![FieldSchema { name: s("r"), schema: Schema::Register }]);
    let mut source = BaseCrdt::new(&key, &schema);
    let op_a = source.doc.get_field(&s("r")).unwrap().as_register().unwrap().set(vstr("first")).sign(&key);
    let op_b = source
        .doc
        .get_field(&s("r"))
        .unwrap()
        .as_register()
        .unwrap()
        .set(vstr("second"))
        .sign_with_dependencies(&key, &vec![op_a.duplicate()]);

    let other = make_keypair();
    let mut replica = BaseCrdt::new(&other, &schema);
    assert_eq!(replica.apply(op_b), OpState::MissingCausalDependencies);
    assert_eq!(replica.doc.view(), Value::Object(vec![(s("r"), Value::Null)]));
    assert_eq!(replica.apply(op_a), OpState::Applied);
    assert_eq!(
        replica.doc.view(),
        Value::Object(vec![(s("r"), vstr("second"))])
    );
}

// The raw signing primitives: a signature verifies under the signing key
// and under no other.
#[test]
fn test_sign_verify() {
    let key = make_keypair();
    let other = make_keypair();
    let message = vec![1u8, 2, 3, 4];
    let signature = sign(&key, &message);
    assert!(verify(&key.public_key(), &message, &signature));
    assert!(!verify(&other.public_key(), &message, &signature));
    let mut altered = message.clone();
    altered[0] = 9;
    assert!(!verify(&key.public_key(), &altered, &signature));
}

// The routing failures: an op aimed at a record's own path, at a primitive
// element, or into the list's bookkeeping sentinel is refused without
// changing the document.
#[test]
fn test_routing_failures() {
    let key = make_keypair();
    let mut crdt = BaseCrdt::new(&key, &list_example_schema());
    let inserted = crdt.doc.get_field(&s("list")).unwrap().as_list().unwrap().insert(root_id(), vstr("a")).sign(&key);
    let elem_id = inserted.id().clone();
    let before = crdt.doc.view();

    // an op addressed at the record's own (empty) path
    let at_record = bft_json_crdt::op::Op::new(
        root_id(),
        crdt.id.clone(),
        5,
        false,
        Some(vstr("x")),
        Vec::new(),
    )
    .sign(&key);
    assert_eq!(crdt.apply(at_record), OpState::ErrApplyOnStruct);

    // an op routed into a primitive list element
    let at_primitive = bft_json_crdt::op::Op::new(
        root_id(),
        crdt.id.clone(),
        6,
        false,
        Some(vstr("y")),
        vec![
            PathSegment::Field(s("list")),
            PathSegment::Index(elem_id),
            PathSegment::Index(root_id()),
        ],
    )
    .sign(&key);
    assert_eq!(crdt.apply(at_primitive), OpState::ErrApplyOnPrimitive);

    // an op routed into the sentinel element, which carries no node
    let at_sentinel = bft_json_crdt::op::Op::new(
        root_id(),
        crdt.id.clone(),
        7,
        false,
        Some(vstr("z")),
        vec![
            PathSegment::Field(s("list")),
            PathSegment::Index(root_id()),
            PathSegment::Index(root_id()),
        ],
    )
    .sign(&key);
    assert_eq!(crdt.apply(at_sentinel), OpState::ErrListApplyToEmpty);

    assert_eq!(crdt.doc.view(), before);
}
