use bft_json_crdt::json_crdt::OpState;
use bft_json_crdt::keypair::make_author;
use bft_json_crdt::lww_crdt::LwwRegisterCrdt;
use bft_json_crdt::value::Value;

fn num(n: i64) -> Value {
    Value::Number((n as f64).to_bits())
}

fn ch(c: char) -> Value {
    Value::String(c.to_string())
}

#[test]
fn test_lww_simple() {
    let mut register = LwwRegisterCrdt::new(make_author(1), Vec::new());
    assert_eq!(register.view(), None);
    register.set(num(1));
    assert_eq!(register.view(), Some(num(1)));
    register.set(num(99));
    assert_eq!(register.view(), Some(num(99)));
}

#[test]
fn test_lww_multiple_writer() {
    let mut register1 = LwwRegisterCrdt::new(make_author(1), Vec::new());
    let mut register2 = LwwRegisterCrdt::new(make_author(2), Vec::new());
    let _a = register1.set(ch('a'));
    let _b = register1.set(ch('b'));
    let _c = register2.set(ch('c'));
    assert_eq!(register2.view(), Some(ch('c')));
    assert_eq!(register1.apply(_c), OpState::Applied);
    assert_eq!(register2.apply(_b), OpState::Applied);
    assert_eq!(register2.apply(_a), OpState::Applied);
    assert_eq!(register1.view(), Some(ch('b')));
    assert_eq!(register2.view(), Some(ch('b')));
}

#[test]
fn test_lww_idempotence() {
    let mut register = LwwRegisterCrdt::new(make_author(1), Vec::new());
    let op = register.set(num(1));
    for _ in 1..10 {
        assert_eq!(register.apply(op.duplicate()), OpState::Applied);
    }
    assert_eq!(register.view(), Some(num(1)));
}

#[test]
fn test_lww_consistent_tiebreak() {
    let mut register1 = LwwRegisterCrdt::new(make_author(1), Vec::new());
    let mut register2 = LwwRegisterCrdt::new(make_author(2), Vec::new());
    let _a = register1.set(ch('a'));
    let _b = register2.set(ch('b'));
    assert_eq!(register1.apply(_b), OpState::Applied);
    assert_eq!(register2.apply(_a), OpState::Applied);
    let _c = register1.set(ch('c'));
    let _d = register2.set(ch('d'));
    assert_eq!(register2.apply(_c), OpState::Applied);
    assert_eq!(register1.apply(_d), OpState::Applied);
    assert_eq!(register1.view(), register2.view());
    assert_eq!(register1.view(), Some(ch('c')));
}

// On an empty register, a set from each of two authors with the same
// counter resolves the same way in either order: the lexicographically
// lower author wins the tie.
#[test]
fn test_register_interleave() {
    let mut r1 = LwwRegisterCrdt::new(make_author(1), Vec::new());
    let mut r2 = LwwRegisterCrdt::new(make_author(2), Vec::new());
    let op_a = r1.set(ch('a'));
    let op_b = r2.set(ch('b'));

    let mut fwd = LwwRegisterCrdt::new(make_author(3), Vec::new());
    assert_eq!(fwd.apply(op_a.duplicate()), OpState::Applied);
    assert_eq!(fwd.apply(op_b.duplicate()), OpState::Applied);

    let mut rev = LwwRegisterCrdt::new(make_author(4), Vec::new());
    assert_eq!(rev.apply(op_b), OpState::Applied);
    assert_eq!(rev.apply(op_a), OpState::Applied);

    // author 1 sorts below author 2, so 'a' wins on both replicas
    assert_eq!(fwd.view(), Some(ch('a')));
    assert_eq!(fwd.view(), rev.view());
}
