use bft_json_crdt::json_crdt::OpState;
use bft_json_crdt::keypair::make_author;
use bft_json_crdt::list_crdt::ListCrdt;
use bft_json_crdt::op::{root_id, Op, OpId};
use bft_json_crdt::value::Value;
use rand::rngs::ThreadRng;
use rand::seq::SliceRandom;
use rand::Rng;

fn random_op(arr: &Vec<Op<Value>>, rng: &mut ThreadRng) -> OpId {
    arr.choose(rng).map(|op| op.id.clone()).unwrap_or(root_id())
}

fn ch(c: char) -> Value {
    Value::String(c.to_string())
}

const TEST_N: usize = 100;

#[test]
fn test_list_fuzz_commutative() {
    let mut rng = rand::thread_rng();
    let mut op_log = Vec::<Op<Value>>::new();
    let mut op_log1 = Vec::<Op<Value>>::new();
    let mut op_log2 = Vec::<Op<Value>>::new();
    let mut l1 = ListCrdt::new(make_author(1), Vec::new());
    let mut l2 = ListCrdt::new(make_author(2), Vec::new());
    let mut chk = ListCrdt::new(make_author(3), Vec::new());
    for _ in 0..TEST_N {
        let letter1: char = rng.gen_range(b'a'..=b'z') as char;
        let letter2: char = rng.gen_range(b'a'..=b'z') as char;
        let op1 = if rng.gen_bool(4.0 / 5.0) {
            l1.insert(random_op(&op_log1, &mut rng), ch(letter1))
        } else {
            l1.delete(random_op(&op_log1, &mut rng))
        };
        let op2 = if rng.gen_bool(4.0 / 5.0) {
            l2.insert(random_op(&op_log2, &mut rng), ch(letter2))
        } else {
            l2.delete(random_op(&op_log2, &mut rng))
        };
        op_log1.push(op1.duplicate());
        op_log2.push(op2.duplicate());
        op_log.push(op1);
        op_log.push(op2);
    }

    // shuffle ops
    op_log1.shuffle(&mut rng);
    op_log2.shuffle(&mut rng);

    // apply to each other
    for op in op_log1 {
        l2.apply(op.duplicate());
        chk.apply(op);
    }
    for op in op_log2 {
        l1.apply(op.duplicate());
        chk.apply(op);
    }

    // ensure all equal
    let l1_doc = l1.view();
    let l2_doc = l2.view();
    let chk_doc = chk.view();
    assert_eq!(l1_doc, l2_doc);
    assert_eq!(l1_doc, chk_doc);
    assert_eq!(l2_doc, chk_doc);

    // now, allow cross mixing between both
    let mut op_log1 = Vec::<Op<Value>>::new();
    let mut op_log2 = Vec::<Op<Value>>::new();
    for _ in 0..TEST_N {
        let letter1: char = rng.gen_range(b'a'..=b'z') as char;
        let letter2: char = rng.gen_range(b'a'..=b'z') as char;
        let op1 = l1.insert(random_op(&op_log, &mut rng), ch(letter1));
        let op2 = l2.insert(random_op(&op_log, &mut rng), ch(letter2));
        op_log1.push(op1);
        op_log2.push(op2);
    }

    for op in op_log1 {
        l2.apply(op.duplicate());
        chk.apply(op);
    }
    for op in op_log2.iter() {
        l1.apply(op.duplicate());
        chk.apply(op.duplicate());
    }

    let l1_doc = l1.view();
    let l2_doc = l2.view();
    let chk_doc = chk.view();
    assert_eq!(l1_doc, l2_doc);
    assert_eq!(l1_doc, chk_doc);
    assert_eq!(l2_doc, chk_doc);

    // applying any op a second time changes nothing
    let mut replay = l1.view();
    for op in op_log2.iter() {
        // already applied above; the list stays as it is
        assert_ne!(l1.apply(op.duplicate()), OpState::ErrHashMismatch);
        replay = l1.view();
    }
    assert_eq!(replay, l1.view());
}
