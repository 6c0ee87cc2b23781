use bft_json_crdt::json_crdt::OpState;
use bft_json_crdt::keypair::make_author;
use bft_json_crdt::list_crdt::ListCrdt;
use bft_json_crdt::op::root_id;
use bft_json_crdt::value::Value;

fn num(n: i64) -> Value {
    Value::Number((n as f64).to_bits())
}

fn ch(c: char) -> Value {
    Value::String(c.to_string())
}

#[test]
fn test_list_simple() {
    let mut list = ListCrdt::new(make_author(1), Vec::new());
    let _one = list.insert(root_id(), num(1));
    let _two = list.insert(_one.id.clone(), num(2));
    let _three = list.insert(_two.id.clone(), num(3));
    let _four = list.insert(_one.id.clone(), num(4));
    assert_eq!(list.view(), vec![num(1), num(4), num(2), num(3)]);
}

#[test]
fn test_list_idempotence() {
    let mut list = ListCrdt::new(make_author(1), Vec::new());
    let op = list.insert(root_id(), num(1));
    for _ in 1..10 {
        assert_eq!(list.apply(op.duplicate()), OpState::Applied);
    }
    assert_eq!(list.view(), vec![num(1)]);
}

#[test]
fn test_list_delete() {
    let mut list = ListCrdt::new(make_author(1), Vec::new());
    let _one = list.insert(root_id(), ch('a'));
    let _two = list.insert(_one.id.clone(), ch('b'));
    let _three = list.insert(root_id(), ch('c'));
    list.delete(_one.id.clone());
    list.delete(_two.id.clone());
    assert_eq!(list.view(), vec![ch('c')]);
}

#[test]
fn test_list_interweave_chars() {
    let mut list = ListCrdt::new(make_author(1), Vec::new());
    let _one = list.insert(root_id(), ch('a'));
    let _two = list.insert(_one.id.clone(), ch('b'));
    let _three = list.insert(root_id(), ch('c'));
    assert_eq!(list.view(), vec![ch('c'), ch('a'), ch('b')]);
}

#[test]
fn test_list_conflicting_agents() {
    let mut list1 = ListCrdt::new(make_author(1), Vec::new());
    let mut list2 = ListCrdt::new(make_author(2), Vec::new());
    let _1_a = list1.insert(root_id(), ch('a'));
    assert_eq!(list2.apply(_1_a.duplicate()), OpState::Applied);
    let _2_b = list2.insert(_1_a.id.clone(), ch('b'));
    assert_eq!(list1.apply(_2_b.duplicate()), OpState::Applied);

    let _2_d = list2.insert(root_id(), ch('d'));
    let _2_y = list2.insert(_2_b.id.clone(), ch('y'));
    let _1_x = list1.insert(_2_b.id.clone(), ch('x'));

    // create artificial delay, then apply out of order
    assert_eq!(list2.apply(_1_x), OpState::Applied);
    assert_eq!(list1.apply(_2_y), OpState::Applied);
    assert_eq!(list1.apply(_2_d), OpState::Applied);

    assert_eq!(list1.view(), vec![ch('d'), ch('a'), ch('b'), ch('y'), ch('x')]);
    assert_eq!(list1.view(), list2.view());
}

#[test]
fn test_list_delete_multiple_agent() {
    let mut list1 = ListCrdt::new(make_author(1), Vec::new());
    let mut list2 = ListCrdt::new(make_author(2), Vec::new());
    let _1_a = list1.insert(root_id(), ch('a'));
    assert_eq!(list2.apply(_1_a.duplicate()), OpState::Applied);
    let _2_b = list2.insert(_1_a.id.clone(), ch('b'));
    let del_1_a = list1.delete(_1_a.id.clone());
    assert_eq!(list1.apply(_2_b), OpState::Applied);
    assert_eq!(list2.apply(del_1_a), OpState::Applied);

    assert_eq!(list1.view(), vec![ch('b')]);
    assert_eq!(list1.view(), list2.view());
}

#[test]
fn test_list_nested() {
    let mut list1 = ListCrdt::new(make_author(1), Vec::new());
    let _c = list1.insert(root_id(), ch('c'));
    let _a = list1.insert(root_id(), ch('a'));
    let _d = list1.insert(_c.id.clone(), ch('d'));
    let _b = list1.insert(_a.id.clone(), ch('b'));

    assert_eq!(list1.view(), vec![ch('a'), ch('b'), ch('c'), ch('d')]);
}

// Two authors insert concurrently after the root; all replicas order the
// higher author's element first.
#[test]
fn test_list_concurrent_siblings() {
    let mut l1 = ListCrdt::new(make_author(1), Vec::new());
    let mut l2 = ListCrdt::new(make_author(2), Vec::new());
    let o1 = l1.insert(root_id(), ch('a'));
    let o2 = l2.insert(root_id(), ch('d'));
    assert_eq!(l1.apply(o2.duplicate()), OpState::Applied);
    assert_eq!(l2.apply(o1.duplicate()), OpState::Applied);
    // author 2 is the higher author, so its element sits first
    assert_eq!(l1.view(), vec![ch('d'), ch('a')]);
    assert_eq!(l1.view(), l2.view());
}

// An op whose anchor has not arrived parks; the anchor's arrival releases
// it and the view catches up at once.
#[test]
fn test_list_parked_anchor() {
    let mut source = ListCrdt::new(make_author(1), Vec::new());
    let a = source.insert(root_id(), ch('a'));
    let b = source.insert(a.id.clone(), ch('b'));

    let mut sink = ListCrdt::new(make_author(2), Vec::new());
    assert_eq!(sink.apply(b.duplicate()), OpState::MissingCausalDependencies);
    assert_eq!(sink.view(), Vec::<Value>::new());
    assert_eq!(sink.apply(a.duplicate()), OpState::Applied);
    assert_eq!(sink.view(), vec![ch('a'), ch('b')]);
}
