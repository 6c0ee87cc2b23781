use bft_json_crdt::json_crdt::{BaseCrdt, FieldSchema, OpState, Schema};
use bft_json_crdt::keypair::make_keypair;
use bft_json_crdt::op::{print_path, root_id};
use bft_json_crdt::value::Value;

fn num_f(n: f64) -> Value {
    Value::Number(n.to_bits())
}

fn s(text: &str) -> String {
    text.to_string()
}

fn vstr(text: &str) -> Value {
    Value::String(text.to_string())
}

fn field(name: &str, schema: Schema) -> FieldSchema {
    FieldSchema { name: s(name), schema }
}

fn obj(entries: Vec<(&str, Value)>) -> Value {
    Value::Object(entries.into_iter().map(|(k, v)| (k.to_string(), v)).collect())
}

#[test]
fn test_derive_basic() {
    let schema = Schema::Record(vec![
        field("x", Schema::Register),
        field("y", Schema::Register),
    ]);
    let keypair = make_keypair();
    let mut crdt = BaseCrdt::new(&keypair, &schema);
    let x = crdt.doc.get_field(&s("x")).unwrap().as_register().unwrap();
    assert_eq!(print_path(&x.path), "x");
    let y = crdt.doc.get_field(&s("y")).unwrap().as_register().unwrap();
    assert_eq!(print_path(&y.path), "y");
}

#[test]
fn test_derive_nested() {
    let schema = Schema::Record(vec![
        field(
            "pos",
            Schema::Record(vec![
                field("x", Schema::Register),
                field("y", Schema::Register),
            ]),
        ),
        field("balance", Schema::Register),
        field("messages", Schema::List(Box::new(Schema::Primitive))),
    ]);
    let keypair = make_keypair();
    let mut crdt = BaseCrdt::new(&keypair, &schema);
    let pos = crdt.doc.get_field(&s("pos")).unwrap();
    let x = pos.get_field(&s("x")).unwrap().as_register().unwrap();
    assert_eq!(print_path(&x.path), "pos.x");
    let y = crdt.doc.get_field(&s("pos")).unwrap().get_field(&s("y")).unwrap().as_register().unwrap();
    assert_eq!(print_path(&y.path), "pos.y");
    let balance = crdt.doc.get_field(&s("balance")).unwrap().as_register().unwrap();
    assert_eq!(print_path(&balance.path), "balance");
    let messages = crdt.doc.get_field(&s("messages")).unwrap().as_list().unwrap();
    assert_eq!(print_path(&messages.path), "messages");
}

fn lww_test_schema() -> Schema {
    Schema::Record(vec![
        field("a", Schema::Register),
        field("b", Schema::Register),
        field("c", Schema::Register),
    ])
}

#[test]
fn test_lww_ops() {
    let kp1 = make_keypair();
    let kp2 = make_keypair();
    let mut base1 = BaseCrdt::new(&kp1, &lww_test_schema());
    let mut base2 = BaseCrdt::new(&kp2, &lww_test_schema());

    let _1_a_1 = base1.doc.get_field(&s("a")).unwrap().as_register().unwrap().set(num_f(3.0)).sign(&kp1);
    let _1_b_1 = base1.doc.get_field(&s("b")).unwrap().as_register().unwrap().set(Value::Bool(true)).sign(&kp1);
    let _2_a_1 = base2.doc.get_field(&s("a")).unwrap().as_register().unwrap().set(num_f(1.5)).sign(&kp2);
    let _2_a_2 = base2.doc.get_field(&s("a")).unwrap().as_register().unwrap().set(num_f(2.13)).sign(&kp2);
    let _2_c_1 = base2.doc.get_field(&s("c")).unwrap().as_register().unwrap().set(vstr("abc")).sign(&kp2);

    assert_eq!(
        base1.doc.get_field(&s("a")).unwrap().as_register().unwrap().view(),
        Some(num_f(3.0))
    );
    assert_eq!(
        base2.doc.get_field(&s("a")).unwrap().as_register().unwrap().view(),
        Some(num_f(2.13))
    );

    assert_eq!(
        base1.doc.view(),
        obj(vec![("a", num_f(3.0)), ("b", Value::Bool(true)), ("c", Value::Null)])
    );
    assert_eq!(
        base2.doc.view(),
        obj(vec![("a", num_f(2.13)), ("b", Value::Null), ("c", vstr("abc"))])
    );

    assert_eq!(base2.apply(_1_a_1), OpState::Applied);
    assert_eq!(base2.apply(_1_b_1), OpState::Applied);
    assert_eq!(base1.apply(_2_a_1), OpState::Applied);
    assert_eq!(base1.apply(_2_a_2), OpState::Applied);
    assert_eq!(base1.apply(_2_c_1), OpState::Applied);

    assert_eq!(base1.doc.view(), base2.doc.view());
    assert_eq!(
        base1.doc.view(),
        obj(vec![("a", num_f(2.13)), ("b", Value::Bool(true)), ("c", vstr("abc"))])
    );
}

fn vec_test_schema() -> Schema {
    Schema::Record(vec![field("a", Schema::List(Box::new(Schema::Primitive)))])
}

#[test]
fn test_vec_and_map_ops() {
    let kp1 = make_keypair();
    let kp2 = make_keypair();
    let mut base1 = BaseCrdt::new(&kp1, &vec_test_schema());
    let mut base2 = BaseCrdt::new(&kp2, &vec_test_schema());

    let _1a = base1.doc.get_field(&s("a")).unwrap().as_list().unwrap().insert(root_id(), vstr("a")).sign(&kp1);
    let _1b = base1.doc.get_field(&s("a")).unwrap().as_list().unwrap().insert(_1a.id().clone(), vstr("b")).sign(&kp1);
    let _2c = base2.doc.get_field(&s("a")).unwrap().as_list().unwrap().insert(root_id(), vstr("c")).sign(&kp2);
    let _2d = base2.doc.get_field(&s("a")).unwrap().as_list().unwrap().insert(_1b.id().clone(), vstr("d")).sign(&kp2);

    assert_eq!(base1.doc.view(), obj(vec![("a", Value::Array(vec![vstr("a"), vstr("b")]))]));
    // _1b has not been delivered to base2 yet
    assert_eq!(base2.doc.view(), obj(vec![("a", Value::Array(vec![vstr("c")]))]));

    assert_eq!(base2.apply(_1b), OpState::MissingCausalDependencies);
    assert_eq!(base2.apply(_1a), OpState::Applied);
    assert_eq!(base1.apply(_2d), OpState::Applied);
    assert_eq!(base1.apply(_2c), OpState::Applied);
    assert_eq!(base1.doc.view(), base2.doc.view());
}

fn player_schema() -> Schema {
    Schema::Record(vec![
        field(
            "inventory",
            Schema::List(Box::new(Schema::Record(vec![
                field("name", Schema::Register),
                field("soulbound", Schema::Register),
            ]))),
        ),
        field("balance", Schema::Register),
    ])
}

#[test]
fn test_causal_field_dependency() {
    let kp1 = make_keypair();
    let kp2 = make_keypair();
    let mut base1 = BaseCrdt::new(&kp1, &player_schema());
    let mut base2 = BaseCrdt::new(&kp2, &player_schema());

    // require the balance updates to happen before the inventory update
    let _add_money = base1.doc.get_field(&s("balance")).unwrap().as_register().unwrap().set(num_f(5000.0)).sign(&kp1);
    let _spend_money = base1
        .doc
        .get_field(&s("balance"))
        .unwrap()
        .as_register()
        .unwrap()
        .set(num_f(3000.0))
        .sign_with_dependencies(&kp1, &vec![_add_money.duplicate()]);

    let sword = obj(vec![("name", vstr("Sword")), ("soulbound", Value::Bool(true))]);
    let _new_inventory_item = base1
        .doc
        .get_field(&s("inventory"))
        .unwrap()
        .as_list()
        .unwrap()
        .insert_idx(0, sword)
        .sign_with_dependencies(&kp1, &vec![_spend_money.duplicate()]);

    assert_eq!(
        base1.doc.view(),
        obj(vec![
            (
                "inventory",
                Value::Array(vec![obj(vec![
                    ("name", vstr("Sword")),
                    ("soulbound", Value::Bool(true)),
                ])]),
            ),
            ("balance", num_f(3000.0)),
        ])
    );

    // deliver completely out of order
    assert_eq!(base2.apply(_new_inventory_item), OpState::MissingCausalDependencies);
    assert_eq!(base2.apply(_spend_money), OpState::MissingCausalDependencies);
    assert_eq!(base2.apply(_add_money), OpState::Applied);
    assert_eq!(base1.doc.view(), base2.doc.view());
}

fn game_schema() -> Schema {
    Schema::Record(vec![field(
        "grid",
        Schema::List(Box::new(Schema::List(Box::new(Schema::Register)))),
    )])
}

#[test]
fn test_2d_grid() {
    let kp1 = make_keypair();
    let kp2 = make_keypair();
    let mut base1 = BaseCrdt::new(&kp1, &game_schema());
    let mut base2 = BaseCrdt::new(&kp2, &game_schema());

    // init a 2d grid
    let row0 = Value::Array(vec![Value::Bool(true), Value::Bool(false)]);
    let row1 = Value::Array(vec![Value::Bool(false), Value::Bool(true)]);
    let construct1 = base1.doc.get_field(&s("grid")).unwrap().as_list().unwrap().insert_idx(0, row0).sign(&kp1);
    let construct2 = base1.doc.get_field(&s("grid")).unwrap().as_list().unwrap().insert_idx(1, row1).sign(&kp1);

    assert_eq!(base2.apply(construct1.duplicate()), OpState::Applied);
    assert_eq!(base2.apply(construct2.duplicate()), OpState::Applied);

    assert_eq!(base1.doc.view(), base2.doc.view());
    assert_eq!(
        base1.doc.view(),
        obj(vec![("grid", Value::Array(vec![
            Value::Array(vec![Value::Bool(true), Value::Bool(false)]),
            Value::Array(vec![Value::Bool(false), Value::Bool(true)]),
        ]))])
    );

    let row0_id = construct1.id().clone();
    let row1_id = construct2.id().clone();
    let cell00_id = base1
        .doc
        .get_field(&s("grid")).unwrap()
        .get_elem(&row0_id).unwrap()
        .as_list().unwrap()
        .id_at(1).unwrap();
    let cell11_id = base2
        .doc
        .get_field(&s("grid")).unwrap()
        .get_elem(&row1_id).unwrap()
        .as_list().unwrap()
        .id_at(2).unwrap();

    let set1 = base1
        .doc
        .get_field(&s("grid")).unwrap()
        .get_elem(&row0_id).unwrap()
        .get_elem(&cell00_id).unwrap()
        .as_register().unwrap()
        .set(Value::Bool(false))
        .sign(&kp1);
    let set2 = base2
        .doc
        .get_field(&s("grid")).unwrap()
        .get_elem(&row1_id).unwrap()
        .get_elem(&cell11_id).unwrap()
        .as_register().unwrap()
        .set(Value::Bool(false))
        .sign(&kp2);
    assert_eq!(base1.apply(set2), OpState::Applied);
    assert_eq!(base2.apply(set1), OpState::Applied);

    assert_eq!(base1.doc.view(), base2.doc.view());
    assert_eq!(
        base1.doc.view(),
        obj(vec![("grid", Value::Array(vec![
            Value::Array(vec![Value::Bool(false), Value::Bool(false)]),
            Value::Array(vec![Value::Bool(false), Value::Bool(false)]),
        ]))])
    );

    // drop the first cell of the first row, then the second row entirely
    let first_cell = base1
        .doc
        .get_field(&s("grid")).unwrap()
        .get_elem(&row0_id).unwrap()
        .as_list().unwrap()
        .id_at(1)
        .unwrap();
    base1
        .doc
        .get_field(&s("grid")).unwrap()
        .get_elem(&row0_id).unwrap()
        .as_list().unwrap()
        .delete(first_cell);
    assert_eq!(
        base1.doc.view(),
        obj(vec![("grid", Value::Array(vec![
            Value::Array(vec![Value::Bool(false)]),
            Value::Array(vec![Value::Bool(false), Value::Bool(false)]),
        ]))])
    );

    base1.doc.get_field(&s("grid")).unwrap().as_list().unwrap().delete(construct2.id().clone());
    assert_eq!(
        base1.doc.view(),
        obj(vec![("grid", Value::Array(vec![Value::Array(vec![Value::Bool(false)])]))])
    );
}

#[test]
fn test_arb_json() {
    let kp1 = make_keypair();
    let schema = Schema::Record(vec![field("reg", Schema::Register)]);
    let mut base1 = BaseCrdt::new(&kp1, &schema);

    let base_val = obj(vec![
        ("a", Value::Bool(true)),
        ("b", vstr("asdf")),
        (
            "c",
            obj(vec![
                ("d", Value::Array(vec![])),
                ("e", Value::Array(vec![Value::Bool(false)])),
            ]),
        ),
    ]);
    base1.doc.get_field(&s("reg")).unwrap().as_register().unwrap().set(base_val.duplicate()).sign(&kp1);
    assert_eq!(base1.doc.view(), obj(vec![("reg", base_val)]));
}
