//! The compositional document engine: nodes, records, signed envelopes and
//! the document root.
//!
//! A document is a tree of CRDT nodes: primitives, last-writer-wins
//! registers, RGA lists and fixed-schema records. A [`Schema`] declares the
//! shape of the tree; every replica of a document uses the same schema, so
//! nested nodes built from incoming JSON are identical everywhere. Ops are
//! routed to their target node by the path they carry.
use crate::keypair::AuthorId;
use crate::list_crdt::{list_model, ListCrdt, ListM};
use crate::lww_crdt::{LwwM, LwwRegisterCrdt};
use crate::op::{path_view, Op, OpM, PathSegment, SegV};
use crate::value::{Value, ValueV};
use vstd::prelude::*;

verus! {

/// Possible outcomes of applying an operation to a CRDT.
#[derive(Clone, Copy, Debug, PartialEq, Eq, Structural)]
pub enum OpState {
    /// Operation applied successfully.
    Applied,
    /// Tried to apply an operation to a primitive node. For a mutable
    /// primitive, wrap it in a register.
    ErrApplyOnPrimitive,
    /// Tried to apply an operation at a record's own path: records have no
    /// scalar identity.
    ErrApplyOnStruct,
    /// The op's content cannot be coerced to the node at the path addressed.
    ErrMismatchedType,
    /// The signed digest does not verify under the claimed author's key: the
    /// envelope was tampered with or its author forged.
    ErrDigestMismatch,
    /// The op id does not match the hash of the op's canonical fields: an
    /// equivocation or tampering attempt.
    ErrHashMismatch,
    /// The op addresses a path this document does not know.
    ErrPathMismatch,
    /// Tried to route an op into a list element that has no content.
    ErrListApplyToEmpty,
    /// Some causal dependency has not been delivered yet; the op is queued
    /// and will be applied when its dependencies have arrived.
    MissingCausalDependencies,
}

/// The declared shape of a sub-tree of the document. Replicas of one
/// document share one schema, so they build identical nested nodes from the
/// same incoming JSON.
#[derive(Debug)]
pub enum Schema {
    /// A bare JSON value; it cannot receive ops.
    Primitive,
    /// A last-writer-wins register holding any JSON value.
    Register,
    /// An ordered list whose elements share one schema.
    List(Box<Schema>),
    /// A record with a fixed set of named fields.
    Record(Vec<FieldSchema>),
}

/// One declared field of a record schema.
#[derive(Debug)]
pub struct FieldSchema {
    pub name: String,
    pub schema: Schema,
}

/// The mathematical shape of a [`Schema`].
pub enum SchemaV {
    Primitive,
    Register,
    List(Box<SchemaV>),
    Record(Seq<(Seq<char>, SchemaV)>),
}

/// The mathematical value of a schema.
pub open spec fn schema_view(s: Schema) -> SchemaV
    decreases s,
{
    match s {
        Schema::Primitive => SchemaV::Primitive,
        Schema::Register => SchemaV::Register,
        Schema::List(_) => SchemaV::List(Box::new(schema_view(*s->List_0))),
        Schema::Record(_) => SchemaV::Record(field_schema_views(s->Record_0@)),
    }
}

/// The mathematical values of record field schemas, elementwise.
pub open spec fn field_schema_views(s: Seq<FieldSchema>) -> Seq<(Seq<char>, SchemaV)>
    decreases s,
{
    if s.len() == 0 {
        Seq::empty()
    } else {
        seq![(s[0].name@, schema_view(s[0].schema))] + field_schema_views(s.drop_first())
    }
}

impl Schema {
    /// A copy describing the same shape.
    #[verifier::loop_isolation(false)]
    pub fn duplicate(&self) -> (r: Schema)
        ensures
            schema_view(r) == schema_view(*self),
        decreases self,
    {
        match self {
            Schema::Primitive => Schema::Primitive,
            Schema::Register => Schema::Register,
            Schema::List(inner) => Schema::List(Box::new(inner.duplicate())),
            Schema::Record(fields) => {
                let mut out: Vec<FieldSchema> = Vec::new();
                let mut i: usize = 0;
                while i < fields.len()
                    invariant
                        i <= fields@.len(),
                        out@.len() == i,
                        forall|j: int|
                            0 <= j < i ==> out@[j].name@ == fields@[j].name@ && schema_view(
                                out@[j].schema,
                            ) == schema_view(fields@[j].schema),
                    decreases fields@.len() - i,
                {
                    proof {
                        assert(decreases_to!(*self => self->Record_0@[i as int].schema));
                    }
                    let f = FieldSchema {
                        name: fields[i].name.clone(),
                        schema: fields[i].schema.duplicate(),
                    };
                    out.push(f);
                    i += 1;
                }
                let r = Schema::Record(out);
                proof {
                    lemma_field_schema_views(out@);
                    lemma_field_schema_views(fields@);
                    assert(field_schema_views(out@) =~= field_schema_views(fields@));
                }
                r
            },
        }
    }
}

/// `field_schema_views` maps elementwise.
pub proof fn lemma_field_schema_views(s: Seq<FieldSchema>)
    ensures
        field_schema_views(s).len() == s.len(),
        forall|i: int|
            0 <= i < s.len() ==> field_schema_views(s)[i] == (s[i].name@, schema_view(s[i].schema)),
    decreases s,
{
    if s.len() > 0 {
        lemma_field_schema_views(s.drop_first());
        assert forall|i: int| 0 <= i < s.len() implies field_schema_views(s)[i] == (
        s[i].name@,
        schema_view(s[i].schema),
        ) by {
            if i > 0 {
                assert(field_schema_views(s.drop_first())[i - 1] == (
                    s.drop_first()[i - 1].name@,
                    schema_view(s.drop_first()[i - 1].schema),
                ));
            }
        }
    }
}

/// Any CRDT node of a document: a bare value, a register, a list or a
/// record.
#[derive(Debug)]
pub enum Node {
    Primitive(Value),
    Register(LwwRegisterCrdt),
    List(ListCrdt),
    Record(RecordCrdt),
}

/// A record CRDT: a fixed-schema product of named fields, each itself a
/// CRDT node.
#[derive(Debug)]
pub struct RecordCrdt {
    /// Public key for this node.
    pub our_id: AuthorId,
    /// Path to this CRDT.
    pub path: Vec<PathSegment>,
    fields: Vec<RecordField>,
}

/// One field of a record.
#[derive(Debug)]
pub struct RecordField {
    pub name: String,
    pub node: Node,
}

/// The mathematical state of a [`Node`].
pub enum NodeV {
    Primitive(ValueV),
    Register(LwwM),
    List(ListM),
    Record(RecM),
}

/// The mathematical state of a [`RecordCrdt`].
#[verifier::ext_equal]
pub struct RecM {
    pub our_id: Seq<u8>,
    pub path: Seq<SegV>,
    pub fields: Seq<(Seq<char>, NodeV)>,
}

/// The mathematical state of a node.
pub open spec fn node_model(n: Node) -> NodeV
    decreases n,
{
    match n {
        Node::Primitive(v) => NodeV::Primitive(v@),
        Node::Register(r) => NodeV::Register(r.model()),
        Node::List(_) => NodeV::List(list_model(n->List_0)),
        Node::Record(_) => NodeV::Record(record_model(n->Record_0)),
    }
}

/// The mathematical state of a record.
pub closed spec fn record_model(r: RecordCrdt) -> RecM
    decreases r,
{
    RecM { our_id: r.our_id@, path: path_view(r.path@), fields: field_models(r.fields@) }
}

/// The mathematical states of record fields, elementwise.
pub open spec fn field_models(s: Seq<RecordField>) -> Seq<(Seq<char>, NodeV)>
    decreases s,
{
    if s.len() == 0 {
        Seq::empty()
    } else {
        seq![(s[0].name@, node_model(s[0].node))] + field_models(s.drop_first())
    }
}

/// The mathematical states of a sequence of node ops, elementwise.
pub open spec fn ops_model(s: Seq<Op<Node>>) -> Seq<OpM<NodeV>>
    decreases s,
{
    if s.len() == 0 {
        Seq::empty()
    } else {
        seq![node_op_model(s[0])] + ops_model(s.drop_first())
    }
}

/// The mathematical value of one node op.
pub open spec fn node_op_model(op: Op<Node>) -> OpM<NodeV>
    decreases op,
{
    OpM {
        origin: op.origin@,
        author: op.author@,
        seq: op.seq,
        content: match op.content {
            Some(_) => Some(node_model(op.content->0)),
            None => None,
        },
        path: path_view(op.path@),
        is_deleted: op.is_deleted,
        id: op.id@,
    }
}

/// `field_models` maps elementwise.
pub proof fn lemma_field_models(s: Seq<RecordField>)
    ensures
        field_models(s).len() == s.len(),
        forall|i: int|
            0 <= i < s.len() ==> field_models(s)[i] == (s[i].name@, node_model(s[i].node)),
    decreases s,
{
    if s.len() > 0 {
        lemma_field_models(s.drop_first());
        assert forall|i: int| 0 <= i < s.len() implies field_models(s)[i] == (
        s[i].name@,
        node_model(s[i].node),
        ) by {
            if i > 0 {
                assert(field_models(s.drop_first())[i - 1] == (
                    s.drop_first()[i - 1].name@,
                    node_model(s.drop_first()[i - 1].node),
                ));
            }
        }
    }
}

/// `ops_model` maps elementwise.
pub proof fn lemma_ops_model(s: Seq<Op<Node>>)
    ensures
        ops_model(s).len() == s.len(),
        forall|i: int| 0 <= i < s.len() ==> ops_model(s)[i] == node_op_model(s[i]),
    decreases s,
{
    if s.len() > 0 {
        lemma_ops_model(s.drop_first());
        assert forall|i: int| 0 <= i < s.len() implies ops_model(s)[i] == node_op_model(s[i]) by {
            if i > 0 {
                assert(ops_model(s.drop_first())[i - 1] == node_op_model(s.drop_first()[i - 1]));
            }
        }
    }
}

/// Look up the first entry with the given key.
pub open spec fn obj_get(entries: Seq<(Seq<char>, ValueV)>, key: Seq<char>) -> Option<ValueV>
    decreases entries,
{
    if entries.len() == 0 {
        None
    } else if entries[0].0 == key {
        Some(entries[0].1)
    } else {
        obj_get(entries.drop_first(), key)
    }
}

/// The register a conversion builds: a fresh register at the path, set once
/// to the value by the pseudo-author, keeping the root id.
pub open spec fn register_from_m(v: ValueV, author: Seq<u8>, path: Seq<SegV>) -> LwwM {
    LwwM {
        our_id: author,
        path: path,
        value: OpM {
            origin: crate::op::root_id_spec(),
            author: author,
            seq: 1,
            content: Some(v),
            path: path.push(
                SegV::Index(
                    crate::op::op_id_of(crate::op::root_id_spec(), author, 1, false, Some(v)),
                ),
            ),
            is_deleted: false,
            id: crate::op::root_id_spec(),
        },
        our_seq: 1,
    }
}

/// The node a JSON value converts to under a schema, `None` when the value
/// does not fit the schema. The conversion is a function of the value, the
/// schema, the pseudo-author id and the path alone, so every replica builds
/// the same node from the same op.
pub open spec fn node_from_m(
    v: ValueV,
    schema: SchemaV,
    author: Seq<u8>,
    path: Seq<SegV>,
) -> Option<NodeV>
    decreases schema, 0nat,
{
    match schema {
        SchemaV::Primitive => Some(NodeV::Primitive(v)),
        SchemaV::Register => Some(NodeV::Register(register_from_m(v, author, path))),
        SchemaV::List(elem) => match v {
            ValueV::Array(elems) => Some(
                NodeV::List(
                    ListM {
                        our_id: author,
                        path: path,
                        ops: seq![crate::op::root_op_m::<NodeV>()] + elem_chain_m(
                            elems,
                            *elem,
                            author,
                            path,
                            crate::op::root_id_spec(),
                            1,
                        ),
                        elem_schema: *elem,
                        pending: Seq::empty(),
                        our_seq: elems.len() as u64,
                    },
                ),
            ),
            _ => None,
        },
        SchemaV::Record(fields) => match v {
            ValueV::Object(entries) => match record_fields_from_m(fields, entries, author, path) {
                Some(fs) => Some(NodeV::Record(RecM { our_id: author, path: path, fields: fs })),
                None => None,
            },
            _ => None,
        },
    }
}

/// The chain of element ops a conversion builds for an array: each element
/// is anchored to the one before it, counters run upward, and each op's id
/// is the hash of its canonical fields.
pub open spec fn elem_chain_m(
    elems: Seq<ValueV>,
    elem_schema: SchemaV,
    author: Seq<u8>,
    path: Seq<SegV>,
    prev_id: Seq<u8>,
    seq_no: u64,
) -> Seq<OpM<NodeV>>
    decreases elem_schema, elems.len() + 1,
{
    if elems.len() == 0 {
        Seq::empty()
    } else {
        let id = crate::op::op_id_of(prev_id, author, seq_no, false, Some(elems[0]));
        let elem_path = path.push(SegV::Index(id));
        let op = OpM {
            origin: prev_id,
            author: author,
            seq: seq_no,
            content: match node_from_m(elems[0], elem_schema, id, elem_path) {
                Some(n) => Some(n),
                None => None,
            },
            path: elem_path,
            is_deleted: false,
            id: id,
        };
        seq![op] + elem_chain_m(elems.drop_first(), elem_schema, author, path, id, next_seq(seq_no))
    }
}

/// The field nodes a conversion builds for a record: each declared field is
/// looked up by name and converted under its own schema; a missing field or
/// a failing child fails the whole conversion.
pub open spec fn record_fields_from_m(
    fields: Seq<(Seq<char>, SchemaV)>,
    entries: Seq<(Seq<char>, ValueV)>,
    author: Seq<u8>,
    path: Seq<SegV>,
) -> Option<Seq<(Seq<char>, NodeV)>>
    decreases fields, 0nat,
{
    if fields.len() == 0 {
        Some(Seq::empty())
    } else {
        match obj_get(entries, fields[0].0) {
            None => None,
            Some(v) => match node_from_m(v, fields[0].1, author, path.push(SegV::Field(fields[0].0))) {
                None => None,
                Some(n) => match record_fields_from_m(fields.drop_first(), entries, author, path) {
                    None => None,
                    Some(rest) => Some(seq![(fields[0].0, n)] + rest),
                },
            },
        }
    }
}

/// A node is well formed when every list in it is, down to the leaves.
pub open spec fn node_wf(n: NodeV) -> bool
    decreases n,
{
    match n {
        NodeV::Primitive(_) => true,
        NodeV::Register(_) => true,
        NodeV::List(m) => crate::list_crdt::list_wf(m) && node_ops_wf(m.ops) && node_ops_wf(
            m.pending,
        ),
        NodeV::Record(r) => rec_fields_wf(r.fields),
    }
}

/// The well-formedness a list node carries: the list is well formed and
/// every node stored in its log or its queue is too.
pub open spec fn list_node_wf(m: ListM) -> bool {
    crate::list_crdt::list_wf(m) && node_ops_wf(m.ops) && node_ops_wf(m.pending)
}

/// The converted form of a wire op: the same record, its payload turned
/// into a node under the list's element schema (or dropped when it does not
/// fit).
pub open spec fn converted_op(op: OpM<ValueV>, es: SchemaV) -> OpM<NodeV> {
    OpM {
        origin: op.origin,
        author: op.author,
        seq: op.seq,
        content: match op.content {
            None => None,
            Some(v) => node_from_m(v, es, op.id, op.path),
        },
        path: op.path,
        is_deleted: op.is_deleted,
        id: op.id,
    }
}

/// Integrating one op keeps every stored node well formed, provided the
/// op's own payload is.
pub proof fn lemma_integrate_one_contents_wf(old: ListM, new: ListM, op: OpM<NodeV>, r: OpState)
    requires
        crate::list_crdt::integrate_one_post(old, new, op, r),
        node_ops_wf(old.ops),
        node_ops_wf(old.pending),
        match op.content {
            Some(n) => node_wf(n),
            None => true,
        },
    ensures
        node_ops_wf(new.ops),
        node_ops_wf(new.pending),
{
    lemma_node_ops_wf(old.ops);
    lemma_node_ops_wf(old.pending);
    lemma_node_ops_wf(new.ops);
    lemma_node_ops_wf(new.pending);
    match crate::list_crdt::find_index(old.ops, op.origin) {
        None => {
            assert forall|k: int| 0 <= k < new.pending.len() implies match (
            #[trigger] new.pending[k]).content {
                Some(n) => node_wf(n),
                None => true,
            } by {
                if k < old.pending.len() {
                    assert(new.pending[k] == old.pending[k]);
                } else {
                    assert(new.pending[k] == op);
                }
            }
        },
        Some(p) => {
            crate::list_crdt::lemma_find_from(old.ops, op.origin, 0);
            if op.is_deleted {
                assert forall|k: int| 0 <= k < new.ops.len() implies match (
                #[trigger] new.ops[k]).content {
                    Some(n) => node_wf(n),
                    None => true,
                } by {
                    assert(new.ops[k].content == old.ops[k].content);
                }
            } else if crate::list_crdt::find_index(old.ops, op.id) is Some {
            } else {
                let pos = crate::list_crdt::scan_pos(old.ops, op, p, p + 1);
                crate::list_crdt::lemma_scan_pos_range(old.ops, op, p, p + 1);
                old.ops.insert_ensures(pos, op);
                assert forall|k: int| 0 <= k < new.ops.len() implies match (
                #[trigger] new.ops[k]).content {
                    Some(n) => node_wf(n),
                    None => true,
                } by {
                    if k < pos {
                        assert(new.ops[k] == old.ops[k]);
                    } else if k == pos {
                        assert(new.ops[k] == op);
                    } else {
                        assert(new.ops[k] == old.ops[k - 1]);
                    }
                }
            }
        },
    }
}

/// Every node carried by these ops is well formed.
pub open spec fn node_ops_wf(ops: Seq<OpM<NodeV>>) -> bool
    decreases ops,
{
    if ops.len() == 0 {
        true
    } else {
        (match ops[0].content {
            Some(n) => node_wf(n),
            None => true,
        }) && node_ops_wf(ops.drop_first())
    }
}

/// Every field node is well formed.
pub open spec fn rec_fields_wf(fields: Seq<(Seq<char>, NodeV)>) -> bool
    decreases fields,
{
    if fields.len() == 0 {
        true
    } else {
        node_wf(fields[0].1) && rec_fields_wf(fields.drop_first())
    }
}

/// `node_ops_wf` is the elementwise condition.
pub proof fn lemma_node_ops_wf(ops: Seq<OpM<NodeV>>)
    ensures
        node_ops_wf(ops) <==> forall|k: int|
            0 <= k < ops.len() ==> match (#[trigger] ops[k]).content {
                Some(n) => node_wf(n),
                None => true,
            },
    decreases ops,
{
    if ops.len() > 0 {
        lemma_node_ops_wf(ops.drop_first());
        if node_ops_wf(ops) {
            assert forall|k: int| 0 <= k < ops.len() implies match (#[trigger] ops[k]).content {
                Some(n) => node_wf(n),
                None => true,
            } by {
                if k > 0 {
                    assert(ops.drop_first()[k - 1] == ops[k]);
                }
            }
        } else {
            if !(match ops[0].content {
                Some(n) => node_wf(n),
                None => true,
            }) {
            } else {
                let k = choose|k: int|
                    0 <= k < ops.drop_first().len() && !(match (#[trigger] ops.drop_first()[k]).content {
                        Some(n) => node_wf(n),
                        None => true,
                    });
                assert(ops[k + 1] == ops.drop_first()[k]);
            }
        }
    }
}

/// `rec_fields_wf` is the elementwise condition.
pub proof fn lemma_rec_fields_wf(fields: Seq<(Seq<char>, NodeV)>)
    ensures
        rec_fields_wf(fields) <==> forall|k: int|
            0 <= k < fields.len() ==> node_wf((#[trigger] fields[k]).1),
    decreases fields,
{
    if fields.len() > 0 {
        lemma_rec_fields_wf(fields.drop_first());
        if rec_fields_wf(fields) {
            assert forall|k: int| 0 <= k < fields.len() implies node_wf(
                (#[trigger] fields[k]).1,
            ) by {
                if k > 0 {
                    assert(fields.drop_first()[k - 1] == fields[k]);
                }
            }
        } else {
            if node_wf(fields[0].1) {
                let k = choose|k: int|
                    0 <= k < fields.drop_first().len() && !node_wf(
                        (#[trigger] fields.drop_first()[k]).1,
                    );
                assert(fields[k + 1] == fields.drop_first()[k]);
            }
        }
    }
}

/// Look up the first object entry with the given key.
#[verifier::loop_isolation(false)]
fn obj_lookup<'a>(entries: &'a Vec<(String, Value)>, key: &String) -> (r: Option<&'a Value>)
    ensures
        match r {
            Some(v) => obj_get(crate::value::entry_views_of(entries@), key@) == Some(v@),
            None => obj_get(crate::value::entry_views_of(entries@), key@) is None,
        },
{
    proof {
        crate::value::lemma_entry_views_of(entries@);
    }
    let ghost ev = crate::value::entry_views_of(entries@);
    proof {
        assert(ev.skip(0) =~= ev);
    }
    let mut j: usize = 0;
    while j < entries.len()
        invariant
            j <= entries@.len(),
            obj_get(ev, key@) == obj_get(ev.skip(j as int), key@),
        decreases entries@.len() - j,
    {
        proof {
            assert(ev.skip(j as int)[0] == ev[j as int]);
            assert(ev.skip(j as int).drop_first() =~= ev.skip(j + 1));
        }
        if entries[j].0 == *key {
            proof {
                assert(ev[j as int] == (entries@[j as int].0@, entries@[j as int].1@));
            }
            return Some(&entries[j].1);
        }
        j += 1;
    }
    proof {
        assert(ev.skip(entries@.len() as int).len() == 0);
    }
    None
}

/// The lamport counter after one more step, wrapping at the top.
pub open spec fn next_seq(n: u64) -> u64 {
    if n == u64::MAX {
        0
    } else {
        (n + 1) as u64
    }
}

impl Node {
    /// Fallibly build a CRDT node from a JSON value under a schema. The
    /// pseudo-author and the path come from the op that carried the value,
    /// so replicas converting the same op build identical nodes.
    pub fn node_from(value: Value, schema: &Schema, author: &AuthorId, path: &Vec<PathSegment>) -> (r: Option<
        Node,
    >)
        ensures
            match r {
                Some(n) => node_from_m(value@, schema_view(*schema), author@, path_view(path@))
                    == Some(node_model(n)) && node_wf(node_model(n)),
                None => node_from_m(value@, schema_view(*schema), author@, path_view(path@)) is None,
            },
        decreases *schema, 1nat,
    {
        match schema {
            Schema::Primitive => Some(Node::Primitive(value)),
            Schema::Register => Some(Node::Register(Node::register_from(value, author, path))),
            Schema::List(elem) => {
                proof {
                    assert(decreases_to!(*schema => *schema->List_0));
                }
                Node::list_from(value, elem, author, path)
            },
            Schema::Record(field_schemas) => {
                proof {
                    assert(decreases_to!(*schema => schema->Record_0));
                }
                Node::record_from(value, field_schemas, author, path)
            },
        }
    }

    /// Build the register a conversion yields: fresh at the path, set once.
    fn register_from(value: Value, author: &AuthorId, path: &Vec<PathSegment>) -> (r: LwwRegisterCrdt)
        ensures
            r.model() == register_from_m(value@, author@, path_view(path@)),
    {
        let mut reg = LwwRegisterCrdt::new(
            crate::op::copy_bytes(author),
            crate::op::copy_path(path),
        );
        let _ = reg.set(value);
        proof {
            assert(reg.model() =~= register_from_m(value@, author@, path_view(path@)));
        }
        reg
    }

    /// Build the list a conversion yields from a JSON array: one element op
    /// per entry, each anchored to the one before it.
    #[verifier::loop_isolation(false)]
    #[verifier::rlimit(100)]
    fn list_from(value: Value, elem: &Box<Schema>, author: &AuthorId, path: &Vec<PathSegment>) -> (r: Option<
        Node,
    >)
        ensures
            match r {
                Some(n) => node_from_m(
                    value@,
                    SchemaV::List(Box::new(schema_view(**elem))),
                    author@,
                    path_view(path@),
                ) == Some(node_model(n)) && node_wf(node_model(n)),
                None => node_from_m(
                    value@,
                    SchemaV::List(Box::new(schema_view(**elem))),
                    author@,
                    path_view(path@),
                ) is None,
            },
        decreases **elem, 2nat,
    {
        match value {
            Value::Array(mut arr) => {
                let ghost elems0 = crate::value::views_of(arr@);
                let ghost pathv = path_view(path@);
                let ghost es = schema_view(**elem);
                proof {
                    crate::value::lemma_views_of(arr@);
                }
                let n0 = arr.len();
                let mut list = ListCrdt::new_with_schema(
                    crate::op::copy_bytes(author),
                    crate::op::copy_path(path),
                    elem.duplicate(),
                );
                let mut prev_id = crate::op::root_id();
                let mut seq_no: u64 = 1;
                let mut k: usize = 0;
                proof {
                    assert(elems0.skip(0) =~= elems0);
                    lemma_node_ops_wf(list.model().ops);
                }
                while k < n0
                    invariant
                        k <= n0,
                        arr@.len() == n0 - k,
                        crate::value::views_of(arr@) == elems0.skip(k as int),
                        elems0.len() == n0,
                        seq![crate::op::root_op_m::<NodeV>()] + elem_chain_m(
                            elems0,
                            es,
                            author@,
                            pathv,
                            crate::op::root_id_spec(),
                            1,
                        ) == list.model().ops + elem_chain_m(
                            elems0.skip(k as int),
                            es,
                            author@,
                            pathv,
                            prev_id@,
                            seq_no,
                        ),
                        list.model().ops.len() >= 1,
                        list.model().ops[0] == crate::op::root_op_m::<NodeV>(),
                        prev_id@ == list.model().ops.last().id,
                        forall|j: int|
                            1 <= j < list.model().ops.len() ==> (#[trigger] list.model().ops[j]).origin
                                == list.model().ops[j - 1].id,
                        node_ops_wf(list.model().ops),
                        list.model().pending == Seq::<OpM<NodeV>>::empty(),
                        list.model().our_id == author@,
                        list.model().path == pathv,
                        list.model().elem_schema == es,
                    decreases n0 - k,
                {
                    let ghost arr_before = arr@;
                    let child = arr.remove(0);
                    let child2 = child.duplicate();
                    proof {
                        crate::value::lemma_views_of(arr_before);
                        crate::value::lemma_views_of(arr@);
                        assert(arr@ =~= arr_before.drop_first());
                        assert(child@ == crate::value::views_of(arr_before)[0]);
                        assert(crate::value::views_of(arr@) =~= crate::value::views_of(
                            arr_before,
                        ).drop_first()) by {
                            assert forall|j: int|
                                0 <= j < arr@.len() implies crate::value::views_of(arr@)[j]
                                == crate::value::views_of(arr_before).drop_first()[j] by {
                                assert(arr@[j] == arr_before[j + 1]);
                            }
                        }
                        assert(crate::value::views_of(arr@) =~= elems0.skip(k as int).drop_first());
                        assert(elems0.skip(k as int).drop_first() =~= elems0.skip(k + 1));
                        assert(elems0.skip(k as int)[0] == elems0[k as int]);
                        assert(child@ == elems0[k as int]);
                    }
                    let op = Op::<Value>::new(
                        prev_id,
                        crate::op::copy_bytes(author),
                        seq_no,
                        false,
                        Some(child),
                        crate::op::copy_path(path),
                    );
                    let elem_path = crate::op::join_path(
                        crate::op::copy_path(path),
                        PathSegment::Index(crate::op::copy_bytes(&op.id)),
                    );
                    let node = Node::node_from(child2, &**elem, &op.id, &elem_path);
                    let next_prev = crate::op::copy_bytes(&op.id);
                    let nop = Op::<Node> {
                        origin: op.origin,
                        author: op.author,
                        seq: op.seq,
                        content: node,
                        path: elem_path,
                        is_deleted: false,
                        id: op.id,
                    };
                    let ghost old_ops = list.model().ops;
                    let ghost old_seq_no = seq_no;
                    list.push_tail(nop);
                    prev_id = next_prev;
                    seq_no = if seq_no == u64::MAX {
                        0
                    } else {
                        seq_no + 1
                    };
                    k += 1;
                    proof {
                        lemma_node_ops_wf(old_ops);
                        lemma_node_ops_wf(list.model().ops);
                        assert(seq_no == next_seq(old_seq_no));
                        assert(list.model().ops == old_ops.push(node_op_model(nop)));
                        assert(elem_chain_m(
                            elems0.skip(k - 1),
                            es,
                            author@,
                            pathv,
                            old_ops.last().id,
                            old_seq_no,
                        ) == seq![node_op_model(nop)] + elem_chain_m(
                            elems0.skip(k as int),
                            es,
                            author@,
                            pathv,
                            prev_id@,
                            seq_no,
                        ));
                        assert(seq![crate::op::root_op_m::<NodeV>()] + elem_chain_m(
                            elems0,
                            es,
                            author@,
                            pathv,
                            crate::op::root_id_spec(),
                            1,
                        ) =~= list.model().ops + elem_chain_m(
                            elems0.skip(k as int),
                            es,
                            author@,
                            pathv,
                            prev_id@,
                            seq_no,
                        ));
                    }
                }
                list.set_seq(n0 as u64);
                proof {
                    assert(elems0.skip(n0 as int).len() == 0);
                    assert(elem_chain_m(elems0.skip(n0 as int), es, author@, pathv, prev_id@, seq_no)
                        =~= Seq::<OpM<NodeV>>::empty());
                    assert(list.model().ops =~= seq![crate::op::root_op_m::<NodeV>()] + elem_chain_m(
                        elems0,
                        es,
                        author@,
                        pathv,
                        crate::op::root_id_spec(),
                        1,
                    ));
                    assert(value@ == ValueV::Array(elems0));
                    assert(*Box::new(es) == es);
                    assert(list.model() =~= (ListM {
                        our_id: author@,
                        path: pathv,
                        ops: seq![crate::op::root_op_m::<NodeV>()] + elem_chain_m(
                            elems0,
                            es,
                            author@,
                            pathv,
                            crate::op::root_id_spec(),
                            1,
                        ),
                        elem_schema: es,
                        pending: Seq::empty(),
                        our_seq: elems0.len() as u64,
                    }));
                    assert(node_from_m(
                        value@,
                        SchemaV::List(Box::new(schema_view(**elem))),
                        author@,
                        pathv,
                    ) == Some(NodeV::List(list.model())));
                    assert(node_wf(NodeV::List(list.model()))) by {
                        lemma_list_from_wf(list.model());
                    }
                }
                Some(Node::List(list))
            },
            _ => None,
        }
    }

    /// Build the record a conversion yields from a JSON object: each
    /// declared field is looked up by name and converted under its schema.
    #[verifier::loop_isolation(false)]
    #[verifier::rlimit(100)]
    fn record_from(
        value: Value,
        field_schemas: &Vec<FieldSchema>,
        author: &AuthorId,
        path: &Vec<PathSegment>,
    ) -> (r: Option<Node>)
        ensures
            match r {
                Some(n) => node_from_m(
                    value@,
                    SchemaV::Record(field_schema_views(field_schemas@)),
                    author@,
                    path_view(path@),
                ) == Some(node_model(n)) && node_wf(node_model(n)),
                None => node_from_m(
                    value@,
                    SchemaV::Record(field_schema_views(field_schemas@)),
                    author@,
                    path_view(path@),
                ) is None,
            },
        decreases *field_schemas, 2nat,
    {
        match value {
            Value::Object(entries) => {
                let ghost fsv = field_schema_views(field_schemas@);
                let ghost ev = crate::value::entry_views_of(entries@);
                let ghost pathv = path_view(path@);
                proof {
                    lemma_field_schema_views(field_schemas@);
                    crate::value::lemma_entry_views_of(entries@);
                }
                let mut fields: Vec<RecordField> = Vec::new();
                let mut i: usize = 0;
                proof {
                    assert(fsv.skip(0) =~= fsv);
                    assert(field_models(fields@) =~= Seq::<(Seq<char>, NodeV)>::empty());
                    let ro = record_fields_from_m(fsv, ev, author@, pathv);
                    if ro is Some {
                        assert(field_models(fields@) + ro->Some_0 =~= ro->Some_0);
                    }
                }
                while i < field_schemas.len()
                    invariant
                        i <= field_schemas@.len(),
                        fields@.len() == i,
                        record_fields_from_m(fsv, ev, author@, pathv) == (match
                            record_fields_from_m(fsv.skip(i as int), ev, author@, pathv) {
                            Some(rest) => Some(field_models(fields@) + rest),
                            None => None::<Seq<(Seq<char>, NodeV)>>,
                        }),
                        rec_fields_wf(field_models(fields@)),
                    decreases field_schemas@.len() - i,
                {
                    proof {
                        assert(fsv.skip(i as int)[0] == fsv[i as int]);
                        assert(fsv.skip(i as int).drop_first() =~= fsv.skip(i + 1));
                    }
                    let name = &field_schemas[i].name;
                    let looked = obj_lookup(&entries, name);
                    let child = match looked {
                        Some(v) => v.duplicate(),
                        None => {
                            return None;
                        },
                    };
                    let child_path = crate::op::join_path(
                        crate::op::copy_path(path),
                        PathSegment::Field(name.clone()),
                    );
                    proof {
                        assert(decreases_to!(*field_schemas => field_schemas@[i as int].schema));
                    }
                    let node = match Node::node_from(
                        child,
                        &field_schemas[i].schema,
                        author,
                        &child_path,
                    ) {
                        Some(n) => n,
                        None => {
                            return None;
                        },
                    };
                    let ghost old_fields = fields@;
                    fields.push(RecordField { name: name.clone(), node });
                    i += 1;
                    proof {
                        lemma_field_models_push(old_fields, fields@[i - 1]);
                        lemma_rec_fields_wf(field_models(old_fields));
                        lemma_rec_fields_wf(field_models(fields@));
                        assert(field_models(old_fields) + seq![
                            (fsv[i - 1].0, field_models(fields@).last().1),
                        ] =~= field_models(fields@));
                        assert(record_fields_from_m(fsv, ev, author@, pathv) == (match
                            record_fields_from_m(fsv.skip(i as int), ev, author@, pathv) {
                            Some(rest) => Some(field_models(fields@) + rest),
                            None => None::<Seq<(Seq<char>, NodeV)>>,
                        })) by {
                            let rest_opt = record_fields_from_m(fsv.skip(i as int), ev, author@, pathv);
                            if rest_opt is Some {
                                let rest = rest_opt->Some_0;
                                assert(field_models(old_fields) + (seq![
                                    (fsv[i - 1].0, field_models(fields@).last().1),
                                ] + rest) =~= field_models(fields@) + rest);
                            }
                        }
                    }
                }
                let rec = RecordCrdt {
                    our_id: crate::op::copy_bytes(author),
                    path: crate::op::copy_path(path),
                    fields,
                };
                proof {
                    assert(fsv.skip(field_schemas@.len() as int).len() == 0);
                    assert(record_fields_from_m(fsv, ev, author@, pathv) == Some(
                        field_models(rec.fields@) + Seq::<(Seq<char>, NodeV)>::empty(),
                    ));
                    assert(field_models(rec.fields@) + Seq::<(Seq<char>, NodeV)>::empty()
                        =~= field_models(rec.fields@));
                    assert(node_from_m(
                        value@,
                        SchemaV::Record(field_schema_views(field_schemas@)),
                        author@,
                        pathv,
                    ) == Some(node_model(Node::Record(rec))));
                }
                Some(Node::Record(rec))
            },
            _ => None,
        }
    }
}

/// `field_models` distributes over push.
pub proof fn lemma_field_models_push(s: Seq<RecordField>, f: RecordField)
    ensures
        field_models(s.push(f)) == field_models(s) + seq![(f.name@, node_model(f.node))],
    decreases s,
{
    if s.len() == 0 {
        assert(s.push(f)[0] == f);
        assert(s.push(f).drop_first() =~= Seq::<RecordField>::empty());
        assert(field_models(s.push(f)) == seq![(f.name@, node_model(f.node))] + field_models(
            Seq::<RecordField>::empty(),
        ));
        assert(seq![(f.name@, node_model(f.node))] + field_models(Seq::<RecordField>::empty())
            =~= field_models(s) + seq![(f.name@, node_model(f.node))]);
    } else {
        lemma_field_models_push(s.drop_first(), f);
        assert(s.push(f)[0] == s[0]);
        assert(s.push(f).drop_first() =~= s.drop_first().push(f));
        assert(seq![(s[0].name@, node_model(s[0].node))] + (field_models(s.drop_first()) + seq![
            (f.name@, node_model(f.node)),
        ]) =~= field_models(s) + seq![(f.name@, node_model(f.node))]);
    }
}

/// A list built by a conversion chain is well formed: each element's anchor
/// is the op before it.
pub proof fn lemma_list_from_wf(m: ListM)
    requires
        m.ops.len() >= 1,
        m.ops[0] == crate::op::root_op_m::<NodeV>(),
        forall|j: int| 1 <= j < m.ops.len() ==> (#[trigger] m.ops[j]).origin == m.ops[j - 1].id,
        m.pending.len() == 0,
        node_ops_wf(m.ops),
    ensures
        node_wf(NodeV::List(m)),
{
    assert forall|k: int| 0 <= k < m.ops.len() implies (#[trigger] crate::list_crdt::find_index(
        m.ops,
        m.ops[k].origin,
    )) is Some by {
        crate::list_crdt::lemma_find_from_exists(m.ops, m.ops[k].origin, 0);
        if k == 0 {
            assert(m.ops[0].id == m.ops[0].origin);
        } else {
            assert(m.ops[k - 1].id == m.ops[k].origin);
        }
    }
}

/// Two node ops carry the same record apart from their payload slot.
pub open spec fn same_meta(a: OpM<NodeV>, b: OpM<NodeV>) -> bool {
    &&& a.origin == b.origin
    &&& a.author == b.author
    &&& a.seq == b.seq
    &&& a.path == b.path
    &&& a.is_deleted == b.is_deleted
    &&& a.id == b.id
}

/// What applying a wire op does to a list: a hash-invalid op is rejected; a
/// foreign path is rejected; an op one segment below the list is converted
/// and integrated; a deeper op is routed into the element its index segment
/// names, which takes the op while every other log entry stays as it was.
pub open spec fn list_apply_post(old: ListM, new: ListM, op: OpM<ValueV>, r: OpState) -> bool
    decreases old, 2nat,
{
    let direct = op.path.len() <= old.path.len() + 1;
    let seg = op.path[old.path.len() as int];
    &&& (!crate::op::op_hash_ok(op) ==> new == old && r == OpState::ErrHashMismatch)
    &&& (crate::op::op_hash_ok(op) && !crate::op::is_subpath(old.path, op.path) ==> new == old && r
        == OpState::ErrPathMismatch)
    &&& (crate::op::op_hash_ok(op) && crate::op::is_subpath(old.path, op.path) && direct
        ==> crate::list_crdt::integrate_post(old, new, converted_op(op, old.elem_schema), r))
    &&& (crate::op::op_hash_ok(op) && crate::op::is_subpath(old.path, op.path) && !direct ==> {
        &&& new.our_id == old.our_id
        &&& new.path == old.path
        &&& new.elem_schema == old.elem_schema
        &&& new.pending == old.pending
        &&& new.our_seq == old.our_seq
        &&& new.ops.len() == old.ops.len()
        &&& (!(seg is Index) ==> new == old && r == OpState::ErrPathMismatch)
        &&& (seg matches SegV::Index(target) ==> match crate::list_crdt::find_index(
            old.ops,
            target,
        ) {
            None => new == old && r == OpState::ErrPathMismatch,
            Some(idx) => {
                &&& 0 <= idx < old.ops.len()
                &&& (forall|k: int|
                    0 <= k < old.ops.len() && k != idx ==> #[trigger] new.ops[k] == old.ops[k])
                &&& same_meta(new.ops[idx], old.ops[idx])
                &&& (old.ops[idx].content is None ==> new == old && r
                    == OpState::ErrListApplyToEmpty)
                &&& (old.ops[idx].content matches Some(child) ==> new.ops[idx].content matches Some(
                    new_child,
                ) && node_apply_rel(child, new_child, op, r))
            },
        })
    })
}

/// The first field with the given name, scanning from `i`.
pub open spec fn field_find_from(
    fields: Seq<(Seq<char>, NodeV)>,
    name: Seq<char>,
    i: int,
) -> Option<int>
    decreases fields.len() - i,
{
    if i < 0 || i >= fields.len() {
        None
    } else if fields[i].0 == name {
        Some(i)
    } else {
        field_find_from(fields, name, i + 1)
    }
}

/// The first field with the given name.
pub open spec fn field_find(fields: Seq<(Seq<char>, NodeV)>, name: Seq<char>) -> Option<int> {
    field_find_from(fields, name, 0)
}

/// What `field_find` returns is in range, named right and first.
pub proof fn lemma_field_find_from(fields: Seq<(Seq<char>, NodeV)>, name: Seq<char>, i: int)
    requires
        0 <= i <= fields.len(),
    ensures
        match field_find_from(fields, name, i) {
            Some(j) => i <= j < fields.len() && fields[j].0 == name && forall|k: int|
                i <= k < j ==> fields[k].0 != name,
            None => forall|k: int| i <= k < fields.len() ==> fields[k].0 != name,
        },
    decreases fields.len() - i,
{
    if i < fields.len() && fields[i].0 != name {
        lemma_field_find_from(fields, name, i + 1);
    }
}

/// What applying a wire op does to a record: a foreign path is rejected, an
/// op addressed at the record itself is refused, and otherwise the op is
/// dispatched to the field its next segment names, every other field
/// untouched.
pub open spec fn record_apply_rel(old: RecM, new: RecM, op: OpM<ValueV>, r: OpState) -> bool
    decreases old, 2nat,
{
    let seg = op.path[old.path.len() as int];
    &&& RecordCrdt::same_shape(old, new)
    &&& (!crate::op::is_subpath(old.path, op.path) ==> new == old && r == OpState::ErrPathMismatch)
    &&& (crate::op::is_subpath(old.path, op.path) && op.path.len() == old.path.len() ==> new == old
        && r == OpState::ErrApplyOnStruct)
    &&& (crate::op::is_subpath(old.path, op.path) && op.path.len() > old.path.len() ==> {
        &&& (!(seg is Field) ==> new == old && r == OpState::ErrPathMismatch)
        &&& (seg matches SegV::Field(name) ==> match field_find(old.fields, name) {
            None => new == old && r == OpState::ErrPathMismatch,
            Some(i) => {
                &&& 0 <= i < old.fields.len()
                &&& (forall|k: int|
                    0 <= k < old.fields.len() && k != i ==> #[trigger] new.fields[k]
                        == old.fields[k])
                &&& new.fields[i].0 == old.fields[i].0
                &&& node_apply_rel(old.fields[i].1, new.fields[i].1, op, r)
            },
        })
    })
}

/// What applying one op does to a node, variant by variant: a primitive
/// refuses it, a register takes the last-writer-wins step, a list follows
/// the list discipline, a record dispatches to the named field; a
/// hash-invalid op never changes anything and is never reported applied.
pub open spec fn node_apply_rel(old: NodeV, new: NodeV, op: OpM<ValueV>, r: OpState) -> bool
    decreases old, 3nat,
{
    &&& (!crate::op::op_hash_ok(op) ==> new == old && r != OpState::Applied && r
        != OpState::MissingCausalDependencies)
    &&& (old is Primitive ==> new == old && r == OpState::ErrApplyOnPrimitive)
    &&& (old matches NodeV::Register(s) ==> new == NodeV::Register(crate::lww_crdt::lww_apply(s, op))
        && r == (if crate::op::op_hash_ok(op) {
        OpState::Applied
    } else {
        OpState::ErrHashMismatch
    }))
    &&& (old matches NodeV::List(m) ==> new is List && list_apply_post(m, new->List_0, op, r))
    &&& (old matches NodeV::Record(rm) ==> new is Record && record_apply_rel(
        rm,
        new->Record_0,
        op,
        r,
    ))
}

/// Convert a wire op into a node op under the given element schema. The
/// payload becomes a node, or is dropped when it does not fit the schema;
/// everything else is carried over.
pub fn op_into_node(op: Op<Value>, schema: &Schema) -> (r: Op<Node>)
    ensures
        node_op_model(r) == converted_op(op@, schema_view(*schema)),
        match node_op_model(r).content {
            Some(n) => node_wf(n),
            None => true,
        },
{
    let Op { origin, author, seq, content, path, is_deleted, id } = op;
    let node = match content {
        None => None,
        Some(v) => Node::node_from(v, schema, &id, &path),
    };
    let r = Op { origin, author, seq, content: node, path, is_deleted, id };
    proof {
        assert(node_op_model(r) =~= converted_op(op@, schema_view(*schema)));
    }
    r
}

impl RecordCrdt {
    /// The well-known facts of a record's shape that applying an op keeps.
    pub open spec fn same_shape(old: RecM, new: RecM) -> bool {
        &&& new.our_id == old.our_id
        &&& new.path == old.path
        &&& new.fields.len() == old.fields.len()
        &&& forall|k: int| 0 <= k < old.fields.len() ==> (#[trigger] new.fields[k]).0
            == old.fields[k].0
    }

    /// Route an op to the record field its path names. Applying at the
    /// record's own path is refused: records have no scalar identity.
    #[verifier::loop_isolation(false)]
    pub fn apply(&mut self, op: Op<Value>) -> (r: OpState)
        requires
            rec_fields_wf(record_model(*old(self)).fields),
        ensures
            rec_fields_wf(record_model(*final(self)).fields),
            record_apply_rel(record_model(*old(self)), record_model(*final(self)), op@, r),
            !crate::op::op_hash_ok(op@) ==> record_model(*final(self)) == record_model(
                *old(self),
            ) && r != OpState::Applied && r != OpState::MissingCausalDependencies,
        decreases *old(self), 1nat,
    {
        proof {
            lemma_field_models(self.fields@);
            lemma_rec_fields_wf(record_model(*self).fields);
        }
        if !crate::op::ensure_subpath(&self.path, &op.path) {
            return OpState::ErrPathMismatch;
        }
        if op.path.len() == self.path.len() {
            return OpState::ErrApplyOnStruct;
        }
        let ghost m0 = record_model(*self);
        proof {
            assert(path_view(op.path@)[m0.path.len() as int] == op.path@[m0.path.len() as int]@);
        }
        let seg_idx = self.path.len();
        match &op.path[seg_idx] {
            PathSegment::Field(name) => {
                let mut i: usize = 0;
                let n = self.fields.len();
                loop
                    invariant
                        i <= n,
                        n == self.fields@.len(),
                        *self == *old(self),
                        forall|j: int| 0 <= j < i ==> m0.fields[j].0 != name@,
                    decreases n - i,
                {
                    if i >= n {
                        break ;
                    }
                    if self.fields[i].name == *name {
                        let ghost old_fields = self.fields@;
                        proof {
                            assert(old(self).fields@ == old_fields);
                            assert(decreases_to!(*old(self), 1nat => old(self).fields@[i as int].node, 2nat));
                            assert(field_models(old_fields)[i as int] == (
                                old_fields[i as int].name@,
                                node_model(old_fields[i as int].node),
                            ));
                            assert(node_wf(node_model(old_fields[i as int].node)));
                        }
                        proof {
                            assert(m0.fields[i as int].0 == name@);
                            lemma_field_find_from(m0.fields, name@, 0);
                            assert(field_find(m0.fields, name@) == Some(i as int)) by {
                                match field_find(m0.fields, name@) {
                                    None => {
                                        assert(m0.fields[i as int].0 != name@);
                                    },
                                    Some(j) => {
                                        if j < i as int {
                                            assert(m0.fields[j].0 != name@);
                                        } else if j > i as int {
                                            assert(m0.fields[i as int].0 != name@);
                                        }
                                    },
                                }
                            }
                        }
                        let field = &mut self.fields[i];
                        let node = &mut field.node;
                        let r = node.apply(op);
                        proof {
                            lemma_field_models(self.fields@);
                            lemma_field_models(old_fields);
                            lemma_rec_fields_wf(field_models(self.fields@));
                            lemma_rec_fields_wf(field_models(old_fields));
                            assert(forall|k: int|
                                0 <= k < self.fields@.len() && k != i as int
                                    ==> self.fields@[k] == old_fields[k]);
                            assert(self.fields@[i as int].name@ == old_fields[i as int].name@);
                            assert(node_wf(node_model(self.fields@[i as int].node)));
                            assert forall|k: int|
                                0 <= k < field_models(self.fields@).len() implies node_wf(
                                (#[trigger] field_models(self.fields@)[k]).1,
                            ) by {
                                if k != i as int {
                                    assert(field_models(old_fields)[k] == (
                                        old_fields[k].name@,
                                        node_model(old_fields[k].node),
                                    ));
                                    assert(node_wf(node_model(old_fields[k].node)));
                                }
                            }
                            assert forall|k: int|
                                0 <= k < m0.fields.len() && k != i as int implies (
                            #[trigger] record_model(*self).fields[k]) == m0.fields[k] by {
                                assert(field_models(self.fields@)[k] == (
                                    self.fields@[k].name@,
                                    node_model(self.fields@[k].node),
                                ));
                                assert(field_models(old_fields)[k] == (
                                    old_fields[k].name@,
                                    node_model(old_fields[k].node),
                                ));
                            }
                            assert(record_model(*self).fields[i as int].1 == node_model(
                                self.fields@[i as int].node,
                            ));
                            assert(m0.fields[i as int].1 == node_model(old_fields[i as int].node));
                            if !crate::op::op_hash_ok(op@) {
                                assert(field_models(self.fields@) =~= field_models(old_fields));
                                assert(record_model(*self) =~= m0);
                            }
                        }
                        return r;
                    }
                    i += 1;
                }
                proof {
                    lemma_field_find_from(m0.fields, name@, 0);
                    assert(field_find(m0.fields, name@) is None) by {
                        let ff = field_find(m0.fields, name@);
                        if ff is Some {
                            assert(m0.fields[ff->Some_0].0 != name@);
                        }
                    }
                }
                OpState::ErrPathMismatch
            },
            PathSegment::Index(_) => OpState::ErrPathMismatch,
        }
    }
}

impl Node {
    /// Apply an operation to this node, forwarding it along its path.
    pub fn apply(&mut self, op: Op<Value>) -> (r: OpState)
        requires
            node_wf(node_model(*old(self))),
        ensures
            node_wf(node_model(*final(self))),
            node_apply_rel(node_model(*old(self)), node_model(*final(self)), op@, r),
        decreases *old(self), 2nat,
    {
        match self {
            Node::Primitive(_) => OpState::ErrApplyOnPrimitive,
            Node::Register(reg) => reg.apply(op),
            Node::List(list) => {
                proof {
                    assert(decreases_to!(*old(self), 2nat => *list, 0nat));
                }
                list.apply(op)
            },
            Node::Record(rec) => {
                proof {
                    assert(decreases_to!(*old(self), 2nat => *rec, 1nat));
                }
                rec.apply(op)
            },
        }
    }
}

/// What a node shows: a primitive its value, a register its content (null
/// if never set), a list the values of its live elements in integration
/// order, a record an object of its field views.
pub open spec fn node_view_m(n: NodeV) -> ValueV
    decreases n,
{
    match n {
        NodeV::Primitive(v) => v,
        NodeV::Register(s) => match s.value.content {
            Some(v) => v,
            None => ValueV::Null,
        },
        NodeV::List(m) => ValueV::Array(live_views_m(m.ops)),
        NodeV::Record(r) => ValueV::Object(field_views_m(r.fields)),
    }
}

/// The views of the live list elements: ops not marked deleted that carry
/// content, in log order.
pub open spec fn live_views_m(ops: Seq<OpM<NodeV>>) -> Seq<ValueV>
    decreases ops,
{
    if ops.len() == 0 {
        Seq::empty()
    } else if !ops[0].is_deleted && ops[0].content is Some {
        seq![node_view_m(ops[0].content->0)] + live_views_m(ops.drop_first())
    } else {
        live_views_m(ops.drop_first())
    }
}

/// The views of a record's fields, in declaration order.
pub open spec fn field_views_m(fields: Seq<(Seq<char>, NodeV)>) -> Seq<(Seq<char>, ValueV)>
    decreases fields,
{
    if fields.len() == 0 {
        Seq::empty()
    } else {
        seq![(fields[0].0, node_view_m(fields[0].1))] + field_views_m(fields.drop_first())
    }
}

impl Node {
    /// A JSON representation of the value in this node.
    #[verifier::loop_isolation(false)]
    #[verifier::rlimit(60)]
    pub fn view(&self) -> (r: Value)
        ensures
            r@ == node_view_m(node_model(*self)),
        decreases *self, 1nat,
    {
        match self {
            Node::Primitive(v) => v.duplicate(),
            Node::Register(reg) => match reg.view() {
                Some(v) => v,
                None => Value::Null,
            },
            Node::List(list) => {
                proof {
                    assert(decreases_to!(*self, 1nat => *list, 0nat));
                }
                let elems = list.view();
                proof {
                    crate::value::lemma_views_of(elems@);
                    assert(crate::value::views_of(elems@) == live_views_m(list.model().ops));
                }
                Value::Array(elems)
            },
            Node::Record(rec) => {
                let ghost fm = field_models(rec.fields@);
                proof {
                    lemma_field_models(rec.fields@);
                    assert(fm.skip(0) =~= fm);
                }
                let mut out: Vec<(String, Value)> = Vec::new();
                let mut i: usize = 0;
                while i < rec.fields.len()
                    invariant
                        i <= rec.fields@.len(),
                        field_views_m(fm) == crate::value::entry_views_of(out@) + field_views_m(
                            fm.skip(i as int),
                        ),
                    decreases rec.fields@.len() - i,
                {
                    proof {
                        assert(fm.skip(i as int)[0] == fm[i as int]);
                        assert(fm.skip(i as int).drop_first() =~= fm.skip(i + 1));
                        assert(decreases_to!(*self, 1nat => rec.fields@[i as int].node, 1nat));
                    }
                    let ghost old_out = out@;
                    let name = rec.fields[i].name.clone();
                    let v = rec.fields[i].node.view();
                    out.push((name, v));
                    i += 1;
                    proof {
                        crate::value::lemma_entry_views_of(old_out);
                        crate::value::lemma_entry_views_of(out@);
                        assert(crate::value::entry_views_of(out@) =~= crate::value::entry_views_of(
                            old_out,
                        ) + seq![(fm[i - 1].0, node_view_m(fm[i - 1].1))]) by {
                            assert forall|j: int|
                                0 <= j < out@.len() implies crate::value::entry_views_of(out@)[j]
                                == (crate::value::entry_views_of(old_out) + seq![
                                (fm[i - 1].0, node_view_m(fm[i - 1].1)),
                            ])[j] by {
                                if j < old_out.len() {
                                    assert(out@[j] == old_out[j]);
                                }
                            }
                        }
                        assert(field_views_m(fm) =~= crate::value::entry_views_of(out@)
                            + field_views_m(fm.skip(i as int)));
                    }
                }
                proof {
                    assert(fm.skip(rec.fields@.len() as int).len() == 0);
                    assert(field_views_m(fm) =~= crate::value::entry_views_of(out@));
                }
                Value::Object(out)
            },
        }
    }

    /// Create a fresh node of the given shape rooted at the given path.
    #[verifier::loop_isolation(false)]
    pub fn new(schema: &Schema, id: &AuthorId, path: &Vec<PathSegment>) -> (r: Node)
        ensures
            node_model(r) == node_new_m(schema_view(*schema), id@, path_view(path@)),
            node_wf(node_model(r)),
        decreases *schema, 1nat,
    {
        match schema {
            Schema::Primitive => Node::Primitive(Value::Null),
            Schema::Register => Node::Register(
                LwwRegisterCrdt::new(crate::op::copy_bytes(id), crate::op::copy_path(path)),
            ),
            Schema::List(elem) => {
                let list = ListCrdt::new_with_schema(
                    crate::op::copy_bytes(id),
                    crate::op::copy_path(path),
                    elem.duplicate(),
                );
                proof {
                    lemma_node_ops_wf(list.model().ops);
                    assert(crate::list_crdt::find_from(
                        list.model().ops,
                        crate::op::root_id_spec(),
                        0,
                    ) == Some(0int));
                }
                Node::List(list)
            },
            Schema::Record(field_schemas) => {
                let ghost fsv = field_schema_views(field_schemas@);
                proof {
                    lemma_field_schema_views(field_schemas@);
                    assert(fsv.skip(0) =~= fsv);
                    assert(field_models(Seq::<RecordField>::empty())
                        + new_fields_m(fsv, id@, path_view(path@)) =~= new_fields_m(
                        fsv,
                        id@,
                        path_view(path@),
                    ));
                }
                let mut fields: Vec<RecordField> = Vec::new();
                let mut i: usize = 0;
                while i < field_schemas.len()
                    invariant
                        i <= field_schemas@.len(),
                        fields@.len() == i,
                        new_fields_m(fsv, id@, path_view(path@)) == field_models(fields@)
                            + new_fields_m(fsv.skip(i as int), id@, path_view(path@)),
                        rec_fields_wf(field_models(fields@)),
                    decreases field_schemas@.len() - i,
                {
                    proof {
                        assert(fsv.skip(i as int)[0] == fsv[i as int]);
                        assert(fsv.skip(i as int).drop_first() =~= fsv.skip(i + 1));
                        assert(decreases_to!(*schema, 1nat => field_schemas@[i as int].schema, 1nat));
                    }
                    let name = field_schemas[i].name.clone();
                    let child_path = crate::op::join_path(
                        crate::op::copy_path(path),
                        PathSegment::Field(name.clone()),
                    );
                    let node = Node::new(&field_schemas[i].schema, id, &child_path);
                    let ghost old_fields = fields@;
                    fields.push(RecordField { name, node });
                    i += 1;
                    proof {
                        lemma_field_models_push(old_fields, fields@[i - 1]);
                        lemma_rec_fields_wf(field_models(old_fields));
                        lemma_rec_fields_wf(field_models(fields@));
                        assert(field_models(fields@) =~= field_models(old_fields) + seq![
                            (fsv[i - 1].0, node_model(fields@[i - 1].node)),
                        ]);
                        assert(field_models(old_fields) + (seq![
                            (fsv[i - 1].0, node_model(fields@[i - 1].node)),
                        ] + new_fields_m(fsv.skip(i as int), id@, path_view(path@)))
                            =~= field_models(fields@) + new_fields_m(
                            fsv.skip(i as int),
                            id@,
                            path_view(path@),
                        ));
                    }
                }
                proof {
                    assert(fsv.skip(field_schemas@.len() as int).len() == 0);
                    assert(new_fields_m(fsv.skip(field_schemas@.len() as int), id@, path_view(path@))
                        =~= Seq::<(Seq<char>, NodeV)>::empty());
                    assert(field_models(fields@) + Seq::<(Seq<char>, NodeV)>::empty()
                        =~= field_models(fields@));
                }
                Node::Record(
                    RecordCrdt {
                        our_id: crate::op::copy_bytes(id),
                        path: crate::op::copy_path(path),
                        fields,
                    },
                )
            },
        }
    }

    /// Borrow this node as a register, if it is one.
    pub fn as_register(&mut self) -> (r: Option<&mut LwwRegisterCrdt>)
        ensures
            r is Some <==> node_model(*old(self)) is Register,
    {
        match self {
            Node::Register(reg) => Some(reg),
            _ => None,
        }
    }

    /// Borrow this node as a list, if it is one.
    pub fn as_list(&mut self) -> (r: Option<&mut ListCrdt>)
        ensures
            r is Some <==> node_model(*old(self)) is List,
    {
        match self {
            Node::List(list) => Some(list),
            _ => None,
        }
    }

    /// Borrow the record field with the given name, if this node is a
    /// record that has one.
    pub fn get_field(&mut self, name: &String) -> (r: Option<&mut Node>) {
        match self {
            Node::Record(rec) => {
                let mut i: usize = 0;
                let n = rec.fields.len();
                let mut hit: Option<usize> = None;
                while i < n
                    invariant
                        i <= n,
                        n == rec.fields@.len(),
                        match hit {
                            Some(j) => j < n,
                            None => true,
                        },
                    decreases n - i,
                {
                    if hit.is_none() && rec.fields[i].name == *name {
                        hit = Some(i);
                    }
                    i += 1;
                }
                match hit {
                    Some(j) => Some(&mut rec.fields[j].node),
                    None => None,
                }
            },
            _ => None,
        }
    }

    /// Borrow the node stored in the list element created by the op with
    /// the given id, if this node is a list that has it.
    pub fn get_elem(&mut self, id: &crate::op::OpId) -> (r: Option<&mut Node>) {
        match self {
            Node::List(list) => list.elem_node_mut(id),
            _ => None,
        }
    }
}

/// The fresh node a schema describes: primitives start null, registers
/// unset, lists empty, records with fresh fields at their named paths.
pub open spec fn node_new_m(s: SchemaV, author: Seq<u8>, path: Seq<SegV>) -> NodeV
    decreases s, 1nat,
{
    match s {
        SchemaV::Primitive => NodeV::Primitive(ValueV::Null),
        SchemaV::Register => NodeV::Register(
            LwwM {
                our_id: author,
                path: path,
                value: crate::op::root_op_m::<ValueV>(),
                our_seq: 0,
            },
        ),
        SchemaV::List(elem) => NodeV::List(
            ListM {
                our_id: author,
                path: path,
                ops: seq![crate::op::root_op_m::<NodeV>()],
                elem_schema: *elem,
                pending: Seq::empty(),
                our_seq: 0,
            },
        ),
        SchemaV::Record(fields) => NodeV::Record(
            RecM { our_id: author, path: path, fields: new_fields_m(fields, author, path) },
        ),
    }
}

/// The fresh fields a record schema describes.
pub open spec fn new_fields_m(
    fields: Seq<(Seq<char>, SchemaV)>,
    author: Seq<u8>,
    path: Seq<SegV>,
) -> Seq<(Seq<char>, NodeV)>
    decreases fields, 2nat,
{
    if fields.len() == 0 {
        Seq::empty()
    } else {
        seq![
            (fields[0].0, node_new_m(fields[0].1, author, path.push(SegV::Field(fields[0].0)))),
        ] + new_fields_m(fields.drop_first(), author, path)
    }
}

/// An op with its integrity envelope: the signer, the signed digest and
/// the causal dependencies that must be delivered first.
#[derive(Debug)]
pub struct SignedOp {
    /// The envelope signer's public key. It may differ from the inner op's
    /// author when a valid op is relayed by someone else.
    pub author: AuthorId,
    /// Ed25519 signature over the envelope digest. Replicas use it as the
    /// delivery id of the envelope.
    pub signed_digest: crate::keypair::SignedDigest,
    /// The operation carried.
    pub inner: Op<Value>,
    /// Digests of the envelopes that must be applied before this one.
    pub depends_on: Vec<crate::keypair::SignedDigest>,
}

/// The mathematical value of a signed envelope.
#[verifier::ext_equal]
pub struct SignedOpM {
    pub author: Seq<u8>,
    pub signed_digest: Seq<u8>,
    pub inner: OpM<ValueV>,
    pub depends_on: Seq<Seq<u8>>,
}

/// The mathematical values of a digest list.
pub open spec fn deps_view(s: Seq<crate::keypair::SignedDigest>) -> Seq<Seq<u8>> {
    s.map_values(|d: Vec<u8>| d@)
}

impl SignedOp {
    /// The mathematical value of this envelope.
    pub closed spec fn model(&self) -> SignedOpM {
        SignedOpM {
            author: self.author@,
            signed_digest: self.signed_digest@,
            inner: self.inner@,
            depends_on: deps_view(self.depends_on@),
        }
    }
}

/// Canonical bytes of a dependency list: each digest length-prefixed, in
/// order.
pub open spec fn deps_canon(ds: Seq<Seq<u8>>) -> Seq<u8>
    decreases ds,
{
    if ds.len() == 0 {
        Seq::empty()
    } else {
        crate::value::u64_le(ds[0].len() as u64) + ds[0] + deps_canon(ds.drop_first())
    }
}

/// The byte string the envelope digest covers: the inner op's id, the
/// canonical path and the dependency list, each part length- or
/// count-prefixed so that distinct envelopes never share a byte form. It
/// binds where the op applies and what it waits for; the id already binds
/// every other canonical field.
pub open spec fn envelope_preimage(m: SignedOpM) -> Seq<u8> {
    crate::value::u64_le(m.inner.id.len() as u64) + m.inner.id + crate::value::u64_le(
        m.inner.path.len() as u64,
    ) + crate::op::path_canon(m.inner.path) + crate::value::u64_le(m.depends_on.len() as u64)
        + deps_canon(m.depends_on)
}

/// The envelope digest: the SHA-256 of the envelope preimage.
pub open spec fn envelope_digest(m: SignedOpM) -> Seq<u8> {
    crate::keypair::sha256_of(envelope_preimage(m))
}

impl SignedOp {
    /// The id of the inner op.
    pub fn id(&self) -> (r: &crate::op::OpId)
        ensures
            r@ == self.model().inner.id,
    {
        &self.inner.id
    }

    /// The envelope signer's public key.
    pub fn author(&self) -> (r: &AuthorId)
        ensures
            r@ == self.model().author,
    {
        &self.author
    }

    /// Recompute the envelope digest from the envelope's own fields.
    #[verifier::loop_isolation(false)]
    pub fn digest(&self) -> (r: Vec<u8>)
        ensures
            r@ == envelope_digest(self.model()),
            r@.len() == 32,
    {
        let mut input: Vec<u8> = Vec::new();
        crate::value::push_u64_le(&mut input, self.inner.id.len() as u64);
        crate::op::push_bytes(&mut input, &self.inner.id);
        crate::value::push_u64_le(&mut input, self.inner.path.len() as u64);
        crate::op::push_path_canon(&mut input, &self.inner.path);
        crate::value::push_u64_le(&mut input, self.depends_on.len() as u64);
        let ghost dv = deps_view(self.depends_on@);
        let ghost mid = input@;
        proof {
            assert(dv.skip(0) =~= dv);
        }
        let mut i: usize = 0;
        while i < self.depends_on.len()
            invariant
                i <= self.depends_on@.len(),
                mid + deps_canon(dv) == input@ + deps_canon(dv.skip(i as int)),
            decreases self.depends_on@.len() - i,
        {
            proof {
                assert(dv.skip(i as int)[0] == dv[i as int]);
                assert(dv.skip(i as int).drop_first() =~= dv.skip(i + 1));
                assert(dv[i as int] == self.depends_on@[i as int]@);
            }
            let ghost before = input@;
            crate::value::push_u64_le(&mut input, self.depends_on[i].len() as u64);
            crate::op::push_bytes(&mut input, &self.depends_on[i]);
            proof {
                assert(before + (crate::value::u64_le(dv[i as int].len() as u64) + dv[i as int]
                    + deps_canon(dv.skip(i + 1))) =~= input@ + deps_canon(dv.skip(i + 1)));
            }
            i += 1;
        }
        proof {
            assert(dv.skip(self.depends_on@.len() as int).len() == 0);
            assert(input@ + deps_canon(dv.skip(self.depends_on@.len() as int)) =~= input@);
            assert(input@ =~= envelope_preimage(self.model()));
        }
        crate::keypair::sha256(&input)
    }

    /// Ensure the digest was signed by the key the envelope claims.
    pub fn is_valid_digest(&self) -> (r: bool)
        ensures
            r == crate::keypair::ed_verifies(
                self.model().author,
                envelope_digest(self.model()),
                self.model().signed_digest,
            ),
    {
        let digest = self.digest();
        crate::keypair::verify(&self.author, &digest, &self.signed_digest)
    }

    /// Sign an op, binding its id, its path and its dependency list under
    /// the signer's key.
    pub fn from_op(value: Op<Value>, keypair: &crate::keypair::KeyPair, depends_on: Vec<
        crate::keypair::SignedDigest,
    >) -> (r: SignedOp)
        ensures
            r.model().inner == value@,
            r.model().author == keypair@,
            r.model().depends_on == deps_view(depends_on@),
            crate::keypair::ed_verifies(
                keypair@,
                envelope_digest(r.model()),
                r.model().signed_digest,
            ),
    {
        let mut new = SignedOp {
            inner: value,
            author: keypair.public_key(),
            signed_digest: Vec::new(),
            depends_on,
        };
        let ghost m1 = new.model();
        let digest = new.digest();
        let sig = crate::keypair::sign(keypair, &digest);
        new.signed_digest = sig;
        proof {
            assert(new.model().inner == m1.inner && new.model().depends_on == m1.depends_on);
            assert(envelope_preimage(new.model()) == envelope_preimage(m1));
        }
        new
    }

    /// A copy with the same mathematical value.
    pub fn duplicate(&self) -> (r: SignedOp)
        ensures
            r.model() == self.model(),
    {
        let mut deps: Vec<crate::keypair::SignedDigest> = Vec::new();
        let mut i: usize = 0;
        while i < self.depends_on.len()
            invariant
                i <= self.depends_on@.len(),
                deps@.len() == i,
                forall|j: int| 0 <= j < i ==> deps@[j]@ == self.depends_on@[j]@,
            decreases self.depends_on@.len() - i,
        {
            let d = crate::op::copy_bytes(&self.depends_on[i]);
            deps.push(d);
            i += 1;
        }
        let r = SignedOp {
            author: crate::op::copy_bytes(&self.author),
            signed_digest: crate::op::copy_bytes(&self.signed_digest),
            inner: self.inner.duplicate(),
            depends_on: deps,
        };
        proof {
            assert(deps_view(r.depends_on@) =~= deps_view(self.depends_on@));
            assert(r.model() =~= self.model());
        }
        r
    }
}

impl Op<Value> {
    /// Sign this op with no causal dependencies.
    pub fn sign(self, keypair: &crate::keypair::KeyPair) -> (r: SignedOp)
        ensures
            r.model().inner == self@,
            r.model().author == keypair@,
            r.model().depends_on == Seq::<Seq<u8>>::empty(),
            crate::keypair::ed_verifies(
                keypair@,
                envelope_digest(r.model()),
                r.model().signed_digest,
            ),
    {
        let r = SignedOp::from_op(self, keypair, Vec::new());
        proof {
            assert(deps_view(Seq::<Vec<u8>>::empty()) =~= Seq::<Seq<u8>>::empty());
        }
        r
    }

    /// Sign this op, promising that the given envelopes are applied first.
    pub fn sign_with_dependencies(self, keypair: &crate::keypair::KeyPair, dependencies: &Vec<
        SignedOp,
    >) -> (r: SignedOp)
        ensures
            r.model().inner == self@,
            r.model().author == keypair@,
            r.model().depends_on.len() == dependencies@.len(),
            forall|j: int|
                0 <= j < dependencies@.len() ==> r.model().depends_on[j]
                    == dependencies@[j].model().signed_digest,
            crate::keypair::ed_verifies(
                keypair@,
                envelope_digest(r.model()),
                r.model().signed_digest,
            ),
    {
        let mut deps: Vec<crate::keypair::SignedDigest> = Vec::new();
        let mut i: usize = 0;
        while i < dependencies.len()
            invariant
                i <= dependencies@.len(),
                deps@.len() == i,
                forall|j: int| 0 <= j < i ==> deps@[j]@ == dependencies@[j].model().signed_digest,
            decreases dependencies@.len() - i,
        {
            let d = crate::op::copy_bytes(&dependencies[i].signed_digest);
            deps.push(d);
            i += 1;
        }
        SignedOp::from_op(self, keypair, deps)
    }
}

/// A digest is among the delivered ones.
pub open spec fn digest_in(received: Seq<Seq<u8>>, d: Seq<u8>) -> bool {
    exists|i: int| 0 <= i < received.len() && received[i] == d
}

/// The first dependency not yet delivered, scanning from `i`.
pub open spec fn first_missing_from(received: Seq<Seq<u8>>, deps: Seq<Seq<u8>>, i: int) -> Option<
    int,
>
    decreases deps.len() - i,
{
    if i < 0 || i >= deps.len() {
        None
    } else if !digest_in(received, deps[i]) {
        Some(i)
    } else {
        first_missing_from(received, deps, i + 1)
    }
}

/// The first dependency not yet delivered.
pub open spec fn first_missing(received: Seq<Seq<u8>>, deps: Seq<Seq<u8>>) -> Option<int> {
    first_missing_from(received, deps, 0)
}

/// A snapshot of a document root's working state: the tree, the delivered
/// digests and the queued envelopes.
#[verifier::ext_equal]
pub struct RootState {
    pub doc: NodeV,
    pub received: Seq<Seq<u8>>,
    pub pending: Seq<SignedOpM>,
}

/// No queued envelope has all of its dependencies delivered.
pub open spec fn no_releasable(received: Seq<Seq<u8>>, pending: Seq<SignedOpM>) -> bool {
    forall|k: int|
        0 <= k < pending.len() ==> (#[trigger] first_missing(received, pending[k].depends_on)) is Some
}

/// Everything once delivered stays delivered, in place.
pub open spec fn received_kept(old: Seq<Seq<u8>>, new: Seq<Seq<u8>>) -> bool {
    old.len() <= new.len() && forall|k: int| 0 <= k < old.len() ==> new[k] == old[k]
}

/// One release step, spelled out: the first queued envelope whose
/// dependencies are all delivered leaves the queue at position `k`; after
/// re-verification its op runs through the document with result `r` and its
/// digest is recorded when the document took or deferred it; a tampered
/// envelope is discarded without touching the document.
pub open spec fn release_step_at(s: RootState, t: RootState, k: int, r: OpState) -> bool {
    let w = s.pending[k];
    let ok = crate::keypair::ed_verifies(w.author, envelope_digest(w), w.signed_digest);
    let taken = r == OpState::Applied || r == OpState::MissingCausalDependencies;
    &&& 0 <= k < s.pending.len()
    &&& first_missing(s.received, w.depends_on) is None
    &&& (forall|j: int|
        0 <= j < k ==> (#[trigger] first_missing(s.received, s.pending[j].depends_on)) is Some)
    &&& t.pending == s.pending.remove(k)
    &&& (ok ==> node_apply_rel(s.doc, t.doc, w.inner, r) && t.received == (if taken {
        s.received.push(w.signed_digest)
    } else {
        s.received
    }))
    &&& (!ok ==> t.doc == s.doc && t.received == s.received)
}

/// One release step happened between the two states.
pub open spec fn release_step(s: RootState, t: RootState) -> bool {
    exists|k: int, r: OpState| #![auto] release_step_at(s, t, k, r)
}

/// `t` is reachable from `s` by zero or more release steps: no envelope
/// leaves the queue except by being re-run through the document.
pub open spec fn releases_to(s: RootState, t: RootState) -> bool
    decreases s.pending.len(),
{
    ||| s == t
    ||| exists|m: RootState| #![auto]
        release_step(s, m) && m.pending.len() < s.pending.len() && releases_to(m, t)
}

/// Release-step reachability extends by one more step.
pub proof fn lemma_releases_to_extend(a: RootState, b: RootState, c: RootState)
    requires
        releases_to(a, b),
        release_step(b, c),
    ensures
        releases_to(a, c),
    decreases a.pending.len(),
{
    if a == b {
        let (k, r) = choose|k: int, r: OpState| #![auto] release_step_at(b, c, k, r);
        assert(c.pending == a.pending.remove(k));
        assert(c.pending.len() < a.pending.len());
        assert(releases_to(c, c));
        assert(release_step(a, c) && c.pending.len() < a.pending.len() && releases_to(c, c));
    } else {
        let m = choose|m: RootState| #![auto]
            release_step(a, m) && m.pending.len() < a.pending.len() && releases_to(m, b);
        lemma_releases_to_extend(m, b, c);
        assert(release_step(a, m) && m.pending.len() < a.pending.len() && releases_to(m, c));
    }
}

/// The base struct for a byzantine-fault-tolerant document: a CRDT node
/// tree behind a signature check and a causal-delivery queue.
#[derive(Debug)]
pub struct BaseCrdt {
    /// Public key of this replica.
    pub id: AuthorId,
    /// The document tree.
    pub doc: Node,
    /// Digests of the envelopes already delivered.
    received: Vec<crate::keypair::SignedDigest>,
    /// Envelopes waiting for one or more of their dependencies.
    pending: Vec<SignedOp>,
}

/// The mathematical state of a document root.
#[verifier::ext_equal]
pub struct BaseM {
    pub id: Seq<u8>,
    pub doc: NodeV,
    pub received: Seq<Seq<u8>>,
    pub pending: Seq<SignedOpM>,
}

/// The mathematical values of queued envelopes, elementwise.
pub open spec fn pending_model(s: Seq<SignedOp>) -> Seq<SignedOpM>
    decreases s,
{
    if s.len() == 0 {
        Seq::empty()
    } else {
        seq![s[0].model()] + pending_model(s.drop_first())
    }
}

/// `pending_model` maps elementwise.
pub proof fn lemma_pending_model(s: Seq<SignedOp>)
    ensures
        pending_model(s).len() == s.len(),
        forall|i: int| 0 <= i < s.len() ==> pending_model(s)[i] == s[i].model(),
    decreases s,
{
    if s.len() > 0 {
        lemma_pending_model(s.drop_first());
        assert forall|i: int| 0 <= i < s.len() implies pending_model(s)[i] == s[i].model() by {
            if i > 0 {
                assert(pending_model(s.drop_first())[i - 1] == s.drop_first()[i - 1].model());
            }
        }
    }
}

impl BaseCrdt {
    /// The mathematical state of this document root.
    pub closed spec fn model(&self) -> BaseM {
        BaseM {
            id: self.id@,
            doc: node_model(self.doc),
            received: deps_view(self.received@),
            pending: pending_model(self.pending@),
        }
    }

    /// The working state of this root, as a snapshot.
    pub open spec fn root_state(&self) -> RootState {
        RootState {
            doc: self.model().doc,
            received: self.model().received,
            pending: self.model().pending,
        }
    }

    /// Create a document root owned by the given keypair, its tree fresh
    /// from the schema.
    pub fn new(keypair: &crate::keypair::KeyPair, schema: &Schema) -> (r: BaseCrdt)
        ensures
            r.model().id == keypair@,
            r.model().doc == node_new_m(schema_view(*schema), keypair@, Seq::<SegV>::empty()),
            node_wf(r.model().doc),
            r.model().received == Seq::<Seq<u8>>::empty(),
            r.model().pending == Seq::<SignedOpM>::empty(),
    {
        let id = keypair.public_key();
        let doc = Node::new(schema, &id, &Vec::new());
        let r = BaseCrdt { id, doc, received: Vec::new(), pending: Vec::new() };
        proof {
            assert(crate::op::path_view(Seq::<PathSegment>::empty()) =~= Seq::<SegV>::empty());
            assert(deps_view(Seq::<Vec<u8>>::empty()) =~= Seq::<Seq<u8>>::empty());
        }
        r
    }

    /// Whether this digest has been delivered here.
    fn has_received(&self, d: &crate::keypair::SignedDigest) -> (r: bool)
        ensures
            r == digest_in(self.model().received, d@),
    {
        let mut i: usize = 0;
        proof {
            assert(deps_view(self.received@).len() == self.received@.len());
        }
        while i < self.received.len()
            invariant
                i <= self.received@.len(),
                forall|j: int| 0 <= j < i ==> deps_view(self.received@)[j] != d@,
            decreases self.received@.len() - i,
        {
            if crate::bytes_eq(&self.received[i], d) {
                proof {
                    assert(deps_view(self.received@)[i as int] == d@);
                }
                return true;
            }
            proof {
                assert(deps_view(self.received@)[i as int] == self.received@[i as int]@);
            }
            i += 1;
        }
        false
    }

    /// The first dependency of `s` that has not been delivered here.
    #[verifier::loop_isolation(false)]
    fn first_missing_dep(&self, s: &SignedOp) -> (r: Option<usize>)
        ensures
            match r {
                Some(j) => first_missing(self.model().received, s.model().depends_on) == Some(
                    j as int,
                ) && j < s.model().depends_on.len(),
                None => first_missing(self.model().received, s.model().depends_on) is None,
            },
    {
        let ghost dv = s.model().depends_on;
        let mut i: usize = 0;
        while i < s.depends_on.len()
            invariant
                i <= s.depends_on@.len(),
                dv.len() == s.depends_on@.len(),
                forall|j: int| 0 <= j < dv.len() ==> dv[j] == s.depends_on@[j]@,
                first_missing(self.model().received, dv) == first_missing_from(
                    self.model().received,
                    dv,
                    i as int,
                ),
            decreases s.depends_on@.len() - i,
        {
            if !self.has_received(&s.depends_on[i]) {
                return Some(i);
            }
            i += 1;
        }
        None
    }

    /// Apply a signed envelope: verify its signature, defer it while any
    /// dependency is missing, route its op through the document, and
    /// release whatever the delivery unblocks.
    pub fn apply(&mut self, op: SignedOp) -> (r: OpState)
        requires
            node_wf(old(self).model().doc),
        ensures
            node_wf(final(self).model().doc),
            final(self).model().id == old(self).model().id,
            !crate::keypair::ed_verifies(
                op.model().author,
                envelope_digest(op.model()),
                op.model().signed_digest,
            ) ==> final(self).model() == old(self).model() && r == OpState::ErrDigestMismatch,
            crate::keypair::ed_verifies(
                op.model().author,
                envelope_digest(op.model()),
                op.model().signed_digest,
            ) && first_missing(old(self).model().received, op.model().depends_on) is Some ==> final(self).model() == (BaseM {
                pending: old(self).model().pending.push(op.model()),
                ..old(self).model()
            }) && r == OpState::MissingCausalDependencies,
            crate::keypair::ed_verifies(
                op.model().author,
                envelope_digest(op.model()),
                op.model().signed_digest,
            ) && first_missing(old(self).model().received, op.model().depends_on) is None ==> {
                &&& (old(self).model().pending.len() == 0 ==> node_apply_rel(
                    old(self).model().doc,
                    final(self).model().doc,
                    op.model().inner,
                    r,
                ) && final(self).model().pending.len() == 0 && final(self).model().received == (
                if r == OpState::Applied || r == OpState::MissingCausalDependencies {
                    old(self).model().received.push(op.model().signed_digest)
                } else {
                    old(self).model().received
                }))
                &&& (!crate::op::op_hash_ok(op.model().inner) ==> final(self).model() == old(
                    self,
                ).model())
                &&& (r == OpState::Applied || r == OpState::MissingCausalDependencies ==> digest_in(
                    final(self).model().received,
                    op.model().signed_digest,
                ))
                &&& exists|mid: NodeV| #![auto]
                    {
                        &&& node_apply_rel(old(self).model().doc, mid, op.model().inner, r)
                        &&& (r == OpState::Applied || r == OpState::MissingCausalDependencies
                            ==> releases_to(
                            RootState {
                                doc: mid,
                                received: old(self).model().received.push(
                                    op.model().signed_digest,
                                ),
                                pending: old(self).model().pending,
                            },
                            final(self).root_state(),
                        ) && no_releasable(
                            final(self).model().received,
                            final(self).model().pending,
                        ))
                        &&& (!(r == OpState::Applied || r == OpState::MissingCausalDependencies)
                            ==> final(self).model().doc == mid && final(self).model().received
                            == old(self).model().received && final(self).model().pending == old(
                            self,
                        ).model().pending)
                    }
            },
            received_kept(old(self).model().received, final(self).model().received),
            r == OpState::Applied ==> crate::keypair::ed_verifies(
                op.model().author,
                envelope_digest(op.model()),
                op.model().signed_digest,
            ),
    {
        let ghost m0 = self.model();
        let ghost opm = op.model();
        if !op.is_valid_digest() {
            return OpState::ErrDigestMismatch;
        }
        let missing = self.first_missing_dep(&op);
        if missing.is_some() {
            proof {
                lemma_pending_model(self.pending@);
            }
            self.pending.push(op);
            proof {
                lemma_pending_model(self.pending@);
                assert(pending_model(self.pending@) =~= m0.pending.push(opm));
                assert(self.model() =~= (BaseM { pending: m0.pending.push(opm), ..m0 }));
            }
            return OpState::MissingCausalDependencies;
        }
        let SignedOp { author: _, signed_digest, inner, depends_on: _ } = op;
        let status = self.doc.apply(inner);
        let applied = status == OpState::Applied || status == OpState::MissingCausalDependencies;
        if !applied {
            proof {
                assert(self.model() =~= (BaseM { doc: self.model().doc, ..m0 }));
                if !crate::op::op_hash_ok(opm.inner) {
                    assert(self.model() =~= m0);
                }
                assert(node_apply_rel(m0.doc, self.model().doc, opm.inner, status));
            }
            return status;
        }
        let ghost mdoc = self.model().doc;
        self.received.push(signed_digest);
        let ghost smid = RootState {
            doc: mdoc,
            received: m0.received.push(opm.signed_digest),
            pending: m0.pending,
        };
        proof {
            assert(deps_view(self.received@) =~= m0.received.push(opm.signed_digest));
            assert(deps_view(self.received@)[m0.received.len() as int] == opm.signed_digest);
            assert(self.root_state() =~= smid);
        }
        loop
            invariant
                node_wf(self.model().doc),
                self.model().id == m0.id,
                digest_in(self.model().received, opm.signed_digest),
                node_apply_rel(m0.doc, mdoc, opm.inner, status),
                releases_to(smid, self.root_state()),
                received_kept(m0.received, self.model().received),
                m0.pending.len() == 0 ==> self.model().doc == mdoc && self.model().pending.len()
                    == 0 && self.model().received == m0.received.push(opm.signed_digest),
            ensures
                no_releasable(self.model().received, self.model().pending),
            decreases self.model().pending.len(),
        {
            let ghost mc = self.model();
            let ghost sc = self.root_state();
            let rel = self.find_releasable();
            match rel {
                None => {
                    break ;
                },
                Some(k) => {
                    proof {
                        lemma_pending_model(self.pending@);
                    }
                    let w = self.pending.remove(k);
                    let ghost wm = w.model();
                    proof {
                        lemma_pending_model(self.pending@);
                        assert(pending_model(self.pending@) =~= mc.pending.remove(k as int));
                        assert(wm == sc.pending[k as int]);
                    }
                    if w.is_valid_digest() {
                        let SignedOp { author: _, signed_digest: wd, inner: winner, depends_on: _ } = w;
                        let wstatus = self.doc.apply(winner);
                        let taken = wstatus == OpState::Applied || wstatus
                            == OpState::MissingCausalDependencies;
                        if taken {
                            let ghost mr = self.model();
                            self.received.push(wd);
                            proof {
                                assert(deps_view(self.received@) =~= mr.received.push(wd@));
                                assert(digest_in(self.model().received, opm.signed_digest)) by {
                                    let j = choose|j: int|
                                        0 <= j < mr.received.len() && mr.received[j]
                                            == opm.signed_digest;
                                    assert(deps_view(self.received@)[j] == opm.signed_digest);
                                }
                            }
                        }
                        proof {
                            assert(release_step_at(sc, self.root_state(), k as int, wstatus));
                            assert(release_step(sc, self.root_state()));
                            lemma_releases_to_extend(smid, sc, self.root_state());
                        }
                    } else {
                        proof {
                            assert(self.model().doc == mc.doc && self.model().received
                                == mc.received);
                            assert(release_step_at(
                                sc,
                                self.root_state(),
                                k as int,
                                OpState::ErrDigestMismatch,
                            ));
                            assert(release_step(sc, self.root_state()));
                            lemma_releases_to_extend(smid, sc, self.root_state());
                        }
                    }
                },
            }
        }
        proof {
            assert(node_apply_rel(m0.doc, mdoc, opm.inner, status));
        }
        status
    }

    /// The position of some queued envelope all of whose dependencies have
    /// been delivered, if any.
    #[verifier::loop_isolation(false)]
    fn find_releasable(&self) -> (r: Option<usize>)
        ensures
            match r {
                Some(k) => k < self.model().pending.len() && first_missing(
                    self.model().received,
                    self.model().pending[k as int].depends_on,
                ) is None && forall|j: int|
                    0 <= j < k ==> (#[trigger] first_missing(
                        self.model().received,
                        self.model().pending[j].depends_on,
                    )) is Some,
                None => no_releasable(self.model().received, self.model().pending),
            },
    {
        proof {
            lemma_pending_model(self.pending@);
        }
        let mut j: usize = 0;
        while j < self.pending.len()
            invariant
                j <= self.pending@.len(),
                forall|jj: int|
                    0 <= jj < j ==> (#[trigger] first_missing(
                        self.model().received,
                        self.model().pending[jj].depends_on,
                    )) is Some,
            decreases self.pending@.len() - j,
        {
            let missing = self.first_missing_dep(&self.pending[j]);
            proof {
                assert(self.model().pending[j as int] == self.pending@[j as int].model());
            }
            if missing.is_none() {
                return Some(j);
            }
            j += 1;
        }
        None
    }
}

/// Two logs whose entries agree on tombstones, on carrying content, and on
/// the views of what they carry, show the same live views.
pub proof fn lemma_live_views_m_congruent(a: Seq<OpM<NodeV>>, b: Seq<OpM<NodeV>>)
    requires
        a.len() == b.len(),
        forall|k: int|
            0 <= k < a.len() ==> (#[trigger] a[k]).is_deleted == (#[trigger] b[k]).is_deleted && (
            a[k].content is Some <==> b[k].content is Some) && (a[k].content is Some
                ==> node_view_m(a[k].content->0) == node_view_m(b[k].content->0)),
    ensures
        live_views_m(a) == live_views_m(b),
    decreases a.len(),
{
    if a.len() > 0 {
        assert(a[0].is_deleted == b[0].is_deleted);
        assert forall|k: int|
            0 <= k < a.drop_first().len() implies (#[trigger] a.drop_first()[k]).is_deleted == (
        #[trigger] b.drop_first()[k]).is_deleted && (a.drop_first()[k].content is Some
            <==> b.drop_first()[k].content is Some) && (a.drop_first()[k].content is Some
            ==> node_view_m(a.drop_first()[k].content->0) == node_view_m(
            b.drop_first()[k].content->0,
        )) by {
            assert(a.drop_first()[k] == a[k + 1] && b.drop_first()[k] == b[k + 1]);
        }
        lemma_live_views_m_congruent(a.drop_first(), b.drop_first());
    }
}

/// Two field rows with the same names and the same field views show the
/// same object view.
pub proof fn lemma_field_views_m_congruent(
    a: Seq<(Seq<char>, NodeV)>,
    b: Seq<(Seq<char>, NodeV)>,
)
    requires
        a.len() == b.len(),
        forall|k: int|
            0 <= k < a.len() ==> (#[trigger] a[k]).0 == (#[trigger] b[k]).0 && node_view_m(a[k].1)
                == node_view_m(b[k].1),
    ensures
        field_views_m(a) == field_views_m(b),
    decreases a.len(),
{
    if a.len() > 0 {
        assert forall|k: int|
            0 <= k < a.drop_first().len() implies (#[trigger] a.drop_first()[k]).0 == (
        #[trigger] b.drop_first()[k]).0 && node_view_m(a.drop_first()[k].1) == node_view_m(
            b.drop_first()[k].1,
        ) by {
            assert(a.drop_first()[k] == a[k + 1] && b.drop_first()[k] == b[k + 1]);
        }
        lemma_field_views_m_congruent(a.drop_first(), b.drop_first());
    }
}

/// Two field rows with the same names pointwise agree on every lookup.
pub proof fn lemma_field_find_same_names(
    a: Seq<(Seq<char>, NodeV)>,
    b: Seq<(Seq<char>, NodeV)>,
    name: Seq<char>,
    i: int,
)
    requires
        a.len() == b.len(),
        forall|k: int| 0 <= k < a.len() ==> (#[trigger] a[k]).0 == b[k].0,
        0 <= i <= a.len(),
    ensures
        field_find_from(a, name, i) == field_find_from(b, name, i),
    decreases a.len() - i,
{
    if i < a.len() && a[i].0 != name {
        lemma_field_find_same_names(a, b, name, i + 1);
    }
}

/// Delivering one op twice leaves a node showing what one delivery showed:
/// the document transition relation is idempotent up to the view. Together
/// with the document root's contract this is re-delivery idempotence at
/// the root: a second run of an already delivered envelope cannot change
/// what any honest replica displays.
pub proof fn lemma_node_reapply(
    a: NodeV,
    b: NodeV,
    c: NodeV,
    op: OpM<ValueV>,
    r1: OpState,
    r2: OpState,
)
    requires
        node_wf(a),
        node_apply_rel(a, b, op, r1),
        node_apply_rel(b, c, op, r2),
    ensures
        node_view_m(c) == node_view_m(b),
    decreases a,
{
    if !crate::op::op_hash_ok(op) {
        assert(b == a && c == b);
    } else {
        match a {
            NodeV::Primitive(_) => {
            },
            NodeV::Register(s) => {
                crate::lww_crdt::lemma_lww_idempotent(s, op);
            },
            NodeV::List(m) => {
                let m1 = b->List_0;
                let m2 = c->List_0;
                let direct = op.path.len() <= m.path.len() + 1;
                if !crate::op::is_subpath(m.path, op.path) {
                    assert(m1 == m && m2 == m1);
                } else if direct {
                    let conv = converted_op(op, m.elem_schema);
                    assert(m1.path == m.path && m1.elem_schema == m.elem_schema) by {
                        crate::list_crdt::lemma_find_from(m.ops, conv.origin, 0);
                        if crate::list_crdt::find_index(m.ops, conv.origin) is Some
                            && !conv.is_deleted && crate::list_crdt::find_index(
                            m.ops,
                            conv.id,
                        ) is None {
                            let p = crate::list_crdt::find_index(m.ops, conv.origin)->Some_0;
                            crate::list_crdt::lemma_list_releases_preserve(
                                ListM {
                                    ops: m.ops.insert(
                                        crate::list_crdt::scan_pos(m.ops, conv, p, p + 1),
                                        conv,
                                    ),
                                    our_seq: if conv.seq > m.our_seq {
                                        conv.seq
                                    } else {
                                        m.our_seq
                                    },
                                    ..m
                                },
                                m1,
                            );
                        }
                    }
                    crate::laws::lemma_list_idempotent(m, m1, m2, conv, r1, r2);
                    assert(live_views_m(m2.ops) == live_views_m(m1.ops));
                } else {
                    let seg = op.path[m.path.len() as int];
                    if seg is Index {
                        let target = seg->Index_0;
                        match crate::list_crdt::find_index(m.ops, target) {
                            None => {
                                assert(m1 == m && m2 == m1);
                            },
                            Some(idx) => {
                                assert(m1.path == m.path);
                                assert(m1.ops.len() == m.ops.len());
                                assert forall|k: int|
                                    0 <= k < m1.ops.len() implies (#[trigger] m1.ops[k]).id
                                    == m.ops[k].id by {
                                    if k != idx {
                                        assert(m1.ops[k] == m.ops[k]);
                                    }
                                }
                                crate::list_crdt::lemma_find_same_ids(m.ops, m1.ops, target, 0);
                                if m.ops[idx].content is None {
                                    assert(m1 == m && m2 == m1);
                                } else {
                                    let child = m.ops[idx].content->0;
                                    let child1 = m1.ops[idx].content->0;
                                    let child2 = m2.ops[idx].content->0;
                                    assert(node_wf(child)) by {
                                        lemma_node_ops_wf(m.ops);
                                    }
                                    assert(decreases_to!(a => child));
                                    lemma_node_reapply(child, child1, child2, op, r1, r2);
                                    lemma_live_views_m_congruent(m2.ops, m1.ops);
                                }
                            },
                        }
                    } else {
                        assert(m1 == m && m2 == m1);
                    }
                }
            },
            NodeV::Record(rm) => {
                let rm1 = b->Record_0;
                let rm2 = c->Record_0;
                if !crate::op::is_subpath(rm.path, op.path) {
                    assert(rm1 == rm && rm2 == rm1);
                } else if op.path.len() == rm.path.len() {
                    assert(rm1 == rm && rm2 == rm1);
                } else {
                    let seg = op.path[rm.path.len() as int];
                    if seg is Field {
                        let name = seg->Field_0;
                        assert(rm1.path == rm.path);
                        lemma_field_find_same_names(rm.fields, rm1.fields, name, 0);
                        match field_find(rm.fields, name) {
                            None => {
                                assert(rm1 == rm && rm2 == rm1);
                            },
                            Some(i) => {
                                let child = rm.fields[i].1;
                                let child1 = rm1.fields[i].1;
                                let child2 = rm2.fields[i].1;
                                assert(node_wf(child)) by {
                                    lemma_rec_fields_wf(rm.fields);
                                }
                                assert(decreases_to!(a => child));
                                lemma_node_reapply(child, child1, child2, op, r1, r2);
                                lemma_field_views_m_congruent(rm2.fields, rm1.fields);
                            },
                        }
                    } else {
                        assert(rm1 == rm && rm2 == rm1);
                    }
                }
            },
        }
    }
}

} // verus!
