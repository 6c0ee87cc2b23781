//! An RGA-style ordered-sequence CRDT.
//!
//! The list keeps every operation it has ever integrated in one vector; a
//! deletion only marks its target. A new insertion is placed after its
//! anchor, before any sibling it beats: siblings anchored to the same op are
//! ordered by lamport counter, ties broken by author id, so every replica
//! computes the same total order from the same operation set. An op whose
//! anchor has not arrived yet parks in a queue keyed by the missing id and
//! is integrated when the anchor lands.
use crate::json_crdt::{lemma_ops_model, node_op_model, ops_model, Node, NodeV, OpState, Schema,
    SchemaV, schema_view};
use crate::keypair::AuthorId;
use crate::lww_crdt::{bytes_lt, bytes_lt_exec};
use crate::op::{copy_bytes, copy_path, join_path, path_view, root_id_spec, Op, OpM, PathSegment,
    SegV};
use crate::value::{Value, ValueV};
use vstd::prelude::*;

verus! {

/// An RGA-like list CRDT storing nested CRDT nodes.
#[derive(Debug)]
pub struct ListCrdt {
    /// Public key for this node.
    pub our_id: AuthorId,
    /// Path to this CRDT.
    pub path: Vec<PathSegment>,
    /// Every operation this list knows of, root sentinel first, in
    /// integration order.
    pub ops: Vec<Op<Node>>,
    /// The shape of this list's elements.
    elem_schema: Schema,
    /// Ops waiting for their anchor, each keyed by its own `origin`.
    pending: Vec<Op<Node>>,
    /// The highest lamport counter integrated here.
    our_seq: u64,
}

/// The mathematical state of a list.
#[verifier::ext_equal]
pub struct ListM {
    pub our_id: Seq<u8>,
    pub path: Seq<SegV>,
    pub ops: Seq<OpM<NodeV>>,
    pub elem_schema: SchemaV,
    pub pending: Seq<OpM<NodeV>>,
    pub our_seq: u64,
}

/// The mathematical state of a list.
pub closed spec fn list_model(l: ListCrdt) -> ListM
    decreases l,
{
    ListM {
        our_id: l.our_id@,
        path: path_view(l.path@),
        ops: ops_model(l.ops@),
        elem_schema: schema_view(l.elem_schema),
        pending: ops_model(l.pending@),
        our_seq: l.our_seq,
    }
}

impl ListCrdt {
    /// The mathematical state of this list.
    pub open spec fn model(&self) -> ListM {
        list_model(*self)
    }
}

/// The smallest index at or after `i` whose op has the given id.
pub open spec fn find_from(ops: Seq<OpM<NodeV>>, id: Seq<u8>, i: int) -> Option<int>
    decreases ops.len() - i,
{
    if i < 0 || i >= ops.len() {
        None
    } else if ops[i].id == id {
        Some(i)
    } else {
        find_from(ops, id, i + 1)
    }
}

/// The smallest index whose op has the given id.
pub open spec fn find_index(ops: Seq<OpM<NodeV>>, id: Seq<u8>) -> Option<int> {
    find_from(ops, id, 0)
}

/// What `find_index` returns is in range and first.
pub proof fn lemma_find_from(ops: Seq<OpM<NodeV>>, id: Seq<u8>, i: int)
    requires
        0 <= i <= ops.len(),
    ensures
        match find_from(ops, id, i) {
            Some(j) => i <= j < ops.len() && ops[j].id == id && forall|k: int|
                i <= k < j ==> ops[k].id != id,
            None => forall|k: int| i <= k < ops.len() ==> ops[k].id != id,
        },
    decreases ops.len() - i,
{
    if i < ops.len() && ops[i].id != id {
        lemma_find_from(ops, id, i + 1);
    }
}

/// The log is well formed: the root sentinel sits first and every op's
/// anchor is known.
pub open spec fn ops_wf(m: ListM) -> bool {
    &&& m.ops.len() >= 1
    &&& m.ops[0].id == root_id_spec()
    &&& forall|k: int| 0 <= k < m.ops.len() ==> (#[trigger] find_index(m.ops, m.ops[k].origin)) is Some
}

/// Every parked op still waits for a missing anchor.
pub open spec fn pending_blocked(m: ListM) -> bool {
    forall|k: int|
        0 <= k < m.pending.len() ==> (#[trigger] find_index(m.ops, m.pending[k].origin)) is None
}

/// A list is well formed when its log is and every parked op still waits
/// for a missing anchor.
pub open spec fn list_wf(m: ListM) -> bool {
    ops_wf(m) && pending_blocked(m)
}

/// The ops with position `p` marked as a tombstone.
pub open spec fn mark_deleted(ops: Seq<OpM<NodeV>>, p: int) -> Seq<OpM<NodeV>> {
    ops.update(p, OpM { is_deleted: true, ..ops[p] })
}

/// Whether the new op must be placed before the existing op at `i`: the new
/// op's anchor sits strictly deeper, or both share an anchor and the new op
/// wins the sibling order (higher counter, ties to the higher author).
pub open spec fn place_before(ops: Seq<OpM<NodeV>>, op: OpM<NodeV>, p: int, i: int) -> bool {
    let q = find_index(ops, ops[i].origin)->Some_0;
    ||| p > q
    ||| (p == q && (op.seq > ops[i].seq || (op.seq == ops[i].seq && bytes_lt(ops[i].author, op.author))))
}

/// The position where the new op is inserted: scanning right from its
/// anchor, the first spot whose op it must be placed before, or the end.
pub open spec fn scan_pos(ops: Seq<OpM<NodeV>>, op: OpM<NodeV>, p: int, i: int) -> int
    decreases ops.len() - i,
{
    if i < 0 || i >= ops.len() {
        i
    } else if place_before(ops, op, p, i) {
        i
    } else {
        scan_pos(ops, op, p, i + 1)
    }
}

/// Every id findable in `a` is also findable in `b`.
pub open spec fn ids_kept(a: Seq<OpM<NodeV>>, b: Seq<OpM<NodeV>>) -> bool {
    forall|id: Seq<u8>|
        (#[trigger] find_index(a, id)) is Some ==> (#[trigger] find_index(b, id)) is Some
}

/// The state the list reaches after integrating one op, without any release
/// of parked dependents: parked when its anchor is unknown, its target
/// marked when it is a tombstone, dropped when its id is already present,
/// and otherwise inserted at its scan position with the counter maxed.
pub open spec fn integrate_one_post(old: ListM, new: ListM, op: OpM<NodeV>, r: OpState) -> bool {
    match find_index(old.ops, op.origin) {
        None => new == ListM { pending: old.pending.push(op), ..old } && r
            == OpState::MissingCausalDependencies,
        Some(p) => if op.is_deleted {
            new == ListM { ops: mark_deleted(old.ops, p), ..old } && r == OpState::Applied
        } else if find_index(old.ops, op.id) is Some {
            new == old && r == OpState::Applied
        } else {
            new == ListM {
                ops: old.ops.insert(scan_pos(old.ops, op, p, p + 1), op),
                our_seq: if op.seq > old.our_seq {
                    op.seq
                } else {
                    old.our_seq
                },
                ..old
            } && r == OpState::Applied
        },
    }
}

/// One list release step, spelled out: the first parked op whose anchor
/// has arrived leaves the queue at position `k` and is integrated with
/// result `r`.
pub open spec fn list_release_step_at(s: ListM, t: ListM, k: int, r: OpState) -> bool {
    &&& 0 <= k < s.pending.len()
    &&& find_index(s.ops, s.pending[k].origin) is Some
    &&& (forall|j: int|
        0 <= j < k ==> (#[trigger] find_index(s.ops, s.pending[j].origin)) is None)
    &&& integrate_one_post(ListM { pending: s.pending.remove(k), ..s }, t, s.pending[k], r)
}

/// One list release step happened between the two states.
pub open spec fn list_release_step(s: ListM, t: ListM) -> bool {
    exists|k: int, r: OpState| #![auto] list_release_step_at(s, t, k, r)
}

/// `t` is reachable from `s` by zero or more list release steps: no op
/// leaves the parking queue except by being integrated into the log.
pub open spec fn list_releases_to(s: ListM, t: ListM) -> bool
    decreases s.pending.len(),
{
    ||| s == t
    ||| exists|m: ListM| #![auto]
        list_release_step(s, m) && m.pending.len() < s.pending.len() && list_releases_to(m, t)
}

/// List release reachability extends by one more step.
pub proof fn lemma_list_releases_to_extend(a: ListM, b: ListM, c: ListM)
    requires
        list_releases_to(a, b),
        list_release_step(b, c),
    ensures
        list_releases_to(a, c),
    decreases a.pending.len(),
{
    if a == b {
        let (k, r) = choose|k: int, r: OpState| #![auto] list_release_step_at(b, c, k, r);
        assert(c.pending.len() < a.pending.len()) by {
            let mid = ListM { pending: a.pending.remove(k), ..a };
            match find_index(mid.ops, a.pending[k].origin) {
                None => {
                    assert(false);
                },
                Some(p) => {
                    if a.pending[k].is_deleted {
                    } else if find_index(mid.ops, a.pending[k].id) is Some {
                    } else {
                    }
                },
            }
        }
        assert(list_releases_to(c, c));
        assert(list_release_step(a, c) && c.pending.len() < a.pending.len() && list_releases_to(
            c,
            c,
        ));
    } else {
        let m = choose|m: ListM| #![auto]
            list_release_step(a, m) && m.pending.len() < a.pending.len() && list_releases_to(m, b);
        lemma_list_releases_to_extend(m, b, c);
        assert(list_release_step(a, m) && m.pending.len() < a.pending.len() && list_releases_to(
            m,
            c,
        ));
    }
}

/// What integrating one op does to a list, release cascade included. Every
/// case but the cascade (a parked op anchored to the new one) pins the new
/// state exactly; the cascade reaches the new state from the freshly
/// extended log by release steps alone, so no parked op is ever discarded.
pub open spec fn integrate_post(old: ListM, new: ListM, op: OpM<NodeV>, r: OpState) -> bool {
    &&& (find_index(old.ops, op.origin) is None ==> new == ListM {
        pending: old.pending.push(op),
        ..old
    } && r == OpState::MissingCausalDependencies)
    &&& (find_index(old.ops, op.origin) matches Some(p) ==> {
        &&& (op.is_deleted ==> new == ListM { ops: mark_deleted(old.ops, p), ..old } && r
            == OpState::Applied)
        &&& (!op.is_deleted && find_index(old.ops, op.id) is Some ==> new == old && r
            == OpState::Applied)
        &&& (!op.is_deleted && find_index(old.ops, op.id) is None ==> {
            &&& r == OpState::Applied
            &&& list_releases_to(
                ListM {
                    ops: old.ops.insert(scan_pos(old.ops, op, p, p + 1), op),
                    our_seq: if op.seq > old.our_seq {
                        op.seq
                    } else {
                        old.our_seq
                    },
                    ..old
                },
                new,
            )
            &&& ((forall|k: int| 0 <= k < old.pending.len() ==> old.pending[k].origin != op.id)
                ==> new == ListM {
                ops: old.ops.insert(scan_pos(old.ops, op, p, p + 1), op),
                our_seq: if op.seq > old.our_seq {
                    op.seq
                } else {
                    old.our_seq
                },
                ..old
            })
            &&& ids_kept(old.ops, new.ops)
            &&& find_index(new.ops, op.id) is Some
            &&& new.ops.len() > old.ops.len()
            &&& new.pending.len() <= old.pending.len()
        })
    })
}

/// `find_from` answers whether an op with the id sits at or after `i`.
pub proof fn lemma_find_from_exists(ops: Seq<OpM<NodeV>>, id: Seq<u8>, i: int)
    requires
        0 <= i <= ops.len(),
    ensures
        (find_from(ops, id, i) is Some) <==> exists|k: int| i <= k < ops.len() && ops[k].id == id,
    decreases ops.len() - i,
{
    if i < ops.len() {
        lemma_find_from_exists(ops, id, i + 1);
        if ops[i].id == id {
            assert(i <= i < ops.len() && ops[i].id == id);
        }
    }
}

/// Two logs with the same ids pointwise agree on every lookup.
pub proof fn lemma_find_same_ids(a: Seq<OpM<NodeV>>, b: Seq<OpM<NodeV>>, id: Seq<u8>, i: int)
    requires
        a.len() == b.len(),
        forall|k: int| 0 <= k < a.len() ==> a[k].id == b[k].id,
        0 <= i <= a.len(),
    ensures
        find_from(a, id, i) == find_from(b, id, i),
    decreases a.len() - i,
{
    if i < a.len() && a[i].id != id {
        lemma_find_same_ids(a, b, id, i + 1);
    }
}

/// Integrating one op keeps every id that was in the log.
pub proof fn lemma_integrate_one_keeps_ids(old: ListM, new: ListM, op: OpM<NodeV>, r: OpState)
    requires
        integrate_one_post(old, new, op, r),
    ensures
        ids_kept(old.ops, new.ops),
{
    assert forall|id: Seq<u8>| find_index(old.ops, id) is Some implies find_index(
        new.ops,
        id,
    ) is Some by {
        lemma_find_from_exists(old.ops, id, 0);
        lemma_find_from_exists(new.ops, id, 0);
        match find_index(old.ops, op.origin) {
            None => {},
            Some(p) => {
                lemma_find_from(old.ops, op.origin, 0);
                if op.is_deleted {
                    let k = choose|k: int| 0 <= k < old.ops.len() && old.ops[k].id == id;
                    assert(new.ops == mark_deleted(old.ops, p));
                    assert(new.ops[k].id == id);
                } else if find_index(old.ops, op.id) is Some {
                } else {
                    let pos = scan_pos(old.ops, op, p, p + 1);
                    lemma_scan_pos_range(old.ops, op, p, p + 1);
                    old.ops.insert_ensures(pos, op);
                    let k = choose|k: int| 0 <= k < old.ops.len() && old.ops[k].id == id;
                    if k < pos {
                        assert(new.ops[k].id == id);
                    } else {
                        assert(new.ops[k + 1].id == id);
                    }
                }
            },
        }
    }
}

/// `ids_kept` composes.
pub proof fn lemma_ids_kept_trans(a: Seq<OpM<NodeV>>, b: Seq<OpM<NodeV>>, c: Seq<OpM<NodeV>>)
    requires
        ids_kept(a, b),
        ids_kept(b, c),
    ensures
        ids_kept(a, c),
{
    assert forall|id: Seq<u8>| find_index(a, id) is Some implies find_index(c, id) is Some by {
        assert(find_index(b, id) is Some);
    }
}

/// The scan position lies between the anchor and the end of the log.
pub proof fn lemma_scan_pos_range(ops: Seq<OpM<NodeV>>, op: OpM<NodeV>, p: int, i: int)
    requires
        0 <= i <= ops.len(),
    ensures
        i <= scan_pos(ops, op, p, i) <= ops.len(),
    decreases ops.len() - i,
{
    if i < ops.len() && !place_before(ops, op, p, i) {
        lemma_scan_pos_range(ops, op, p, i + 1);
    }
}

/// Integrating one op preserves the well-formedness of the log.
pub proof fn lemma_integrate_one_wf(old: ListM, new: ListM, op: OpM<NodeV>, r: OpState)
    requires
        ops_wf(old),
        integrate_one_post(old, new, op, r),
    ensures
        ops_wf(new),
{
    lemma_integrate_one_keeps_ids(old, new, op, r);
    match find_index(old.ops, op.origin) {
        None => {},
        Some(p) => {
            lemma_find_from(old.ops, op.origin, 0);
            if op.is_deleted {
                assert forall|k: int| 0 <= k < new.ops.len() implies (#[trigger] find_index(
                    new.ops,
                    new.ops[k].origin,
                )) is Some by {
                    assert(new.ops[k].origin == old.ops[k].origin);
                    assert(find_index(old.ops, old.ops[k].origin) is Some);
                    lemma_find_same_ids(old.ops, new.ops, old.ops[k].origin, 0);
                }
                lemma_find_same_ids(old.ops, new.ops, root_id_spec(), 0);
                assert(new.ops[0].id == old.ops[0].id);
            } else if find_index(old.ops, op.id) is Some {
            } else {
                let pos = scan_pos(old.ops, op, p, p + 1);
                lemma_scan_pos_range(old.ops, op, p, p + 1);
                old.ops.insert_ensures(pos, op);
                assert(new.ops[0].id == old.ops[0].id);
                assert forall|k: int| 0 <= k < new.ops.len() implies (#[trigger] find_index(
                    new.ops,
                    new.ops[k].origin,
                )) is Some by {
                    if k == pos {
                        assert(new.ops[k].origin == op.origin);
                        assert(find_index(old.ops, op.origin) is Some);
                    } else {
                        let k0: int = if k < pos {
                            k
                        } else {
                            k - 1
                        };
                        assert(new.ops[k].origin == old.ops[k0].origin);
                        assert(find_index(old.ops, old.ops[k0].origin) is Some);
                    }
                }
            }
        },
    }
}

impl ListCrdt {
    /// Create a list CRDT whose elements are bare values.
    pub fn new(id: AuthorId, path: Vec<PathSegment>) -> (r: ListCrdt)
        ensures
            r.model().our_id == id@,
            r.model().path == path_view(path@),
            r.model().ops == seq![crate::op::root_op_m::<NodeV>()],
            r.model().elem_schema == SchemaV::Primitive,
            r.model().pending == Seq::<OpM<NodeV>>::empty(),
            r.model().our_seq == 0,
            list_wf(r.model()),
    {
        Self::new_with_schema(id, path, Schema::Primitive)
    }

    /// Create a list CRDT whose elements follow the given schema.
    pub fn new_with_schema(id: AuthorId, path: Vec<PathSegment>, elem: Schema) -> (r: ListCrdt)
        ensures
            r.model().our_id == id@,
            r.model().path == path_view(path@),
            r.model().ops == seq![crate::op::root_op_m::<NodeV>()],
            r.model().elem_schema == schema_view(elem),
            r.model().pending == Seq::<OpM<NodeV>>::empty(),
            r.model().our_seq == 0,
            list_wf(r.model()),
    {
        let mut ops: Vec<Op<Node>> = Vec::new();
        ops.push(Op::make_root());
        let r = ListCrdt { our_id: id, path, ops, elem_schema: elem, pending: Vec::new(), our_seq: 0 };
        proof {
            lemma_ops_model(r.ops@);
            assert(node_op_model(r.ops@[0]) == crate::op::root_op_m::<NodeV>());
            assert(r.model().ops =~= seq![crate::op::root_op_m::<NodeV>()]);
            assert(ops_model(Seq::<Op<Node>>::empty()) =~= Seq::<OpM<NodeV>>::empty());
            assert(find_from(r.model().ops, root_id_spec(), 0) == Some(0int));
        }
        r
    }

    /// The highest lamport counter integrated here; `insert` and `delete`
    /// need it below the maximum, so unverified callers can test it first.
    pub fn our_seq(&self) -> (r: u64)
        ensures
            r == self.model().our_seq,
    {
        self.our_seq
    }

    /// The shape of this list's elements.
    pub fn elem_schema(&self) -> (r: &Schema)
        ensures
            schema_view(*r) == self.model().elem_schema,
    {
        &self.elem_schema
    }

    /// Find the position of the op with the given id.
    pub fn find_idx(&self, id: &crate::op::OpId) -> (r: Option<usize>)
        ensures
            match r {
                Some(i) => find_index(self.model().ops, id@) == Some(i as int),
                None => find_index(self.model().ops, id@) is None,
            },
    {
        proof {
            lemma_ops_model(self.ops@);
        }
        let ghost m = self.model().ops;
        let mut i: usize = 0;
        while i < self.ops.len()
            invariant
                i <= self.ops@.len(),
                m == ops_model(self.ops@),
                m.len() == self.ops@.len(),
                forall|k: int| 0 <= k < m.len() ==> m[k] == node_op_model(self.ops@[k]),
                find_from(m, id@, 0) == find_from(m, id@, i as int),
            decreases self.ops@.len() - i,
        {
            if crate::bytes_eq(&self.ops[i].id, id) {
                return Some(i);
            }
            i += 1;
        }
        None
    }
}

impl ListCrdt {
    /// Integrate one converted op, without releasing parked dependents.
    #[verifier::loop_isolation(false)]
    fn integrate_one(&mut self, op: Op<Node>) -> (r: OpState)
        requires
            ops_wf(old(self).model()),
        ensures
            integrate_one_post(old(self).model(), final(self).model(), node_op_model(op), r),
            ops_wf(final(self).model()),
    {
        let ghost m0 = self.model();
        let ghost opm = node_op_model(op);
        proof {
            lemma_ops_model(self.ops@);
            lemma_ops_model(self.pending@);
        }
        let origin_idx = self.find_idx(&op.origin);
        match origin_idx {
            None => {
                self.pending.push(op);
                proof {
                    lemma_ops_model(self.pending@);
                    assert(ops_model(self.pending@) =~= m0.pending.push(opm));
                    assert(self.model() =~= (ListM { pending: m0.pending.push(opm), ..m0 }));
                    lemma_integrate_one_wf(m0, self.model(), opm, OpState::MissingCausalDependencies);
                }
                OpState::MissingCausalDependencies
            },
            Some(p) => {
                proof {
                    lemma_find_from(m0.ops, opm.origin, 0);
                }
                if op.is_deleted {
                    let target = &mut self.ops[p];
                    target.is_deleted = true;
                    proof {
                        lemma_ops_model(self.ops@);
                        assert(self.ops@ == old(self).ops@.update(
                            p as int,
                            Op { is_deleted: true, ..old(self).ops@[p as int] },
                        ));
                        assert forall|k: int| 0 <= k < self.ops@.len() implies ops_model(
                            self.ops@,
                        )[k] == mark_deleted(m0.ops, p as int)[k] by {
                            assert(ops_model(self.ops@)[k] == node_op_model(self.ops@[k]));
                            assert(m0.ops[k] == node_op_model(old(self).ops@[k]));
                        }
                        assert(ops_model(self.ops@) =~= mark_deleted(m0.ops, p as int));
                        assert(self.model() =~= (ListM {
                            ops: mark_deleted(m0.ops, p as int),
                            ..m0
                        }));
                        lemma_integrate_one_wf(m0, self.model(), opm, OpState::Applied);
                    }
                    return OpState::Applied;
                }
                let dup = self.find_idx(&op.id);
                if dup.is_some() {
                    return OpState::Applied;
                }
                let n = self.ops.len();
                proof {
                    assert(m0.ops.len() == self.ops@.len());
                    assert(0 <= p < n);
                }
                let mut i: usize = p + 1;
                proof {
                    assert(scan_pos(m0.ops, opm, p as int, p + 1) == scan_pos(
                        m0.ops,
                        opm,
                        p as int,
                        i as int,
                    ));
                }
                loop
                    invariant
                        p + 1 <= i <= self.ops@.len(),
                        scan_pos(m0.ops, opm, p as int, p + 1) == scan_pos(
                            m0.ops,
                            opm,
                            p as int,
                            i as int,
                        ),
                    decreases self.ops@.len() - i,
                {
                    if i >= self.ops.len() {
                        break ;
                    }
                    let q_opt = self.find_idx(&self.ops[i].origin);
                    let q = match q_opt {
                        Some(q) => q,
                        None => {
                            proof {
                                assert(m0.ops[i as int] == node_op_model(self.ops@[i as int]));
                                assert(find_index(m0.ops, m0.ops[i as int].origin) is Some);
                                assert(false);
                            }
                            vstd::pervasive::unreached()
                        },
                    };
                    let place = if p > q {
                        true
                    } else if p == q {
                        if op.seq > self.ops[i].seq {
                            true
                        } else if op.seq == self.ops[i].seq {
                            bytes_lt_exec(&self.ops[i].author, &op.author)
                        } else {
                            false
                        }
                    } else {
                        false
                    };
                    proof {
                        assert(m0.ops[i as int] == node_op_model(self.ops@[i as int]));
                        assert(place == place_before(m0.ops, opm, p as int, i as int));
                    }
                    if place {
                        break ;
                    }
                    i += 1;
                }
                proof {
                    assert(i as int == scan_pos(m0.ops, opm, p as int, p + 1));
                }
                let new_seq = if op.seq > self.our_seq {
                    op.seq
                } else {
                    self.our_seq
                };
                self.ops.insert(i, op);
                self.our_seq = new_seq;
                proof {
                    lemma_ops_model(self.ops@);
                    old(self).ops@.insert_ensures(i as int, op);
                    m0.ops.insert_ensures(i as int, opm);
                    assert forall|k: int| 0 <= k < self.ops@.len() implies ops_model(
                        self.ops@,
                    )[k] == m0.ops.insert(i as int, opm)[k] by {
                        assert(ops_model(self.ops@)[k] == node_op_model(self.ops@[k]));
                        if k < i as int {
                            assert(self.ops@[k] == old(self).ops@[k]);
                            assert(m0.ops[k] == node_op_model(old(self).ops@[k]));
                        } else if k == i as int {
                        } else {
                            assert(self.ops@[k] == old(self).ops@[k - 1]);
                            assert(m0.ops[k - 1] == node_op_model(old(self).ops@[k - 1]));
                        }
                    }
                    assert(ops_model(self.ops@) =~= m0.ops.insert(i as int, opm));
                    assert(self.model() =~= (ListM {
                        ops: m0.ops.insert(i as int, opm),
                        our_seq: if opm.seq > m0.our_seq {
                            opm.seq
                        } else {
                            m0.our_seq
                        },
                        ..m0
                    }));
                    lemma_integrate_one_wf(m0, self.model(), opm, OpState::Applied);
                }
                OpState::Applied
            },
        }
    }

    /// Append a converted op at the end of the log; only for building a
    /// list from a JSON array, where each element is anchored to the one
    /// before it.
    pub(crate) fn push_tail(&mut self, op: Op<Node>)
        ensures
            final(self).model() == (ListM {
                ops: old(self).model().ops.push(node_op_model(op)),
                ..old(self).model()
            }),
    {
        proof {
            lemma_ops_model(self.ops@);
        }
        let ghost m0 = self.model();
        self.ops.push(op);
        proof {
            lemma_ops_model(self.ops@);
            assert(ops_model(self.ops@) =~= m0.ops.push(node_op_model(op)));
            assert(self.model() =~= (ListM { ops: m0.ops.push(node_op_model(op)), ..m0 }));
        }
    }

    /// Set the lamport counter; only for building a list from a JSON array.
    pub(crate) fn set_seq(&mut self, seq: u64)
        ensures
            final(self).model() == (ListM { our_seq: seq, ..old(self).model() }),
    {
        let ghost m0 = self.model();
        self.our_seq = seq;
        proof {
            assert(self.model() =~= (ListM { our_seq: seq, ..m0 }));
        }
    }

    /// The position of some parked op whose anchor has arrived, if any.
    #[verifier::loop_isolation(false)]
    fn find_releasable(&self) -> (r: Option<usize>)
        ensures
            match r {
                Some(k) => k < self.model().pending.len() && find_index(
                    self.model().ops,
                    self.model().pending[k as int].origin,
                ) is Some && forall|j: int|
                    0 <= j < k ==> (#[trigger] find_index(
                        self.model().ops,
                        self.model().pending[j].origin,
                    )) is None,
                None => pending_blocked(self.model()),
            },
    {
        proof {
            lemma_ops_model(self.pending@);
        }
        let mut j: usize = 0;
        while j < self.pending.len()
            invariant
                j <= self.pending@.len(),
                forall|k: int|
                    0 <= k < j ==> (#[trigger] find_index(
                        self.model().ops,
                        self.model().pending[k].origin,
                    )) is None,
            decreases self.pending@.len() - j,
        {
            let hit = self.find_idx(&self.pending[j].origin);
            if hit.is_some() {
                proof {
                    assert(self.model().pending[j as int] == node_op_model(self.pending@[j as int]));
                }
                return Some(j);
            }
            proof {
                assert(self.model().pending[j as int] == node_op_model(self.pending@[j as int]));
            }
            j += 1;
        }
        None
    }

    /// Integrate one converted op and release every parked op whose anchor
    /// has become known, until none is left.
    pub(crate) fn apply_node_op(&mut self, op: Op<Node>) -> (r: OpState)
        requires
            list_wf(old(self).model()),
            crate::json_crdt::node_ops_wf(old(self).model().ops),
            crate::json_crdt::node_ops_wf(old(self).model().pending),
            match node_op_model(op).content {
                Some(n) => crate::json_crdt::node_wf(n),
                None => true,
            },
        ensures
            list_wf(final(self).model()),
            crate::json_crdt::node_ops_wf(final(self).model().ops),
            crate::json_crdt::node_ops_wf(final(self).model().pending),
            final(self).model().our_id == old(self).model().our_id,
            final(self).model().path == old(self).model().path,
            final(self).model().elem_schema == old(self).model().elem_schema,
            integrate_post(old(self).model(), final(self).model(), node_op_model(op), r),
    {
        let ghost m0 = self.model();
        let ghost opm = node_op_model(op);
        let r = self.integrate_one(op);
        let ghost m1 = self.model();
        let ghost inserted = find_index(m0.ops, opm.origin) is Some && !opm.is_deleted
            && find_index(m0.ops, opm.id) is None;
        let ghost nodeps = forall|k: int|
            0 <= k < m0.pending.len() ==> m0.pending[k].origin != opm.id;
        let ghost p0 = find_index(m0.ops, opm.origin)->Some_0;
        let ghost smid = ListM {
            ops: m0.ops.insert(scan_pos(m0.ops, opm, p0, p0 + 1), opm),
            our_seq: if opm.seq > m0.our_seq {
                opm.seq
            } else {
                m0.our_seq
            },
            ..m0
        };
        proof {
            lemma_integrate_one_keeps_ids(m0, m1, opm, r);
            crate::json_crdt::lemma_integrate_one_contents_wf(m0, m1, opm, r);
            if find_index(m0.ops, opm.origin) is None {
                assert(m1.ops == m0.ops);
                assert(pending_blocked(m1)) by {
                    assert forall|k: int| 0 <= k < m1.pending.len() implies (#[trigger] find_index(
                        m1.ops,
                        m1.pending[k].origin,
                    )) is None by {
                        if k < m0.pending.len() {
                            assert(find_index(m0.ops, m0.pending[k].origin) is None);
                        } else {
                            assert(m1.pending[k] == opm);
                        }
                    }
                }
            } else if !inserted {
                lemma_find_from(m0.ops, opm.origin, 0);
                assert(m1.pending == m0.pending && m1.ops.len() == m0.ops.len() && forall|k: int|
                    0 <= k < m1.ops.len() ==> m1.ops[k].id == m0.ops[k].id);
                assert(pending_blocked(m1)) by {
                    assert forall|k: int| 0 <= k < m1.pending.len() implies (#[trigger] find_index(
                        m1.ops,
                        m1.pending[k].origin,
                    )) is None by {
                        assert(find_index(m0.ops, m0.pending[k].origin) is None);
                        lemma_find_same_ids(m0.ops, m1.ops, m0.pending[k].origin, 0);
                    }
                }
            } else {
                lemma_find_from(m0.ops, opm.origin, 0);
                let p = find_index(m0.ops, opm.origin)->Some_0;
                let pos = scan_pos(m0.ops, opm, p, p + 1);
                lemma_scan_pos_range(m0.ops, opm, p, p + 1);
                m0.ops.insert_ensures(pos, opm);
                assert(m1.ops == m0.ops.insert(pos, opm));
                assert(m1.ops[pos].id == opm.id);
                lemma_find_from_exists(m1.ops, opm.id, 0);
                assert(find_index(m1.ops, opm.id) is Some);
                assert(m1.pending == m0.pending);
                if nodeps {
                    assert(pending_blocked(m1)) by {
                        assert forall|k: int| 0 <= k < m1.pending.len() implies (
                        #[trigger] find_index(m1.ops, m1.pending[k].origin)) is None by {
                            assert(find_index(m0.ops, m0.pending[k].origin) is None);
                            lemma_find_from_exists(m0.ops, m0.pending[k].origin, 0);
                            lemma_find_from_exists(m1.ops, m1.pending[k].origin, 0);
                            if find_index(m1.ops, m1.pending[k].origin) is Some {
                                let j = choose|j: int|
                                    0 <= j < m1.ops.len() && m1.ops[j].id == m1.pending[k].origin;
                                if j < pos {
                                    assert(m0.ops[j].id == m1.pending[k].origin);
                                } else if j == pos {
                                    assert(m1.ops[j].id == opm.id);
                                } else {
                                    assert(m0.ops[j - 1].id == m1.pending[k].origin);
                                }
                            }
                        }
                    }
                }
            }
        }
        proof {
            if inserted {
                assert(m1 == smid);
                assert(list_releases_to(smid, m1));
            }
        }
        loop
            invariant
                ops_wf(self.model()),
                crate::json_crdt::node_ops_wf(self.model().ops),
                crate::json_crdt::node_ops_wf(self.model().pending),
                inserted ==> list_releases_to(smid, self.model()),
                self.model().our_id == m0.our_id,
                self.model().path == m0.path,
                self.model().elem_schema == m0.elem_schema,
                !inserted ==> self.model() == m1 && pending_blocked(self.model()),
                inserted && nodeps ==> self.model() == m1 && pending_blocked(self.model()),
                inserted ==> ids_kept(m0.ops, self.model().ops) && find_index(
                    self.model().ops,
                    opm.id,
                ) is Some && self.model().ops.len() > m0.ops.len() && self.model().pending.len()
                    <= m0.pending.len(),
            ensures
                pending_blocked(self.model()),
            decreases self.model().pending.len(),
        {
            let ghost mc = self.model();
            let rel = self.find_releasable();
            match rel {
                None => {
                    break ;
                },
                Some(k) => {
                    proof {
                        lemma_ops_model(self.pending@);
                    }
                    let w = self.pending.remove(k);
                    proof {
                        lemma_ops_model(self.pending@);
                        assert(ops_model(self.pending@) =~= mc.pending.remove(k as int));
                        assert(node_op_model(w) == mc.pending[k as int]);
                        assert(self.model() =~= (ListM {
                            pending: mc.pending.remove(k as int),
                            ..mc
                        }));
                        assert(find_index(self.model().ops, node_op_model(w).origin) is Some);
                        crate::json_crdt::lemma_node_ops_wf(mc.pending);
                        crate::json_crdt::lemma_node_ops_wf(self.model().pending);
                        mc.pending.remove_ensures(k as int);
                        assert(crate::json_crdt::node_ops_wf(self.model().pending)) by {
                            assert forall|j: int|
                                0 <= j < self.model().pending.len() implies match (
                            #[trigger] self.model().pending[j]).content {
                                Some(n) => crate::json_crdt::node_wf(n),
                                None => true,
                            } by {
                                if j < k as int {
                                    assert(self.model().pending[j] == mc.pending[j]);
                                } else {
                                    assert(self.model().pending[j] == mc.pending[j + 1]);
                                }
                            }
                        }
                    }
                    let ghost mr = self.model();
                    let rw = self.integrate_one(w);
                    proof {
                        let wm = node_op_model(w);
                        assert(mr == (ListM { pending: mc.pending.remove(k as int), ..mc }));
                        assert(wm == mc.pending[k as int]);
                        assert(list_release_step_at(mc, self.model(), k as int, rw));
                        assert(list_release_step(mc, self.model()));
                        if inserted {
                            lemma_list_releases_to_extend(smid, mc, self.model());
                        }
                        lemma_integrate_one_keeps_ids(mr, self.model(), wm, rw);
                        crate::json_crdt::lemma_integrate_one_contents_wf(
                            mr,
                            self.model(),
                            wm,
                            rw,
                        );
                        lemma_ids_kept_trans(m0.ops, mr.ops, self.model().ops);
                        lemma_find_from(mr.ops, wm.origin, 0);
                        let pw = find_index(mr.ops, wm.origin)->Some_0;
                        if !wm.is_deleted && find_index(mr.ops, wm.id) is None {
                            let pos = scan_pos(mr.ops, wm, pw, pw + 1);
                            lemma_scan_pos_range(mr.ops, wm, pw, pw + 1);
                            mr.ops.insert_ensures(pos, wm);
                        }
                        assert(self.model().pending == mr.pending);
                        assert(self.model().ops.len() >= mr.ops.len());
                        if inserted {
                            assert(find_index(mr.ops, opm.id) is Some);
                        }
                    }
                },
            }
        }
        r
    }
}

impl ListCrdt {
    /// Apply a wire operation (local or remote): reject a tampered or
    /// misaddressed op, route a deeper op into the element its path names,
    /// and integrate an op addressed at this list.
    pub fn apply(&mut self, op: Op<Value>) -> (r: OpState)
        requires
            crate::json_crdt::list_node_wf(old(self).model()),
        ensures
            crate::json_crdt::list_node_wf(final(self).model()),
            crate::json_crdt::list_apply_post(old(self).model(), final(self).model(), op@, r),
        decreases *old(self), 0nat,
    {
        let ghost m0 = self.model();
        if !op.is_valid_hash() {
            return OpState::ErrHashMismatch;
        }
        if !crate::op::ensure_subpath(&self.path, &op.path) {
            return OpState::ErrPathMismatch;
        }
        proof {
            lemma_ops_model(self.ops@);
        }
        if op.path.len() > self.path.len() && op.path.len() - self.path.len() > 1 {
            let seg_idx = self.path.len();
            match &op.path[seg_idx] {
                PathSegment::Index(target) => {
                    let found = self.find_idx(target);
                    match found {
                        Some(idx) => {
                            proof {
                                lemma_find_from(m0.ops, op@.path[m0.path.len() as int]->Index_0, 0);
                                crate::json_crdt::lemma_node_ops_wf(m0.ops);
                            }
                            let ghost old_ops_view = self.ops@;
                            let elem = &mut self.ops[idx];
                            let taken = elem.content.take();
                            match taken {
                                None => {
                                    elem.content = None;
                                    proof {
                                        assert(m0.ops[idx as int].content is None);
                                        assert(self.ops@ =~= old_ops_view);
                                        assert(ops_model(self.ops@) =~= m0.ops);
                                        assert(self.model() =~= m0);
                                    }
                                    OpState::ErrListApplyToEmpty
                                },
                                Some(mut node) => {
                                    proof {
                                        assert(node_op_model(old_ops_view[idx as int]).content
                                            == Some(crate::json_crdt::node_model(node)));
                                        assert(crate::json_crdt::node_wf(
                                            crate::json_crdt::node_model(node),
                                        ));
                                        assert(decreases_to!(*old(self), 0nat => node, 2nat));
                                    }
                                    let r = node.apply(op);
                                    elem.content = Some(node);
                                    proof {
                                        lemma_ops_model(self.ops@);
                                        crate::json_crdt::lemma_node_ops_wf(ops_model(self.ops@));
                                        crate::json_crdt::lemma_node_ops_wf(m0.ops);
                                        assert(forall|k: int|
                                            0 <= k < self.ops@.len() && k != idx as int
                                                ==> self.ops@[k] == old_ops_view[k]);
                                        assert forall|k: int|
                                            0 <= k < m0.ops.len() implies crate::json_crdt::same_meta(
                                            #[trigger] self.model().ops[k],
                                            m0.ops[k],
                                        ) by {
                                            assert(self.model().ops[k] == node_op_model(
                                                self.ops@[k],
                                            ));
                                        }
                                        assert forall|k: int|
                                            0 <= k < self.model().ops.len() implies (
                                        #[trigger] find_index(
                                            self.model().ops,
                                            self.model().ops[k].origin,
                                        )) is Some by {
                                            assert(find_index(m0.ops, m0.ops[k].origin) is Some);
                                            lemma_find_same_ids(
                                                m0.ops,
                                                self.model().ops,
                                                m0.ops[k].origin,
                                                0,
                                            );
                                        }
                                        assert forall|k: int|
                                            0 <= k < self.model().pending.len() implies (
                                        #[trigger] find_index(
                                            self.model().ops,
                                            self.model().pending[k].origin,
                                        )) is None by {
                                            assert(find_index(
                                                m0.ops,
                                                m0.pending[k].origin,
                                            ) is None);
                                            lemma_find_same_ids(
                                                m0.ops,
                                                self.model().ops,
                                                m0.pending[k].origin,
                                                0,
                                            );
                                        }
                                        if !crate::op::op_hash_ok(op@) {
                                            assert(ops_model(self.ops@) =~= m0.ops);
                                            assert(self.model() =~= m0);
                                        }
                                    }
                                    r
                                },
                            }
                        },
                        None => OpState::ErrPathMismatch,
                    }
                },
                PathSegment::Field(_) => OpState::ErrPathMismatch,
            }
        } else {
            let nop = crate::json_crdt::op_into_node(op, &self.elem_schema);
            self.apply_node_op(nop)
        }
    }

    /// Locally insert some content causally after the given op, returning
    /// the new op for signing and broadcast.
    pub fn insert(&mut self, after: crate::op::OpId, content: Value) -> (r: Op<Value>)
        requires
            crate::json_crdt::list_node_wf(old(self).model()),
            old(self).model().our_seq < u64::MAX,
        ensures
            crate::json_crdt::list_node_wf(final(self).model()),
            crate::op::op_hash_ok(r@),
            r@.origin == after@,
            r@.author == old(self).model().our_id,
            r@.seq == old(self).model().our_seq + 1,
            r@.is_deleted == false,
            r@.content == Some(content@),
            r@.path == old(self).model().path.push(SegV::Index(r@.id)),
            crate::json_crdt::list_apply_post(old(self).model(), final(self).model(), r@, if
                find_index(old(self).model().ops, after@) is Some {
                OpState::Applied
            } else {
                OpState::MissingCausalDependencies
            }),
    {
        let ghost m0 = self.model();
        let op = Op::<Value>::new(
            after,
            crate::op::copy_bytes(&self.our_id),
            self.our_seq + 1,
            false,
            Some(content),
            crate::op::copy_path(&self.path),
        );
        let seg = PathSegment::Index(crate::op::copy_bytes(&op.id));
        let op2 = Op::<Value> { path: crate::op::join_path(op.path, seg), ..op };
        let copy = op2.duplicate();
        let st = self.apply(copy);
        proof {
            assert(crate::op::is_subpath(m0.path, op2@.path));
            assert(op2@.path.len() == m0.path.len() + 1);
            if find_index(m0.ops, op2@.origin) is Some {
                assert(st == OpState::Applied);
            } else {
                assert(st == OpState::MissingCausalDependencies);
            }
        }
        op2
    }

    /// Mark the op with the given id as deleted, returning the tombstone op
    /// for signing and broadcast. Deleting an id this list has not seen yet
    /// parks the tombstone until the target arrives.
    pub fn delete(&mut self, id: crate::op::OpId) -> (r: Op<Value>)
        requires
            crate::json_crdt::list_node_wf(old(self).model()),
            old(self).model().our_seq < u64::MAX,
        ensures
            crate::json_crdt::list_node_wf(final(self).model()),
            crate::op::op_hash_ok(r@),
            r@.origin == id@,
            r@.author == old(self).model().our_id,
            r@.seq == old(self).model().our_seq + 1,
            r@.is_deleted == true,
            r@.content is None,
            r@.path == old(self).model().path.push(SegV::Index(id@)),
            crate::json_crdt::list_apply_post(old(self).model(), final(self).model(), r@, if
                find_index(old(self).model().ops, id@) is Some {
                OpState::Applied
            } else {
                OpState::MissingCausalDependencies
            }),
    {
        let ghost m0 = self.model();
        let seg = PathSegment::Index(crate::op::copy_bytes(&id));
        let op = Op::<Value>::new(
            id,
            crate::op::copy_bytes(&self.our_id),
            self.our_seq + 1,
            true,
            None,
            crate::op::join_path(crate::op::copy_path(&self.path), seg),
        );
        let copy = op.duplicate();
        let st = self.apply(copy);
        proof {
            assert(crate::op::is_subpath(m0.path, op@.path));
            assert(op@.path.len() == m0.path.len() + 1);
            if find_index(m0.ops, op@.origin) is Some {
                assert(st == OpState::Applied);
            } else {
                assert(st == OpState::MissingCausalDependencies);
            }
        }
        op
    }

    /// The position in the log of the `idx`-th op not marked deleted, the
    /// root sentinel counting as the zeroth.
    pub open spec fn nth_vis_from(ops: Seq<OpM<NodeV>>, idx: int, i: int) -> Option<int>
        decreases ops.len() - i,
    {
        if i < 0 || i >= ops.len() {
            None
        } else if !ops[i].is_deleted {
            if idx == 0 {
                Some(i)
            } else {
                Self::nth_vis_from(ops, idx - 1, i + 1)
            }
        } else {
            Self::nth_vis_from(ops, idx, i + 1)
        }
    }

    /// The id of the `idx`-th op not marked deleted, the root counting as
    /// the zeroth; `None` past the end. Useful for declaring a causal
    /// dependency on an op somebody else created.
    #[verifier::loop_isolation(false)]
    pub fn id_at(&self, idx: usize) -> (r: Option<crate::op::OpId>)
        ensures
            match r {
                Some(id) => Self::nth_vis_from(self.model().ops, idx as int, 0) matches Some(j)
                    && self.model().ops[j].id == id@,
                None => Self::nth_vis_from(self.model().ops, idx as int, 0) is None,
            },
    {
        proof {
            lemma_ops_model(self.ops@);
        }
        let ghost m = self.model().ops;
        let mut i: usize = 0;
        let mut remaining: usize = idx;
        while i < self.ops.len()
            invariant
                i <= self.ops@.len(),
                remaining <= idx,
                Self::nth_vis_from(m, idx as int, 0) == Self::nth_vis_from(
                    m,
                    remaining as int,
                    i as int,
                ),
            decreases self.ops@.len() - i,
        {
            if !self.ops[i].is_deleted {
                if remaining == 0 {
                    return Some(crate::op::copy_bytes(&self.ops[i].id));
                }
                remaining -= 1;
            }
            i += 1;
        }
        None
    }

    /// Locally insert some content after the `idx`-th op not marked
    /// deleted, the root sentinel counting as the zeroth: inserting at zero
    /// prepends. The index must exist.
    pub fn insert_idx(&mut self, idx: usize, content: Value) -> (r: Op<Value>)
        requires
            crate::json_crdt::list_node_wf(old(self).model()),
            old(self).model().our_seq < u64::MAX,
            Self::nth_vis_from(old(self).model().ops, idx as int, 0) is Some,
        ensures
            crate::json_crdt::list_node_wf(final(self).model()),
            crate::op::op_hash_ok(r@),
            r@.origin == old(self).model().ops[Self::nth_vis_from(
                old(self).model().ops,
                idx as int,
                0,
            )->Some_0].id,
            r@.author == old(self).model().our_id,
            r@.seq == old(self).model().our_seq + 1,
            r@.is_deleted == false,
            r@.content == Some(content@),
            r@.path == old(self).model().path.push(SegV::Index(r@.id)),
            crate::json_crdt::list_apply_post(
                old(self).model(),
                final(self).model(),
                r@,
                OpState::Applied,
            ),
    {
        proof {
            lemma_ops_model(self.ops@);
        }
        let ghost m = self.model().ops;
        let mut i: usize = 0;
        let mut remaining: usize = idx;
        let n = self.ops.len();
        while i < n
            invariant
                i <= n,
                n == self.ops@.len(),
                remaining <= idx,
                m == self.model().ops,
                m == ops_model(self.ops@),
                m.len() == self.ops@.len(),
                forall|k: int| 0 <= k < m.len() ==> m[k] == node_op_model(self.ops@[k]),
                crate::json_crdt::list_node_wf(self.model()),
                self.model() == old(self).model(),
                self.model().our_seq < u64::MAX,
                Self::nth_vis_from(m, idx as int, 0) == Self::nth_vis_from(
                    m,
                    remaining as int,
                    i as int,
                ),
                Self::nth_vis_from(m, idx as int, 0) is Some,
            decreases n - i,
        {
            proof {
                assert(m[i as int] == node_op_model(self.ops@[i as int]));
            }
            if !self.ops[i].is_deleted {
                if remaining == 0 {
                    let anchor = crate::op::copy_bytes(&self.ops[i].id);
                    proof {
                        lemma_find_from_exists(m, anchor@, 0);
                    }
                    let r = self.insert(anchor, content);
                    return r;
                }
                remaining -= 1;
            }
            i += 1;
        }
        proof {
            assert(Self::nth_vis_from(m, remaining as int, i as int) is None);
            assert(false);
        }
        vstd::pervasive::unreached()
    }
}

impl ListCrdt {
    /// Borrow the node stored in the element created by the op with the
    /// given id, if this list has it and it carries one.
    pub fn elem_node_mut(&mut self, id: &crate::op::OpId) -> (r: Option<&mut Node>) {
        proof {
            lemma_ops_model(self.ops@);
        }
        let found = self.find_idx(id);
        match found {
            Some(idx) => {
                proof {
                    lemma_find_from(self.model().ops, id@, 0);
                }
                match &mut self.ops[idx].content {
                    Some(node) => Some(node),
                    None => None,
                }
            },
            None => None,
        }
    }

    /// The values of the visible list elements, in integration order.
    #[verifier::loop_isolation(false)]
    pub fn view(&self) -> (r: Vec<Value>)
        ensures
            crate::value::views_of(r@) == crate::json_crdt::live_views_m(self.model().ops),
        decreases *self, 0nat,
    {
        proof {
            lemma_ops_model(self.ops@);
        }
        let ghost m = self.model().ops;
        let mut out: Vec<Value> = Vec::new();
        let mut i: usize = 0;
        proof {
            assert(m.skip(0) =~= m);
            assert(crate::value::views_of(Seq::<Value>::empty())
                + crate::json_crdt::live_views_m(m) =~= crate::json_crdt::live_views_m(m));
        }
        while i < self.ops.len()
            invariant
                i <= self.ops@.len(),
                crate::json_crdt::live_views_m(m) == crate::value::views_of(out@)
                    + crate::json_crdt::live_views_m(m.skip(i as int)),
            decreases self.ops@.len() - i,
        {
            proof {
                assert(m.skip(i as int)[0] == m[i as int]);
                assert(m.skip(i as int).drop_first() =~= m.skip(i + 1));
                assert(m[i as int] == node_op_model(self.ops@[i as int]));
            }
            if !self.ops[i].is_deleted {
                match &self.ops[i].content {
                    Some(node) => {
                        proof {
                            assert(decreases_to!(*self, 0nat => *node, 1nat));
                        }
                        let ghost old_out = out@;
                        let v = node.view();
                        out.push(v);
                        proof {
                            crate::value::lemma_views_of(old_out);
                            crate::value::lemma_views_of(out@);
                            assert(crate::value::views_of(out@) =~= crate::value::views_of(old_out)
                                + seq![crate::json_crdt::node_view_m(m[i as int].content->0)]) by {
                                assert forall|j: int|
                                    0 <= j < out@.len() implies crate::value::views_of(out@)[j]
                                    == (crate::value::views_of(old_out) + seq![
                                    crate::json_crdt::node_view_m(m[i as int].content->0),
                                ])[j] by {
                                    if j < old_out.len() {
                                        assert(out@[j] == old_out[j]);
                                    }
                                }
                            }
                            assert(crate::json_crdt::live_views_m(m) =~= crate::value::views_of(
                                out@,
                            ) + crate::json_crdt::live_views_m(m.skip(i + 1)));
                        }
                    },
                    None => {
                    },
                }
            }
            i += 1;
        }
        proof {
            assert(m.skip(self.ops@.len() as int).len() == 0);
            assert(crate::value::views_of(out@) =~= crate::json_crdt::live_views_m(m));
        }
        out
    }
}

/// Release steps never touch a list's identity, path or element shape.
pub proof fn lemma_list_releases_preserve(s: ListM, t: ListM)
    requires
        list_releases_to(s, t),
    ensures
        t.our_id == s.our_id,
        t.path == s.path,
        t.elem_schema == s.elem_schema,
    decreases s.pending.len(),
{
    if s == t {
    } else {
        let m = choose|m: ListM| #![auto]
            list_release_step(s, m) && m.pending.len() < s.pending.len() && list_releases_to(m, t);
        let (k, r) = choose|k: int, r: OpState| #![auto] list_release_step_at(s, m, k, r);
        let mid = ListM { pending: s.pending.remove(k), ..s };
        assert(integrate_one_post(mid, m, s.pending[k], r));
        match find_index(mid.ops, s.pending[k].origin) {
            None => {
            },
            Some(_) => {
            },
        }
        lemma_list_releases_preserve(m, t);
    }
}

} // verus!
