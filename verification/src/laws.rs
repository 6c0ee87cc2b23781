//! Convergence laws of the CRDTs, stated and proved over their models.
use crate::json_crdt::{node_apply_rel, NodeV, OpState};
use crate::list_crdt::{find_index, integrate_post, list_wf, ListM};
use crate::lww_crdt::{lww_apply, lww_view, LwwM};
use crate::op::OpM;
use crate::value::ValueV;
use vstd::prelude::*;

verus! {

/// The register after a whole sequence of ops, delivered in order.
pub open spec fn lww_apply_all(s: LwwM, ops: Seq<OpM<ValueV>>) -> LwwM
    decreases ops,
{
    if ops.len() == 0 {
        s
    } else {
        lww_apply_all(lww_apply(s, ops[0]), ops.drop_first())
    }
}

/// No two distinct ops of the batch claim the same author and counter: an
/// honest author never equivocates.
pub open spec fn no_equivocation(ops: Seq<OpM<ValueV>>) -> bool {
    forall|i: int, j: int|
        0 <= i < ops.len() && 0 <= j < ops.len() ==> (#[trigger] ops[i]).seq != (
        #[trigger] ops[j]).seq || ops[i].author != ops[j].author || ops[i] == ops[j]
}

/// Pulling the op at position `i` to the front does not change where a
/// register ends up, as long as it commutes with everything before it.
proof fn lemma_lww_pull_front(s: LwwM, ops: Seq<OpM<ValueV>>, i: int)
    requires
        0 <= i < ops.len(),
        no_equivocation(ops),
    ensures
        lww_apply_all(s, ops) == lww_apply_all(lww_apply(s, ops[i]), ops.remove(i)),
    decreases i,
{
    if i == 0 {
        assert(ops.remove(0) =~= ops.drop_first());
    } else {
        let h = ops[0];
        let x = ops[i];
        let rest = ops.drop_first();
        assert(rest[i - 1] == x);
        assert(no_equivocation(rest)) by {
            assert forall|a: int, b: int|
                0 <= a < rest.len() && 0 <= b < rest.len() implies (#[trigger] rest[a]).seq != (
            #[trigger] rest[b]).seq || rest[a].author != rest[b].author || rest[a] == rest[b] by {
                assert(rest[a] == ops[a + 1] && rest[b] == ops[b + 1]);
            }
        }
        lemma_lww_pull_front(lww_apply(s, h), rest, i - 1);
        crate::lww_crdt::lemma_lww_commutes(s, h, x);
        assert(lww_apply_all(lww_apply(lww_apply(s, x), h), rest.remove(i - 1)) == lww_apply_all(
            lww_apply(s, x),
            seq![h] + rest.remove(i - 1),
        )) by {
            let tail = seq![h] + rest.remove(i - 1);
            assert(tail[0] == h);
            assert(tail.drop_first() =~= rest.remove(i - 1));
        }
        assert(seq![h] + rest.remove(i - 1) =~= ops.remove(i));
    }
}

/// Strong eventual consistency of the register: two replicas that deliver
/// the same set of honest signed ops, each in whatever order, end in the
/// same state and so show the same view.
pub proof fn lemma_lww_strong_convergence(s: LwwM, ops1: Seq<OpM<ValueV>>, ops2: Seq<
    OpM<ValueV>,
>)
    requires
        ops1.to_multiset() == ops2.to_multiset(),
        no_equivocation(ops1),
    ensures
        lww_apply_all(s, ops1) == lww_apply_all(s, ops2),
        lww_view(lww_apply_all(s, ops1)) == lww_view(lww_apply_all(s, ops2)),
    decreases ops1.len(),
{
    broadcast use vstd::seq_lib::group_to_multiset_ensures;

    if ops2.len() == 0 {
        assert(ops1.to_multiset().len() == 0);
        assert(ops1.len() == 0);
    } else {
        let x = ops2[0];
        assert(ops2.contains(x));
        assert(ops2.to_multiset().count(x) > 0);
        assert(ops1.to_multiset().count(x) > 0);
        assert(ops1.contains(x));
        let i = choose|i: int| 0 <= i < ops1.len() && ops1[i] == x;
        lemma_lww_pull_front(s, ops1, i);
        let rest1 = ops1.remove(i);
        let rest2 = ops2.drop_first();
        assert(rest2 =~= ops2.remove(0));
        assert(rest1.to_multiset() == ops1.to_multiset().remove(x));
        assert(rest2.to_multiset() == ops2.to_multiset().remove(x));
        assert(no_equivocation(rest1)) by {
            assert forall|a: int, b: int|
                0 <= a < rest1.len() && 0 <= b < rest1.len() implies (#[trigger] rest1[a]).seq != (
            #[trigger] rest1[b]).seq || rest1[a].author != rest1[b].author || rest1[a]
                == rest1[b] by {
                let a0: int = if a < i {
                    a
                } else {
                    a + 1
                };
                let b0: int = if b < i {
                    b
                } else {
                    b + 1
                };
                assert(rest1[a] == ops1[a0] && rest1[b] == ops1[b0]);
            }
        }
        lemma_lww_strong_convergence(lww_apply(s, x), rest1, rest2);
    }
}

/// Applying one op to a register any positive number of times ends in the
/// state one application reaches.
pub proof fn lemma_lww_idempotent_many(s: LwwM, op: OpM<ValueV>, n: nat)
    requires
        n >= 1,
    ensures
        lww_apply_all(s, Seq::new(n, |i: int| op)) == lww_apply(s, op),
    decreases n,
{
    let ops = Seq::new(n, |i: int| op);
    assert(ops[0] == op);
    if n == 1 {
        assert(ops.drop_first().len() == 0);
    } else {
        assert(ops.drop_first() =~= Seq::new((n - 1) as nat, |i: int| op));
        lemma_lww_idempotent_many(lww_apply(s, op), op, (n - 1) as nat);
        crate::lww_crdt::lemma_lww_idempotent(s, op);
        let m = (n - 1) as nat;
        assert(lww_apply_all(s, ops) == lww_apply_all(lww_apply(s, op), ops.drop_first()));
        assert(lww_apply_all(lww_apply(s, op), Seq::new(m, |i: int| op)) == lww_apply(
            lww_apply(s, op),
            op,
        ));
        assert(lww_apply(lww_apply(s, op), op) == lww_apply(s, op));
    }
}

/// Applying the same op to a list twice leaves the log as one application
/// left it: re-delivery of an op never changes what a replica shows.
pub proof fn lemma_list_idempotent(
    m0: ListM,
    m1: ListM,
    m2: ListM,
    op: OpM<crate::json_crdt::NodeV>,
    r1: OpState,
    r2: OpState,
)
    requires
        list_wf(m0),
        integrate_post(m0, m1, op, r1),
        integrate_post(m1, m2, op, r2),
    ensures
        m2.ops == m1.ops,
{
    crate::list_crdt::lemma_find_from(m0.ops, op.origin, 0);
    crate::list_crdt::lemma_find_from(m1.ops, op.origin, 0);
    match find_index(m0.ops, op.origin) {
        None => {
            assert(m1.ops == m0.ops);
        },
        Some(p) => {
            if op.is_deleted {
                assert(m1.ops == crate::list_crdt::mark_deleted(m0.ops, p));
                assert(m1.ops.len() == m0.ops.len());
                assert(forall|k: int| 0 <= k < m1.ops.len() ==> m1.ops[k].id == m0.ops[k].id);
                crate::list_crdt::lemma_find_same_ids(m0.ops, m1.ops, op.origin, 0);
                assert(find_index(m1.ops, op.origin) == Some(p));
                assert(m2.ops == crate::list_crdt::mark_deleted(m1.ops, p));
                assert(m2.ops =~= m1.ops) by {
                    assert(m1.ops[p].is_deleted);
                    assert(m2.ops[p] =~= m1.ops[p]);
                }
            } else if find_index(m0.ops, op.id) is Some {
                assert(m1.ops == m0.ops);
            } else {
                assert(find_index(m1.ops, op.id) is Some);
                assert(find_index(m1.ops, op.origin) is Some) by {
                    crate::list_crdt::lemma_find_from_exists(m0.ops, op.origin, 0);
                    crate::list_crdt::lemma_find_from_exists(m1.ops, op.origin, 0);
                }
                assert(m2.ops == m1.ops);
            }
        },
    }
}

/// For a register-rooted document the transition relation is a function,
/// so two ops that are not an equivocating pair commute at the node level:
/// either delivery order ends in the same node.
pub proof fn lemma_node_register_commutes(
    n: NodeV,
    x: NodeV,
    y: NodeV,
    x2: NodeV,
    y2: NodeV,
    opa: OpM<ValueV>,
    opb: OpM<ValueV>,
    r1: OpState,
    r2: OpState,
    r3: OpState,
    r4: OpState,
)
    requires
        n is Register,
        opa.seq != opb.seq || opa.author != opb.author || opa == opb,
        node_apply_rel(n, x, opa, r1),
        node_apply_rel(x, y, opb, r2),
        node_apply_rel(n, x2, opb, r3),
        node_apply_rel(x2, y2, opa, r4),
    ensures
        y == y2,
{
    crate::lww_crdt::lemma_lww_commutes(n->Register_0, opa, opb);
}

} // verus!
