//! A last-writer-wins register CRDT.
//!
//! The register holds one operation as its current value. An incoming op
//! wins when its lamport counter is higher than any seen so far; on a tie
//! the op whose author id is lexicographically lower wins, so every replica
//! picks the same winner. The register's id stays constant across
//! replacements.
use crate::json_crdt::OpState;
use crate::keypair::AuthorId;
use crate::op::{copy_bytes, copy_path, join_path, op_hash_ok, path_view, Op, OpM, PathSegment,
    SegV};
use crate::value::{Value, ValueV};
use vstd::prelude::*;

verus! {

/// `a` is lexicographically before `b` (bytewise; a proper prefix comes
/// first).
pub open spec fn bytes_lt(a: Seq<u8>, b: Seq<u8>) -> bool
    decreases a,
{
    if b.len() == 0 {
        false
    } else if a.len() == 0 {
        true
    } else if a[0] < b[0] {
        true
    } else if a[0] > b[0] {
        false
    } else {
        bytes_lt(a.drop_first(), b.drop_first())
    }
}

/// Exactly one of `a < b`, `b < a`, `a == b` holds.
pub proof fn lemma_bytes_lt_trichotomy(a: Seq<u8>, b: Seq<u8>)
    ensures
        bytes_lt(a, b) || bytes_lt(b, a) || a == b,
        !(bytes_lt(a, b) && bytes_lt(b, a)),
        bytes_lt(a, b) ==> a != b,
    decreases a,
{
    if a.len() == 0 || b.len() == 0 {
        if a.len() == b.len() {
            assert(a =~= b);
        }
    } else {
        lemma_bytes_lt_trichotomy(a.drop_first(), b.drop_first());
        if a[0] == b[0] && a.drop_first() == b.drop_first() {
            assert forall|i: int| 0 <= i < a.len() implies a[i] == b[i] by {
                if i > 0 {
                    assert(a.drop_first()[i - 1] == b.drop_first()[i - 1]);
                }
            }
            assert(a =~= b);
        }
        if a == b {
            assert(a.drop_first() =~= b.drop_first());
        }
    }
}

/// The lexicographic order is transitive.
pub proof fn lemma_bytes_lt_trans(a: Seq<u8>, b: Seq<u8>, c: Seq<u8>)
    requires
        bytes_lt(a, b),
        bytes_lt(b, c),
    ensures
        bytes_lt(a, c),
    decreases a,
{
    if a.len() > 0 && b.len() > 0 && c.len() > 0 {
        if a[0] == b[0] && b[0] == c[0] {
            lemma_bytes_lt_trans(a.drop_first(), b.drop_first(), c.drop_first());
        }
    }
}

/// Compare two byte strings lexicographically.
pub fn bytes_lt_exec(a: &Vec<u8>, b: &Vec<u8>) -> (r: bool)
    ensures
        r == bytes_lt(a@, b@),
{
    let mut i: usize = 0;
    proof {
        assert(a@.skip(0) =~= a@);
        assert(b@.skip(0) =~= b@);
    }
    loop
        invariant
            i <= a@.len(),
            i <= b@.len(),
            forall|j: int| 0 <= j < i ==> a@[j] == b@[j],
            bytes_lt(a@, b@) == bytes_lt(a@.skip(i as int), b@.skip(i as int)),
        decreases a@.len() - i,
    {
        if i >= b.len() {
            proof {
                assert(b@.skip(i as int).len() == 0);
            }
            return false;
        }
        if i >= a.len() {
            proof {
                assert(a@.skip(i as int).len() == 0 && b@.skip(i as int).len() > 0);
            }
            return true;
        }
        let x = a[i];
        let y = b[i];
        if x < y {
            proof {
                assert(a@.skip(i as int)[0] == x && b@.skip(i as int)[0] == y);
            }
            return true;
        }
        if x > y {
            proof {
                assert(a@.skip(i as int)[0] == x && b@.skip(i as int)[0] == y);
            }
            return false;
        }
        proof {
            assert(a@.skip(i as int)[0] == x && b@.skip(i as int)[0] == y);
            assert(a@.skip(i as int).drop_first() =~= a@.skip(i + 1));
            assert(b@.skip(i as int).drop_first() =~= b@.skip(i + 1));
        }
        i += 1;
    }
}

/// A simple last-writer-wins register CRDT, mostly for giving primitives a
/// place inside a larger CRDT.
#[derive(Debug)]
pub struct LwwRegisterCrdt {
    /// Public key for this node.
    pub our_id: AuthorId,
    /// Path to this CRDT.
    pub path: Vec<PathSegment>,
    /// The current value, wrapped in an op to keep author and counter.
    value: Op<Value>,
    /// The highest lamport counter seen here.
    our_seq: u64,
}

/// The mathematical state of a register.
#[verifier::ext_equal]
pub struct LwwM {
    pub our_id: Seq<u8>,
    pub path: Seq<SegV>,
    pub value: OpM<ValueV>,
    pub our_seq: u64,
}

impl LwwRegisterCrdt {
    /// The mathematical state of this register.
    pub closed spec fn model(&self) -> LwwM {
        LwwM {
            our_id: self.our_id@,
            path: path_view(self.path@),
            value: self.value@,
            our_seq: self.our_seq,
        }
    }
}

/// Whether `op` replaces the register's current value: a fresher counter
/// always wins; on an equal counter the lexicographically lower author wins.
pub open spec fn lww_wins(state: LwwM, op: OpM<ValueV>) -> bool {
    op.seq > state.our_seq || (op.seq == state.our_seq && bytes_lt(op.author, state.value.author))
}

/// The register after applying `op`: a hash-invalid op changes nothing; a
/// winning op replaces everything of the stored value but its id; the
/// counter keeps the maximum either way.
pub open spec fn lww_apply(state: LwwM, op: OpM<ValueV>) -> LwwM {
    if !op_hash_ok(op) {
        state
    } else if lww_wins(state, op) {
        LwwM {
            value: OpM { id: state.value.id, ..op },
            our_seq: if op.seq > state.our_seq {
                op.seq
            } else {
                state.our_seq
            },
            ..state
        }
    } else {
        LwwM {
            our_seq: if op.seq > state.our_seq {
                op.seq
            } else {
                state.our_seq
            },
            ..state
        }
    }
}

/// What the register shows: the stored op's content.
pub open spec fn lww_view(state: LwwM) -> Option<ValueV> {
    state.value.content
}

impl LwwRegisterCrdt {
    /// Create a register that has never been set, rooted at the given path.
    pub fn new(id: AuthorId, path: Vec<PathSegment>) -> (r: LwwRegisterCrdt)
        ensures
            r.model().our_id == id@,
            r.model().path == path_view(path@),
            r.model().value == crate::op::root_op_m::<ValueV>(),
            r.model().our_seq == 0,
    {
        LwwRegisterCrdt { our_id: id, path, value: Op::make_root(), our_seq: 0 }
    }

    /// Sets the current value of the register, returning the op to sign and
    /// broadcast. The op anchors to the stored op's id and bumps our
    /// counter; its path ends with its own id.
    pub fn set(&mut self, content: Value) -> (r: Op<Value>)
        requires
            old(self).model().our_seq < u64::MAX,
        ensures
            op_hash_ok(r@),
            r@.origin == old(self).model().value.id,
            r@.author == old(self).model().our_id,
            r@.seq == old(self).model().our_seq + 1,
            r@.is_deleted == false,
            r@.content == Some(content@),
            r@.path == old(self).model().path.push(SegV::Index(r@.id)),
            final(self).model() == lww_apply(old(self).model(), r@),
            lww_view(final(self).model()) == Some(content@),
    {
        let origin = copy_bytes(&self.value.id);
        let author = copy_bytes(&self.our_id);
        let path = copy_path(&self.path);
        let mut op = Op::new(origin, author, self.our_seq + 1, false, Some(content), path);
        let id_seg = PathSegment::Index(copy_bytes(&op.id));
        let mut path2 = op.path;
        path2 = join_path(path2, id_seg);
        op.path = path2;
        let copy = op.duplicate();
        self.apply(copy);
        op
    }

    /// Apply an operation (local or remote) to this register.
    pub fn apply(&mut self, op: Op<Value>) -> (r: OpState)
        ensures
            final(self).model() == lww_apply(old(self).model(), op@),
            r == if op_hash_ok(op@) {
                OpState::Applied
            } else {
                OpState::ErrHashMismatch
            },
    {
        if !op.is_valid_hash() {
            return OpState::ErrHashMismatch;
        }
        let wins = if op.seq > self.our_seq {
            true
        } else if op.seq == self.our_seq {
            bytes_lt_exec(&op.author, &self.value.author)
        } else {
            false
        };
        let new_seq = if op.seq > self.our_seq {
            op.seq
        } else {
            self.our_seq
        };
        if wins {
            let kept_id = copy_bytes(&self.value.id);
            let mut new_value = op;
            new_value.id = kept_id;
            self.value = new_value;
        }
        self.our_seq = new_seq;
        OpState::Applied
    }

    /// The highest lamport counter seen here; `set` needs it below the
    /// maximum, so unverified callers can test it first.
    pub fn our_seq(&self) -> (r: u64)
        ensures
            r == self.model().our_seq,
    {
        self.our_seq
    }

    /// The current content, `None` if the register was never set.
    pub fn view(&self) -> (r: Option<Value>)
        ensures
            match r {
                Some(v) => lww_view(self.model()) == Some(v@),
                None => lww_view(self.model()) is None,
            },
    {
        match &self.value.content {
            Some(v) => Some(v.duplicate()),
            None => None,
        }
    }
}

/// Applying the same op again never changes a register: one delivery and
/// many deliveries end in the same state.
pub proof fn lemma_lww_idempotent(s: LwwM, op: OpM<ValueV>)
    ensures
        lww_apply(lww_apply(s, op), op) == lww_apply(s, op),
{
    lemma_bytes_lt_trichotomy(op.author, s.value.author);
}

/// Two ops that are not an equivocating pair (same author and counter but
/// different records) may arrive in either order: the register converges to
/// the same state.
pub proof fn lemma_lww_commutes(s: LwwM, a: OpM<ValueV>, b: OpM<ValueV>)
    requires
        a.seq != b.seq || a.author != b.author || a == b,
    ensures
        lww_apply(lww_apply(s, a), b) == lww_apply(lww_apply(s, b), a),
{
    lemma_bytes_lt_trichotomy(a.author, b.author);
    lemma_bytes_lt_trichotomy(a.author, s.value.author);
    lemma_bytes_lt_trichotomy(b.author, s.value.author);
    if bytes_lt(b.author, a.author) && bytes_lt(a.author, s.value.author) {
        lemma_bytes_lt_trans(b.author, a.author, s.value.author);
    }
    if bytes_lt(a.author, b.author) && bytes_lt(b.author, s.value.author) {
        lemma_bytes_lt_trans(a.author, b.author, s.value.author);
    }
}

} // verus!
