//! Operation records: content-addressed, path-scoped mutations.
//!
//! Every mutation of the document travels as an [`Op`]: who made it, its
//! lamport counter, the op it anchors to, an optional payload and the path
//! of the sub-CRDT it addresses. The op's id is the SHA-256 digest of its
//! canonical fields (origin, author, seq, tombstone flag, content); the path
//! is deliberately left out of the id and is bound by the envelope digest
//! instead.
use crate::keypair::{sha256, sha256_of, AuthorId};
use crate::value::{u64_le, value_canon, push_u64_le, push_str_canon, push_value_canon, str_canon,
    Value, ValueV};
use vstd::prelude::*;

verus! {

/// A unique id for a single [`Op`]: a SHA-256 digest, 32 bytes.
pub type OpId = Vec<u8>;

/// The id of the root/sentinel op: 32 zero bytes.
pub open spec fn root_id_spec() -> Seq<u8> {
    Seq::new(32, |i: int| 0u8)
}

/// The root/sentinel op id, shared by every sub-CRDT's root element.
pub fn root_id() -> (r: OpId)
    ensures
        r@ == root_id_spec(),
{
    let mut id: Vec<u8> = Vec::new();
    let mut i: usize = 0;
    while i < 32
        invariant
            i <= 32,
            id@.len() == i,
            forall|j: int| 0 <= j < i ==> id@[j] == 0u8,
        decreases 32 - i,
    {
        id.push(0);
        i += 1;
    }
    proof {
        assert(id@ =~= root_id_spec());
    }
    id
}

/// Copy a byte string.
pub fn copy_bytes(v: &Vec<u8>) -> (r: Vec<u8>)
    ensures
        r@ == v@,
{
    let mut r: Vec<u8> = Vec::new();
    let mut i: usize = 0;
    while i < v.len()
        invariant
            i <= v@.len(),
            r@ == v@.take(i as int),
        decreases v@.len() - i,
    {
        r.push(v[i]);
        proof {
            assert(v@.take(i + 1) =~= v@.take(i as int).push(v@[i as int]));
        }
        i += 1;
    }
    proof {
        assert(v@.take(v@.len() as int) =~= v@);
    }
    r
}

/// Part of a path to get to a specific CRDT in a nested CRDT: a named field
/// of a record, or a list element by its creation id (never by position —
/// positions shift under concurrent edits).
#[derive(Debug, PartialEq)]
pub enum PathSegment {
    Field(String),
    Index(OpId),
}

/// The mathematical shape of a [`PathSegment`].
pub enum SegV {
    Field(Seq<char>),
    Index(Seq<u8>),
}

impl View for PathSegment {
    type V = SegV;

    open spec fn view(&self) -> SegV {
        match self {
            PathSegment::Field(s) => SegV::Field(s@),
            PathSegment::Index(id) => SegV::Index(id@),
        }
    }
}

impl PathSegment {
    /// A copy with the same mathematical value.
    pub fn duplicate(&self) -> (r: PathSegment)
        ensures
            r@ == self@,
    {
        match self {
            PathSegment::Field(s) => PathSegment::Field(s.clone()),
            PathSegment::Index(id) => PathSegment::Index(copy_bytes(id)),
        }
    }

    /// Whether two segments name the same place.
    pub fn matches(&self, other: &PathSegment) -> (r: bool)
        ensures
            r == (self@ == other@),
    {
        match (self, other) {
            (PathSegment::Field(a), PathSegment::Field(b)) => *a == *b,
            (PathSegment::Index(a), PathSegment::Index(b)) => crate::bytes_eq(a, b),
            _ => false,
        }
    }
}

/// The mathematical value of a path.
pub open spec fn path_view(s: Seq<PathSegment>) -> Seq<SegV> {
    s.map_values(|p: PathSegment| p@)
}

/// Copy a path.
pub fn copy_path(path: &Vec<PathSegment>) -> (r: Vec<PathSegment>)
    ensures
        path_view(r@) == path_view(path@),
{
    let mut r: Vec<PathSegment> = Vec::new();
    let mut i: usize = 0;
    while i < path.len()
        invariant
            i <= path@.len(),
            r@.len() == i,
            forall|j: int| 0 <= j < i ==> r@[j]@ == path@[j]@,
        decreases path@.len() - i,
    {
        let seg = path[i].duplicate();
        r.push(seg);
        i += 1;
    }
    proof {
        assert(path_view(r@) =~= path_view(path@));
    }
    r
}

/// `a` is a prefix of `b` (two identical paths count as prefixes of each
/// other).
pub open spec fn is_subpath(a: Seq<SegV>, b: Seq<SegV>) -> bool {
    a.len() <= b.len() && forall|i: int| 0 <= i < a.len() ==> a[i] == b[i]
}

/// Ensure `our_path` is a subpath of `op_path`. Note that two identical
/// paths are considered subpaths of each other.
pub fn ensure_subpath(our_path: &Vec<PathSegment>, op_path: &Vec<PathSegment>) -> (r: bool)
    ensures
        r == is_subpath(path_view(our_path@), path_view(op_path@)),
{
    if our_path.len() > op_path.len() {
        return false;
    }
    let mut i: usize = 0;
    while i < our_path.len()
        invariant
            i <= our_path@.len() <= op_path@.len(),
            forall|j: int| 0 <= j < i ==> path_view(our_path@)[j] == path_view(op_path@)[j],
        decreases our_path@.len() - i,
    {
        if !our_path[i].matches(&op_path[i]) {
            proof {
                assert(path_view(our_path@)[i as int] == our_path@[i as int]@);
                assert(path_view(op_path@)[i as int] == op_path@[i as int]@);
            }
            return false;
        }
        i += 1;
    }
    true
}

/// Helper to easily append a [`PathSegment`] to a path.
pub fn join_path(path: Vec<PathSegment>, segment: PathSegment) -> (r: Vec<PathSegment>)
    ensures
        path_view(r@) == path_view(path@).push(segment@),
{
    let mut p = path;
    let ghost orig = p@;
    p.push(segment);
    proof {
        assert(path_view(p@) =~= path_view(orig).push(segment@));
    }
    p
}

/// Parse out the field name from the last segment of a path, if it is one.
pub fn parse_field(path: &Vec<PathSegment>) -> (r: Option<String>)
    ensures
        match r {
            Some(s) => path@.len() > 0 && path_view(path@).last() == SegV::Field(s@),
            None => path@.len() == 0 || !(path_view(path@).last() is Field),
        },
{
    if path.len() == 0 {
        return None;
    }
    match &path[path.len() - 1] {
        PathSegment::Field(key) => Some(key.clone()),
        PathSegment::Index(_) => None,
    }
}

/// The hex digit for a value below 16.
pub open spec fn hex_digit(n: u8) -> char {
    if n == 0 {
        '0'
    } else if n == 1 {
        '1'
    } else if n == 2 {
        '2'
    } else if n == 3 {
        '3'
    } else if n == 4 {
        '4'
    } else if n == 5 {
        '5'
    } else if n == 6 {
        '6'
    } else if n == 7 {
        '7'
    } else if n == 8 {
        '8'
    } else if n == 9 {
        '9'
    } else if n == 10 {
        'a'
    } else if n == 11 {
        'b'
    } else if n == 12 {
        'c'
    } else if n == 13 {
        'd'
    } else if n == 14 {
        'e'
    } else {
        'f'
    }
}

/// The hex spelling of a byte string: two digits per byte.
pub open spec fn hex_of(bytes: Seq<u8>) -> Seq<char>
    decreases bytes,
{
    if bytes.len() == 0 {
        Seq::empty()
    } else {
        seq![hex_digit(bytes[0] / 16), hex_digit(bytes[0] % 16)] + hex_of(bytes.drop_first())
    }
}

/// Append one hex digit (a value below 16) to a string.
fn push_hex_digit(out: &mut String, n: u8)
    requires
        n < 16,
    ensures
        final(out)@ == old(out)@.push(hex_digit(n)),
{
    let digits = "0123456789abcdef";
    proof {
        reveal_strlit("0123456789abcdef");
    }
    let d = digits.substring_ascii(n as usize, n as usize + 1);
    out.append(d);
    proof {
        assert(d@ =~= seq![hex_digit(n)]);
        assert(old(out)@ + d@ =~= old(out)@.push(hex_digit(n)));
    }
}

/// Format a byte string as lower-case hex.
#[verifier::loop_isolation(false)]
pub fn print_hex(bytes: &Vec<u8>) -> (r: String)
    ensures
        r@ == hex_of(bytes@),
{
    let mut out = String::new();
    let mut i: usize = 0;
    while i < bytes.len()
        invariant
            i <= bytes@.len(),
            out@ == hex_of(bytes@.take(i as int)),
        decreases bytes@.len() - i,
    {
        let b = bytes[i];
        push_hex_digit(&mut out, b / 16);
        push_hex_digit(&mut out, b % 16);
        proof {
            lemma_hex_of_take(bytes@, i as int);
        }
        i += 1;
    }
    proof {
        assert(bytes@.take(bytes@.len() as int) =~= bytes@);
    }
    out
}

/// Extending the bytes by one extends the hex spelling by its two digits.
proof fn lemma_hex_of_take(s: Seq<u8>, i: int)
    requires
        0 <= i < s.len(),
    ensures
        hex_of(s.take(i + 1)) == hex_of(s.take(i)).push(hex_digit(s[i] / 16)).push(
            hex_digit(s[i] % 16),
        ),
    decreases i,
{
    if i == 0 {
        assert(s.take(1).drop_first() =~= Seq::empty());
        assert(s.take(0) =~= Seq::<u8>::empty());
        assert(hex_of(s.take(1)) =~= hex_of(s.take(0)).push(hex_digit(s[0] / 16)).push(
            hex_digit(s[0] % 16),
        ));
    } else {
        let t = s.drop_first();
        lemma_hex_of_take(t, i - 1);
        assert(s.take(i + 1).drop_first() =~= t.take(i));
        assert(s.take(i).drop_first() =~= t.take(i - 1));
        assert(s.take(i + 1)[0] == s[0]);
        assert(s.take(i)[0] == s[0]);
        assert(t[i - 1] == s[i]);
        let two = seq![hex_digit(s[0] / 16), hex_digit(s[0] % 16)];
        assert(two + hex_of(t.take(i - 1)).push(hex_digit(s[i] / 16)).push(hex_digit(s[i] % 16))
            =~= (two + hex_of(t.take(i - 1))).push(hex_digit(s[i] / 16)).push(
            hex_digit(s[i] % 16),
        ));
    }
}

/// The display form of a path: field names and shortened ids, joined by
/// dots.
pub open spec fn path_display(path: Seq<SegV>) -> Seq<char>
    decreases path,
{
    if path.len() == 0 {
        Seq::empty()
    } else if path.len() == 1 {
        seg_display(path[0])
    } else {
        seg_display(path[0]) + seq!['.'] + path_display(path.drop_first())
    }
}

/// The display form of one segment: the field name, or the first six hex
/// digits of the id.
pub open spec fn seg_display(seg: SegV) -> Seq<char> {
    match seg {
        SegV::Field(s) => s,
        SegV::Index(id) => hex_of(id.take(3)),
    }
}

/// Pretty print a path.
#[verifier::loop_isolation(false)]
pub fn print_path(path: &Vec<PathSegment>) -> (r: String)
    requires
        forall|i: int|
            0 <= i < path@.len() ==> (path@[i]@ is Index ==> path@[i]@->Index_0.len() >= 3),
    ensures
        r@ == path_display(path_view(path@)),
{
    let mut out = String::new();
    let mut i: usize = 0;
    while i < path.len()
        invariant
            i <= path@.len(),
            out@ == path_display(path_view(path@).take(i as int)),
        decreases path@.len() - i,
    {
        if i > 0 {
            let dot = ".";
            proof {
                reveal_strlit(".");
            }
            out.append(dot);
        }
        match &path[i] {
            PathSegment::Field(s) => {
                out.append(s.as_str());
            },
            PathSegment::Index(id) => {
                let mut head: Vec<u8> = Vec::new();
                head.push(id[0]);
                head.push(id[1]);
                head.push(id[2]);
                proof {
                    assert(head@ =~= id@.take(3));
                }
                let hex = print_hex(&head);
                out.append(hex.as_str());
            },
        }
        proof {
            lemma_path_display_take(path_view(path@), i as int);
            assert(out@ =~= path_display(path_view(path@).take(i + 1)));
        }
        i += 1;
    }
    proof {
        assert(path_view(path@).take(path@.len() as int) =~= path_view(path@));
    }
    out
}

/// Extending a path by one segment extends its display form.
proof fn lemma_path_display_take(s: Seq<SegV>, i: int)
    requires
        0 <= i < s.len(),
    ensures
        i == 0 ==> path_display(s.take(1)) == seg_display(s[0]),
        i > 0 ==> path_display(s.take(i + 1)) == path_display(s.take(i)) + seq!['.'] + seg_display(
            s[i],
        ),
    decreases i,
{
    if i == 0 {
        assert(s.take(1)[0] == s[0]);
        assert(path_display(s.take(1)) == seg_display(s[0]));
    } else {
        let t = s.drop_first();
        lemma_path_display_take(t, i - 1);
        assert(s.take(i + 1).drop_first() =~= t.take(i));
        assert(s.take(i).drop_first() =~= t.take(i - 1));
        assert(s.take(i + 1)[0] == s[0]);
        assert(s.take(i)[0] == s[0]);
        assert(t[i - 1] == s[i]);
        if i == 1 {
            assert(path_display(s.take(2)) == seg_display(s[0]) + seq!['.'] + seg_display(s[1]));
            assert(path_display(s.take(1)) == seg_display(s[0]));
        } else {
            assert(path_display(s.take(i + 1)) == seg_display(s[0]) + seq!['.'] + path_display(
                t.take(i),
            ));
            assert(path_display(s.take(i)) == seg_display(s[0]) + seq!['.'] + path_display(
                t.take(i - 1),
            ));
            assert(seg_display(s[0]) + seq!['.'] + (path_display(t.take(i - 1)) + seq!['.']
                + seg_display(s[i])) =~= (seg_display(s[0]) + seq!['.'] + path_display(
                t.take(i - 1),
            )) + seq!['.'] + seg_display(s[i]));
        }
    }
}

/// Represents a single mutation of some sub-CRDT.
#[derive(Debug)]
pub struct Op<T> {
    /// Parent op id: insert anchor, delete target, or register predecessor.
    pub origin: OpId,
    /// Public key of the author.
    pub author: AuthorId,
    /// The author's lamport counter at creation.
    pub seq: u64,
    /// Payload; present exactly when the op is not a tombstone.
    pub content: Option<T>,
    /// Path from the document root to the target sub-CRDT.
    pub path: Vec<PathSegment>,
    /// Tombstone flag.
    pub is_deleted: bool,
    /// SHA-256 of the canonical fields.
    pub id: OpId,
}

/// The mathematical value of an [`Op`].
#[verifier::ext_equal]
pub struct OpM<C> {
    pub origin: Seq<u8>,
    pub author: Seq<u8>,
    pub seq: u64,
    pub content: Option<C>,
    pub path: Seq<SegV>,
    pub is_deleted: bool,
    pub id: Seq<u8>,
}

impl<T: View> View for Op<T> {
    type V = OpM<T::V>;

    open spec fn view(&self) -> OpM<T::V> {
        OpM {
            origin: self.origin@,
            author: self.author@,
            seq: self.seq,
            content: match self.content {
                Some(c) => Some(c@),
                None => None,
            },
            path: path_view(self.path@),
            is_deleted: self.is_deleted,
            id: self.id@,
        }
    }
}

/// Canonical bytes of an op's content slot.
pub open spec fn content_canon(c: Option<ValueV>) -> Seq<u8> {
    match c {
        None => seq![0u8],
        Some(v) => seq![1u8] + value_canon(v),
    }
}

/// The canonical byte form of an op's hashed fields: origin, author, seq,
/// tombstone flag and content, in that order, the variable-length fields
/// length-prefixed so that distinct field tuples never share a byte form.
/// The path is deliberately not part of it.
pub open spec fn op_canon(
    origin: Seq<u8>,
    author: Seq<u8>,
    seq: u64,
    is_deleted: bool,
    content: Option<ValueV>,
) -> Seq<u8> {
    u64_le(origin.len() as u64) + origin + u64_le(author.len() as u64) + author + u64_le(seq)
        + seq![
        if is_deleted {
            1u8
        } else {
            0u8
        },
    ] + content_canon(content)
}

/// The id that the canonical fields hash to.
///
/// Distinct canonical field tuples give distinct preimages (every
/// variable-length field is length-framed), so ids separate operations as
/// far as SHA-256 does. That the digest of a fresh op differs from every id
/// already in a log is a property of the hash that no contract here states;
/// conclusions that depend on such freshness are checked at runtime by
/// [`Op::is_valid_hash`] and the integration dup-drop, not derived.
pub open spec fn op_id_of(
    origin: Seq<u8>,
    author: Seq<u8>,
    seq: u64,
    is_deleted: bool,
    content: Option<ValueV>,
) -> Seq<u8> {
    sha256_of(op_canon(origin, author, seq, is_deleted, content))
}

/// An op passes hash validation: its content slot is present exactly when it
/// is not a tombstone, and its id is the digest of its canonical fields.
pub open spec fn op_hash_ok(op: OpM<ValueV>) -> bool {
    &&& (op.content is Some <==> !op.is_deleted)
    &&& op.id == op_id_of(op.origin, op.author, op.seq, op.is_deleted, op.content)
}

/// The mathematical value of the root/sentinel op.
pub open spec fn root_op_m<C>() -> OpM<C> {
    OpM {
        origin: root_id_spec(),
        author: crate::keypair::zero_author(),
        seq: 0,
        content: None,
        path: Seq::empty(),
        is_deleted: false,
        id: root_id_spec(),
    }
}

impl<T> Op<T> {
    /// The op's author.
    pub fn author(&self) -> (r: &AuthorId)
        ensures
            r@ == self.author@,
    {
        &self.author
    }

    /// The op's lamport counter.
    pub fn sequence_num(&self) -> (r: u64)
        ensures
            r == self.seq,
    {
        self.seq
    }

    /// Special constructor for the sentinel root op.
    pub fn make_root() -> (r: Op<T>)
        ensures
            r.origin@ == root_id_spec(),
            r.author@ == crate::keypair::zero_author(),
            r.seq == 0,
            r.content is None,
            path_view(r.path@) == Seq::<SegV>::empty(),
            r.is_deleted == false,
            r.id@ == root_id_spec(),
    {
        let r = Op {
            origin: root_id(),
            id: root_id(),
            author: crate::keypair::make_author(0),
            seq: 0,
            is_deleted: false,
            content: None,
            path: Vec::new(),
        };
        proof {
            assert(crate::keypair::zero_author().update(0, 0u8) =~= crate::keypair::zero_author());
            assert(path_view(Seq::<PathSegment>::empty()) =~= Seq::<SegV>::empty());
        }
        r
    }
}

impl Op<Value> {
    /// Recompute the op id by hashing the canonical fields.
    pub fn hash_to_id(&self) -> (r: OpId)
        ensures
            r@ == op_id_of(self@.origin, self@.author, self@.seq, self@.is_deleted, self@.content),
            r@.len() == 32,
    {
        let mut input: Vec<u8> = Vec::new();
        push_u64_le(&mut input, self.origin.len() as u64);
        push_bytes(&mut input, &self.origin);
        push_u64_le(&mut input, self.author.len() as u64);
        push_bytes(&mut input, &self.author);
        push_u64_le(&mut input, self.seq);
        input.push(
            if self.is_deleted {
                1u8
            } else {
                0u8
            },
        );
        match &self.content {
            None => {
                input.push(0u8);
            },
            Some(v) => {
                input.push(1u8);
                push_value_canon(&mut input, v);
            },
        }
        proof {
            assert(input@ =~= op_canon(
                self@.origin,
                self@.author,
                self@.seq,
                self@.is_deleted,
                self@.content,
            ));
        }
        sha256(&input)
    }

    /// Construct an op and derive its id from the canonical fields. The path
    /// may be finished afterwards: it is not part of the id.
    pub fn new(
        origin: OpId,
        author: AuthorId,
        seq: u64,
        is_deleted: bool,
        content: Option<Value>,
        path: Vec<PathSegment>,
    ) -> (r: Op<Value>)
        ensures
            r@.origin == origin@,
            r@.author == author@,
            r@.seq == seq,
            r@.is_deleted == is_deleted,
            r@.content == match content {
                Some(c) => Some(c@),
                None => None::<ValueV>,
            },
            r@.path == path_view(path@),
            r@.id == op_id_of(
                origin@,
                author@,
                seq,
                is_deleted,
                match content {
                    Some(c) => Some(c@),
                    None => None::<ValueV>,
                },
            ),
            r@.id.len() == 32,
    {
        let mut op = Op { origin, id: Vec::new(), author, seq, is_deleted, content, path };
        let id = op.hash_to_id();
        op.id = id;
        op
    }

    /// Rehash the contents to make sure they match the id, and enforce that
    /// content is present exactly on non-tombstone ops.
    pub fn is_valid_hash(&self) -> (r: bool)
        ensures
            r == op_hash_ok(self@),
    {
        let has_content = self.content.is_some();
        if has_content == self.is_deleted {
            return false;
        }
        let recomputed = self.hash_to_id();
        crate::bytes_eq(&self.id, &recomputed)
    }

    /// A copy with the same mathematical value.
    pub fn duplicate(&self) -> (r: Op<Value>)
        ensures
            r@ == self@,
    {
        let content = match &self.content {
            Some(v) => Some(v.duplicate()),
            None => None,
        };
        let r = Op {
            origin: copy_bytes(&self.origin),
            author: copy_bytes(&self.author),
            seq: self.seq,
            content,
            path: copy_path(&self.path),
            is_deleted: self.is_deleted,
            id: copy_bytes(&self.id),
        };
        r
    }
}

/// Canonical bytes of one path segment: a tag, then the field name or the
/// length-prefixed id bytes.
pub open spec fn seg_canon(seg: SegV) -> Seq<u8> {
    match seg {
        SegV::Field(s) => seq![0u8] + str_canon(s),
        SegV::Index(id) => seq![1u8] + u64_le(id.len() as u64) + id,
    }
}

/// Canonical bytes of a path, segment by segment.
pub open spec fn path_canon(path: Seq<SegV>) -> Seq<u8>
    decreases path,
{
    if path.len() == 0 {
        Seq::empty()
    } else {
        seg_canon(path[0]) + path_canon(path.drop_first())
    }
}

/// Append a byte string.
pub fn push_bytes(out: &mut Vec<u8>, v: &Vec<u8>)
    ensures
        final(out)@ == old(out)@ + v@,
{
    let mut i: usize = 0;
    while i < v.len()
        invariant
            i <= v@.len(),
            out@ == old(out)@ + v@.take(i as int),
        decreases v@.len() - i,
    {
        out.push(v[i]);
        proof {
            assert(v@.take(i + 1) =~= v@.take(i as int).push(v@[i as int]));
            assert(old(out)@ + v@.take(i as int).push(v@[i as int]) =~= (old(out)@ + v@.take(
                i as int,
            )).push(v@[i as int]));
        }
        i += 1;
    }
    proof {
        assert(v@.take(v@.len() as int) =~= v@);
    }
}

/// Append the canonical bytes of a path.
#[verifier::loop_isolation(false)]
pub fn push_path_canon(out: &mut Vec<u8>, path: &Vec<PathSegment>)
    ensures
        final(out)@ == old(out)@ + path_canon(path_view(path@)),
{
    let ghost pv = path_view(path@);
    proof {
        assert(pv.skip(0) =~= pv);
    }
    let mut i: usize = 0;
    while i < path.len()
        invariant
            i <= path@.len(),
            old(out)@ + path_canon(pv) == out@ + path_canon(pv.skip(i as int)),
        decreases path@.len() - i,
    {
        proof {
            assert(pv.skip(i as int)[0] == pv[i as int]);
            assert(pv.skip(i as int).drop_first() =~= pv.skip(i + 1));
            assert(pv[i as int] == path@[i as int]@);
        }
        let ghost mid = out@;
        match &path[i] {
            PathSegment::Field(name) => {
                out.push(0u8);
                push_str_canon(out, name);
                proof {
                    assert(out@ =~= mid + seg_canon(pv[i as int]));
                }
            },
            PathSegment::Index(id) => {
                out.push(1u8);
                push_u64_le(out, id.len() as u64);
                push_bytes(out, id);
                proof {
                    assert(out@ =~= mid + seg_canon(pv[i as int]));
                }
            },
        }
        proof {
            assert(mid + (seg_canon(pv[i as int]) + path_canon(pv.skip(i + 1))) =~= out@
                + path_canon(pv.skip(i + 1)));
        }
        i += 1;
    }
    proof {
        assert(pv.skip(path@.len() as int).len() == 0);
        assert(out@ + path_canon(pv.skip(path@.len() as int)) =~= out@);
    }
}

} // verus!
