// Replay a synthetic single-character editing trace against a list CRDT
// and check the final text against a plain reference buffer, byte for
// byte. The published ~260k-edit editing trace is not available in this
// environment, so a deterministic generated trace stands in for it. With a
// single author issuing strictly increasing counters, an op inserted after
// an anchor always lands directly after it, so a plain ordered buffer
// predicts the whole document, position by position.
use bft_json_crdt::keypair::make_author;
use bft_json_crdt::list_crdt::ListCrdt;
use bft_json_crdt::op::{root_id, OpId};
use bft_json_crdt::value::Value;

fn ch(c: char) -> Value {
    Value::String(c.to_string())
}

struct Lcg(u64);

impl Lcg {
    fn next(&mut self) -> u64 {
        self.0 = self.0.wrapping_mul(6364136223846793005).wrapping_add(1442695040888963407);
        self.0 >> 33
    }
}

#[test]
fn test_editing_trace() {
    let mut rng = Lcg(42);
    let mut list = ListCrdt::new(make_author(1), Vec::new());
    // every wire op issued, for replay on a second replica
    let mut wire_log: Vec<bft_json_crdt::op::Op<Value>> = Vec::new();
    // insertion anchors must name ops that live in the log, so only the
    // root and insert ops qualify
    let mut anchors: Vec<OpId> = Vec::new();
    anchors.push(root_id());
    // the ordered reference: (op id, live char) in expected document order
    let mut ordered: Vec<(OpId, Option<char>)> = Vec::new();

    for _ in 0..600 {
        let live: Vec<usize> = (0..ordered.len()).filter(|i| ordered[*i].1.is_some()).collect();
        let do_delete = rng.next() % 5 == 0 && !live.is_empty();
        if do_delete {
            let target = live[(rng.next() as usize) % live.len()];
            let victim = ordered[target].0.clone();
            let delete_op = list.delete(victim);
            ordered[target].1 = None;
            wire_log.push(delete_op);
        } else {
            let c = (b'a' + (rng.next() % 26) as u8) as char;
            let anchor_id = anchors[(rng.next() as usize) % anchors.len()].clone();
            let new_op = list.insert(anchor_id.clone(), ch(c));
            let at = if anchor_id == root_id() {
                0
            } else {
                ordered.iter().position(|(id, _)| *id == anchor_id).unwrap() + 1
            };
            ordered.insert(at, (new_op.id.clone(), Some(c)));
            anchors.push(new_op.id.clone());
            wire_log.push(new_op);
        }
    }

    // the final text must match the reference buffer, byte for byte
    let expected: String = ordered.iter().filter_map(|(_, c)| *c).collect();
    let shown: String = list
        .view()
        .into_iter()
        .map(|v| match v {
            Value::String(s) => s,
            _ => String::new(),
        })
        .collect();
    assert_eq!(shown, expected);

    // and a second replica that receives every issued envelope converges
    // to the same view, re-validating every hash on the way in
    let mut remote = ListCrdt::new(make_author(2), Vec::new());
    for op in wire_log {
        assert_ne!(remote.apply(op), bft_json_crdt::json_crdt::OpState::ErrHashMismatch);
    }
    assert_eq!(remote.view(), list.view());
}
