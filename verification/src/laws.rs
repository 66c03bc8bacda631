//! The store's laws, stated over its mathematical model.
//!
//! `set`, `get` and `remove` promise in their contracts that the engine's
//! view evolves by `Map::insert` and `Map::remove` and that `get` reads that
//! view. The laws here pin down what those map operations imply for whole
//! histories of operations, so a reader sees the store's observable
//! behaviour stated once, in full.

use vstd::prelude::*;

verus! {

/// One store operation: a write of a value, or a removal.
pub ghost enum StoreOp {
    Write { key: Seq<u8>, value: Seq<u8> },
    Delete { key: Seq<u8> },
}

/// The key an operation touches.
pub open spec fn spec_op_key(op: StoreOp) -> Seq<u8> {
    match op {
        StoreOp::Write { key, .. } => key,
        StoreOp::Delete { key } => key,
    }
}

/// What one operation does to the store's view, exactly as the contracts of
/// `set` and `remove` state it.
pub open spec fn spec_apply_op(m: Map<Seq<u8>, Seq<u8>>, op: StoreOp) -> Map<Seq<u8>, Seq<u8>> {
    match op {
        StoreOp::Write { key, value } => m.insert(key, value),
        StoreOp::Delete { key } => m.remove(key),
    }
}

/// A whole history of operations, applied in order.
pub open spec fn spec_apply_ops(m: Map<Seq<u8>, Seq<u8>>, ops: Seq<StoreOp>) -> Map<
    Seq<u8>,
    Seq<u8>,
> {
    ops.fold_left(m, |acc: Map<Seq<u8>, Seq<u8>>, op: StoreOp| spec_apply_op(acc, op))
}

/// A key no operation of the history touches keeps its binding.
pub proof fn lemma_untouched_key(m: Map<Seq<u8>, Seq<u8>>, ops: Seq<StoreOp>, k: Seq<u8>)
    requires
        forall|j: int| 0 <= j < ops.len() ==> spec_op_key(#[trigger] ops[j]) != k,
    ensures
        spec_apply_ops(m, ops).contains_key(k) == m.contains_key(k),
        m.contains_key(k) ==> spec_apply_ops(m, ops)[k] == m[k],
    decreases ops.len(),
{
    if ops.len() > 0 {
        lemma_untouched_key(m, ops.drop_last(), k);
        assert(spec_apply_ops(m, ops) == spec_apply_op(
            spec_apply_ops(m, ops.drop_last()),
            ops.last(),
        ));
        assert(spec_op_key(ops[ops.len() - 1]) != k);
    }
}

/// The last write wins: after any history of operations, a key reads as its
/// latest `Write` left it, reads as absent when its latest operation was a
/// `Delete`, and keeps its prior binding when nothing touched it.
pub proof fn lemma_last_write_wins(
    m: Map<Seq<u8>, Seq<u8>>,
    ops: Seq<StoreOp>,
    j: int,
    k: Seq<u8>,
)
    requires
        0 <= j < ops.len(),
        spec_op_key(ops[j]) == k,
        forall|j2: int| j < j2 < ops.len() ==> spec_op_key(#[trigger] ops[j2]) != k,
    ensures
        ops[j] is Write ==> spec_apply_ops(m, ops).contains_key(k) && spec_apply_ops(m, ops)[k]
            == ops[j]->Write_value,
        ops[j] is Delete ==> !spec_apply_ops(m, ops).contains_key(k),
    decreases ops.len(),
{
    assert(spec_apply_ops(m, ops) == spec_apply_op(
        spec_apply_ops(m, ops.drop_last()),
        ops.last(),
    ));
    if j == ops.len() - 1 {
    } else {
        assert(forall|j2: int|
            j < j2 < ops.drop_last().len() ==> spec_op_key(#[trigger] ops.drop_last()[j2]) != k);
        assert(ops.drop_last()[j] == ops[j]);
        lemma_last_write_wins(m, ops.drop_last(), j, k);
        assert(spec_op_key(ops[ops.len() - 1]) != k);
    }
}

/// Round trip: writing a pair makes exactly that value readable under its
/// key.
pub proof fn lemma_set_get_round_trip(m: Map<Seq<u8>, Seq<u8>>, k: Seq<u8>, v: Seq<u8>)
    ensures
        m.insert(k, v).contains_key(k),
        m.insert(k, v)[k] == v,
{
}

/// Idempotence: writing the same pair twice leaves the same store as writing
/// it once.
pub proof fn lemma_set_idempotent(m: Map<Seq<u8>, Seq<u8>>, k: Seq<u8>, v: Seq<u8>)
    ensures
        m.insert(k, v).insert(k, v) == m.insert(k, v),
        m.insert(k, v).insert(k, v)[k] == v,
{
    assert(m.insert(k, v).insert(k, v) =~= m.insert(k, v));
}

/// Tombstone correctness: after a removal the key reads as absent, whatever
/// else happens to other keys, until a new write brings it back.
pub proof fn lemma_tombstone(
    m: Map<Seq<u8>, Seq<u8>>,
    ops: Seq<StoreOp>,
    k: Seq<u8>,
    v: Seq<u8>,
)
    requires
        forall|j: int| 0 <= j < ops.len() ==> spec_op_key(#[trigger] ops[j]) != k,
    ensures
        !spec_apply_ops(m.remove(k), ops).contains_key(k),
        spec_apply_ops(m.remove(k), ops).insert(k, v)[k] == v,
{
    lemma_untouched_key(m.remove(k), ops, k);
}

} // verus!
