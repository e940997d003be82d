//! The storage laws: a replay model built from the same step functions the
//! stores' contracts use, and proofs of first-read stability, merge
//! precedence, write and delete visibility, and the equivalence of the
//! native and proving contexts.

use vstd::prelude::*;

use crate::cache::merge_access;
use crate::cache::spec_add_read;
use crate::cache::spec_add_write;
use crate::cache::spec_first_reads;
use crate::cache::spec_merge;
use crate::cache::AccessView;
use crate::internal_cache::spec_get_known;
use crate::internal_cache::spec_get_step;
use crate::internal_cache::spec_get_value;
use crate::jmt_storage::native_source;
use crate::zk_storage::zk_source;

verus! {

/// One operation of the uniform storage interface, as the stores' contracts
/// model it.
pub ghost enum StoreOp {
    Get { key: Seq<u8> },
    Put { key: Seq<u8>, value: Seq<u8> },
    Delete { key: Seq<u8> },
}

/// What replaying a sequence of operations leaves behind: the final
/// transaction scope and the value every read returned, in order.
#[verifier::ext_equal]
pub ghost struct RunResult {
    pub tx: Map<Seq<u8>, AccessView>,
    pub outputs: Seq<Option<Seq<u8>>>,
}

/// Replays operations against a transaction scope over a fixed value
/// source, stepping exactly as the stores' get/set/delete contracts do.
pub open spec fn run(
    tx: Map<Seq<u8>, AccessView>,
    src: Map<Seq<u8>, Option<Seq<u8>>>,
    ops: Seq<StoreOp>,
) -> RunResult
    decreases ops.len(),
{
    if ops.len() == 0 {
        RunResult { tx, outputs: Seq::empty() }
    } else {
        let rest = ops.subrange(1, ops.len() as int);
        match ops[0] {
            StoreOp::Get { key } => {
                let r = run(spec_get_step(tx, src, key), src, rest);
                RunResult { tx: r.tx, outputs: seq![spec_get_value(tx, src, key)] + r.outputs }
            },
            StoreOp::Put { key, value } => run(
                spec_add_write(tx, key, Option::Some(value)),
                src,
                rest,
            ),
            StoreOp::Delete { key } => run(spec_add_write(tx, key, Option::None), src, rest),
        }
    }
}

/// Whether every read miss of the replay finds its key served by the
/// source; a replay against a witness is sound only when this holds.
pub open spec fn run_serves(
    tx: Map<Seq<u8>, AccessView>,
    src: Map<Seq<u8>, Option<Seq<u8>>>,
    ops: Seq<StoreOp>,
) -> bool
    decreases ops.len(),
{
    if ops.len() == 0 {
        true
    } else {
        let rest = ops.subrange(1, ops.len() as int);
        match ops[0] {
            StoreOp::Get { key } => spec_get_known(tx, src, key) && run_serves(
                spec_get_step(tx, src, key),
                src,
                rest,
            ),
            StoreOp::Put { key, value } => run_serves(
                spec_add_write(tx, key, Option::Some(value)),
                src,
                rest,
            ),
            StoreOp::Delete { key } => run_serves(spec_add_write(tx, key, Option::None), src, rest),
        }
    }
}

/// A key the scope already records keeps its first read unchanged through
/// any replay: later reads are answered from the scope and later writes
/// touch only the last write.
pub proof fn lemma_run_keeps_first_reads(
    tx: Map<Seq<u8>, AccessView>,
    src: Map<Seq<u8>, Option<Seq<u8>>>,
    ops: Seq<StoreOp>,
    k: Seq<u8>,
)
    requires
        tx.contains_key(k),
    ensures
        run(tx, src, ops).tx.contains_key(k),
        run(tx, src, ops).tx[k].first_read == tx[k].first_read,
    decreases ops.len(),
{
    if ops.len() > 0 {
        let rest = ops.subrange(1, ops.len() as int);
        match ops[0] {
            StoreOp::Get { key } => {
                let tx1 = spec_get_step(tx, src, key);
                assert(tx1.contains_key(k) && tx1[k].first_read == tx[k].first_read);
                lemma_run_keeps_first_reads(tx1, src, rest, k);
            },
            StoreOp::Put { key, value } => {
                let tx1 = spec_add_write(tx, key, Option::Some(value));
                assert(tx1.contains_key(k) && tx1[k].first_read == tx[k].first_read);
                lemma_run_keeps_first_reads(tx1, src, rest, k);
            },
            StoreOp::Delete { key } => {
                let tx1 = spec_add_write(tx, key, Option::None);
                assert(tx1.contains_key(k) && tx1[k].first_read == tx[k].first_read);
                lemma_run_keeps_first_reads(tx1, src, rest, k);
            },
        }
    }
}

/// First-read stability: when the first access a scope makes to key `k` is a
/// read, that read returns the source's value, and the scope's first-read
/// snapshot pins `k` to exactly that value no matter what operations follow.
pub proof fn lemma_first_read_stability(
    tx: Map<Seq<u8>, AccessView>,
    src: Map<Seq<u8>, Option<Seq<u8>>>,
    ops: Seq<StoreOp>,
    k: Seq<u8>,
)
    requires
        !tx.contains_key(k),
        src.contains_key(k),
    ensures
        ({
            let res = run(tx, src, seq![StoreOp::Get { key: k }] + ops);
            &&& res.outputs[0] == src[k]
            &&& spec_first_reads(res.tx).contains_key(k)
            &&& spec_first_reads(res.tx)[k] == src[k]
        }),
{
    let s = seq![StoreOp::Get { key: k }] + ops;
    assert(s[0] == (StoreOp::Get { key: k }));
    assert(s.subrange(1, s.len() as int) =~= ops);
    let tx1 = spec_get_step(tx, src, k);
    assert(tx1 == spec_add_read(tx, k, src[k]));
    assert(tx1[k].first_read == Option::Some(src[k]));
    lemma_run_keeps_first_reads(tx1, src, ops, k);
    assert(run(tx, src, s).tx == run(tx1, src, ops).tx);
    assert(run(tx, src, s).outputs[0] == spec_get_value(tx, src, k));
}

/// Merge preserves first-read precedence: when transactions touch the same
/// key, the batch's first read for it is the one the earlier-merged
/// transaction recorded, whatever the later transaction did.
pub proof fn lemma_merge_first_read_precedence(
    b: Map<Seq<u8>, AccessView>,
    t1: Map<Seq<u8>, AccessView>,
    t2: Map<Seq<u8>, AccessView>,
    k: Seq<u8>,
)
    requires
        !b.contains_key(k),
        t1.contains_key(k),
        t1[k].first_read is Some,
    ensures
        spec_merge(spec_merge(b, t1), t2).contains_key(k),
        spec_merge(spec_merge(b, t1), t2)[k].first_read == t1[k].first_read,
{
    let m1 = spec_merge(b, t1);
    assert(m1.contains_key(k) && m1[k] == t1[k]);
    if t2.contains_key(k) {
        assert(spec_merge(m1, t2)[k] == merge_access(m1[k], t2[k]));
    }
}

/// Write visibility: after a write of `v` to `k`, a read of `k` in the same
/// scope observes `v`, whatever the source says, before any merge or
/// finalize.
pub proof fn lemma_write_visibility(
    tx: Map<Seq<u8>, AccessView>,
    src: Map<Seq<u8>, Option<Seq<u8>>>,
    k: Seq<u8>,
    v: Seq<u8>,
)
    ensures
        spec_get_value(spec_add_write(tx, k, Option::Some(v)), src, k) == Option::Some(v),
{
}

/// Delete visibility: after a delete of `k`, a read of `k` in the same scope
/// observes absence, whatever the source says.
pub proof fn lemma_delete_visibility(
    tx: Map<Seq<u8>, AccessView>,
    src: Map<Seq<u8>, Option<Seq<u8>>>,
    k: Seq<u8>,
)
    ensures
        spec_get_value(spec_add_write(tx, k, Option::None), src, k) == Option::<Seq<u8>>::None,
{
}

proof fn lemma_replay_equivalence_rec(
    tx: Map<Seq<u8>, AccessView>,
    src: Map<Seq<u8>, Option<Seq<u8>>>,
    w: Map<Seq<u8>, Option<Seq<u8>>>,
    ops: Seq<StoreOp>,
)
    requires
        forall|k: Seq<u8>| src.contains_key(k),
        forall|k: Seq<u8>|
            !tx.contains_key(k) && run(tx, src, ops).tx.contains_key(k) && (#[trigger] run(
                tx,
                src,
                ops,
            ).tx[k]).first_read is Some ==> w.contains_key(k) && w[k] == run(
                tx,
                src,
                ops,
            ).tx[k].first_read->0,
    ensures
        run_serves(tx, w, ops),
        run(tx, w, ops).tx == run(tx, src, ops).tx,
        run(tx, w, ops).outputs == run(tx, src, ops).outputs,
    decreases ops.len(),
{
    if ops.len() > 0 {
        let rest = ops.subrange(1, ops.len() as int);
        match ops[0] {
            StoreOp::Get { key } => {
                if tx.contains_key(key) {
                    assert(spec_get_step(tx, src, key) == tx);
                    assert(spec_get_step(tx, w, key) == tx);
                    assert(run(tx, src, ops).tx == run(tx, src, rest).tx);
                    lemma_replay_equivalence_rec(tx, src, w, rest);
                    assert(spec_get_value(tx, w, key) == spec_get_value(tx, src, key));
                } else {
                    let v = src[key];
                    let tx1 = spec_add_read(tx, key, v);
                    assert(spec_get_step(tx, src, key) == tx1);
                    assert(tx1[key].first_read == Option::Some(v));
                    lemma_run_keeps_first_reads(tx1, src, rest, key);
                    assert(run(tx, src, ops).tx == run(tx1, src, rest).tx);
                    assert(run(tx, src, ops).tx[key].first_read == Option::Some(v));
                    assert(w.contains_key(key) && w[key] == v);
                    assert(spec_get_known(tx, w, key));
                    assert(spec_get_value(tx, w, key) == v);
                    assert(spec_get_value(tx, src, key) == v);
                    assert(spec_get_step(tx, w, key) == tx1);
                    assert forall|k: Seq<u8>|
                        !tx1.contains_key(k) && run(tx1, src, rest).tx.contains_key(k)
                            && (#[trigger] run(tx1, src, rest).tx[k]).first_read is Some implies
                        w.contains_key(k) && w[k] == run(tx1, src, rest).tx[k].first_read->0 by {
                        assert(!tx.contains_key(k));
                        assert(run(tx, src, ops).tx == run(tx1, src, rest).tx);
                    }
                    lemma_replay_equivalence_rec(tx1, src, w, rest);
                }
            },
            StoreOp::Put { key, value } => {
                let tx1 = spec_add_write(tx, key, Option::Some(value));
                assert(run(tx, src, ops).tx == run(tx1, src, rest).tx);
                assert forall|k: Seq<u8>|
                    !tx1.contains_key(k) && run(tx1, src, rest).tx.contains_key(k) && (
                #[trigger] run(tx1, src, rest).tx[k]).first_read is Some implies w.contains_key(k)
                    && w[k] == run(tx1, src, rest).tx[k].first_read->0 by {
                    assert(!tx.contains_key(k));
                }
                lemma_replay_equivalence_rec(tx1, src, w, rest);
            },
            StoreOp::Delete { key } => {
                let tx1 = spec_add_write(tx, key, Option::None);
                assert(run(tx, src, ops).tx == run(tx1, src, rest).tx);
                assert forall|k: Seq<u8>|
                    !tx1.contains_key(k) && run(tx1, src, rest).tx.contains_key(k) && (
                #[trigger] run(tx1, src, rest).tx[k]).first_read is Some implies w.contains_key(k)
                    && w[k] == run(tx1, src, rest).tx[k].first_read->0 by {
                    assert(!tx.contains_key(k));
                }
                lemma_replay_equivalence_rec(tx1, src, w, rest);
            },
        }
    }
}

/// Cross-context equivalence: replay any sequence of get/set/delete
/// operations against a fresh native store, take the first-read snapshot it
/// leaves as the witness, and replay the identical sequence against a fresh
/// proving store over that witness: every read is served, and every
/// operation observes exactly the values the native run observed.
pub proof fn lemma_cross_context_equivalence(
    db: crate::jmt_storage::StateDbView,
    version: u64,
    ops: Seq<StoreOp>,
)
    ensures
        ({
            let src = native_source(Map::empty(), db, version);
            let native = run(Map::empty(), src, ops);
            let w = zk_source(Map::empty(), spec_first_reads(native.tx));
            &&& run_serves(Map::empty(), w, ops)
            &&& run(Map::empty(), w, ops).outputs == native.outputs
            &&& run(Map::empty(), w, ops).tx == native.tx
        }),
{
    let src = native_source(Map::<Seq<u8>, AccessView>::empty(), db, version);
    let native = run(Map::<Seq<u8>, AccessView>::empty(), src, ops);
    let fr = spec_first_reads(native.tx);
    let w = zk_source(Map::<Seq<u8>, AccessView>::empty(), fr);
    assert(w =~= fr);
    assert(forall|k: Seq<u8>| src.contains_key(k));
    assert forall|k: Seq<u8>|
        !Map::<Seq<u8>, AccessView>::empty().contains_key(k) && native.tx.contains_key(k) && (
    #[trigger] native.tx[k]).first_read is Some implies fr.contains_key(k) && fr[k]
        == native.tx[k].first_read->0 by {}
    lemma_replay_equivalence_rec(Map::<Seq<u8>, AccessView>::empty(), src, fr, ops);
}

} // verus!
