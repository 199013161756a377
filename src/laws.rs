//! Laws of the semaphore calls, stated over the same models as their contracts.

use vstd::prelude::*;

use crate::semary::{
    counters_ok, has_flag, out_of_range, run_batch, step, undo_ok, SemArrayView, SemBuf, SemError,
    SemopStatus, Stop, IPC_NOWAIT, SEMVMX, SEM_UNDO,
};
use crate::syscall::{
    apply_undo, resolves, semop_commit, semop_result, store_wf, table_wf, target, with_undo,
    with_vals, SemHandleView,
};

verus! {

/// A one-record batch releasing slot `s`.
pub open spec fn release_op(s: u16, flg: i16) -> Seq<SemBuf> {
    seq![SemBuf { sem_num: s, sem_op: 1, sem_flg: flg }]
}

/// A one-record batch acquiring slot `s`.
pub open spec fn acquire_op(s: u16, flg: i16) -> Seq<SemBuf> {
    seq![SemBuf { sem_num: s, sem_op: -1i16, sem_flg: flg }]
}

/// Counters of the array that local ID `id` resolves to.
pub open spec fn vals_of(
    arrays: Seq<Option<SemArrayView>>,
    table: Seq<Option<SemHandleView>>,
    id: int,
) -> Seq<i64> {
    arrays[target(table, id)].unwrap().vals
}

/// Undo row of local ID `id`.
pub open spec fn undo_of(table: Seq<Option<SemHandleView>>, id: int) -> Seq<i64> {
    table[id].unwrap().undo
}

proof fn lemma_single(v: Seq<i64>, u: Seq<i64>, op: SemBuf)
    ensures
        run_batch(v, u, seq![op]) == step(v, u, op),
{
    assert(seq![op].drop_last() =~= Seq::<SemBuf>::empty());
    assert(seq![op].last() == op);
    assert(run_batch(v, u, seq![op].drop_last()) == (v, u, None::<Stop>));
}

/// Facts every well-formed resolved handle gives about its counters and undo row.
proof fn lemma_resolved_ok(
    arrays: Seq<Option<SemArrayView>>,
    table: Seq<Option<SemHandleView>>,
    id: int,
)
    requires
        store_wf(arrays),
        table_wf(table),
        resolves(arrays, table, id),
    ensures
        counters_ok(vals_of(arrays, table, id)),
        undo_ok(undo_of(table, id)),
        vals_of(arrays, table, id).len() == undo_of(table, id).len(),
{
    assert(arrays[target(table, id)] is Some);
    assert(table[id] is Some);
}

/// A one-record batch on an in-range slot passes validation, so its result
/// is what the single step gives.
proof fn lemma_one_record(
    arrays: Seq<Option<SemArrayView>>,
    table: Seq<Option<SemHandleView>>,
    id: int,
    op: SemBuf,
)
    requires
        resolves(arrays, table, id),
        (op.sem_num as int) < vals_of(arrays, table, id).len(),
        op.sem_op == 1 || op.sem_op == -1,
    ensures
        semop_result(arrays, table, id, seq![op]) == (match step(
            vals_of(arrays, table, id),
            undo_of(table, id),
            op,
        ).2 {
            None => Ok(SemopStatus::Done),
            Some(Stop::Block(s)) => Ok(SemopStatus::Blocked(s)),
            Some(Stop::Fail(e)) => Err(e),
        }),
        semop_commit(arrays, table, id, seq![op]) == (
            step(vals_of(arrays, table, id), undo_of(table, id), op).0,
            step(vals_of(arrays, table, id), undo_of(table, id), op).1,
        ),
{
    lemma_single(vals_of(arrays, table, id), undo_of(table, id), op);
    let n = vals_of(arrays, table, id).len() as int;
    assert(!out_of_range(seq![op], n)) by {
        assert forall|i: int| 0 <= i < 1 implies !(#[trigger] seq![op][i].sem_num >= n) by {
            assert(seq![op][i] == op);
        }
    }
    assert(!crate::semary::bad_amount(seq![op])) by {
        assert forall|i: int| 0 <= i < 1 implies !(#[trigger] seq![op][i].sem_op != 1 && seq![op][
            i].sem_op != -1) by {
            assert(seq![op][i] == op);
        }
    }
}

/// A release followed by an acquire on the same slot, as two `semop` calls,
/// never blocks and leaves the slot's counter where it was; when both or
/// neither record carries `SEM_UNDO`, the undo row is back where it was too.
/// Excluded are only the range limits: a counter already at `SEMVMX`, or an
/// undo entry that would leave `-SEMVMX..=SEMVMX`.
pub proof fn lemma_release_then_acquire(
    arrays: Seq<Option<SemArrayView>>,
    table: Seq<Option<SemHandleView>>,
    id: int,
    s: u16,
    f1: i16,
    f2: i16,
)
    requires
        store_wf(arrays),
        table_wf(table),
        resolves(arrays, table, id),
        (s as int) < vals_of(arrays, table, id).len(),
        vals_of(arrays, table, id)[s as int] < SEMVMX,
        has_flag(f1, SEM_UNDO) ==> undo_of(table, id)[s as int] > -SEMVMX,
        has_flag(f2, SEM_UNDO) && !has_flag(f1, SEM_UNDO) ==> undo_of(table, id)[s as int]
            < SEMVMX,
    ensures
        semop_result(arrays, table, id, release_op(s, f1)) == Ok::<SemopStatus, SemError>(
            SemopStatus::Done,
        ),
        ({
            let c1 = semop_commit(arrays, table, id, release_op(s, f1));
            let a1 = with_vals(arrays, target(table, id), c1.0);
            let t1 = with_undo(table, id, c1.1);
            &&& semop_result(a1, t1, id, acquire_op(s, f2)) == Ok::<SemopStatus, SemError>(
                SemopStatus::Done,
            )
            &&& semop_commit(a1, t1, id, acquire_op(s, f2)).0 == vals_of(arrays, table, id)
            &&& has_flag(f1, SEM_UNDO) == has_flag(f2, SEM_UNDO) ==> semop_commit(
                a1,
                t1,
                id,
                acquire_op(s, f2),
            ).1 == undo_of(table, id)
        }),
{
    lemma_resolved_ok(arrays, table, id);
    let g = target(table, id);
    let rel = SemBuf { sem_num: s, sem_op: 1, sem_flg: f1 };
    let acq = SemBuf { sem_num: s, sem_op: -1i16, sem_flg: f2 };
    lemma_one_record(arrays, table, id, rel);
    let c1 = semop_commit(arrays, table, id, release_op(s, f1));
    let a1 = with_vals(arrays, g, c1.0);
    let t1 = with_undo(table, id, c1.1);
    assert(vals_of(a1, t1, id) == c1.0);
    assert(undo_of(t1, id) == c1.1);
    lemma_one_record(a1, t1, id, acq);
    assert(semop_commit(a1, t1, id, acquire_op(s, f2)).0 =~= vals_of(arrays, table, id));
    if has_flag(f1, SEM_UNDO) == has_flag(f2, SEM_UNDO) {
        assert(semop_commit(a1, t1, id, acquire_op(s, f2)).1 =~= undo_of(table, id));
    }
}

/// An acquire on a slot whose counter is zero takes no effect: it reports
/// the slot to wait on, or fails `WouldBlock` under `IPC_NOWAIT`. Once a
/// release (by anyone) has raised that counter to one, the same acquire goes
/// through and brings it back to zero, after which a further acquire waits
/// again: one release lets exactly one acquirer through.
pub proof fn lemma_acquire_waits_for_release(
    arrays: Seq<Option<SemArrayView>>,
    table: Seq<Option<SemHandleView>>,
    id: int,
    s: u16,
    f: i16,
)
    requires
        store_wf(arrays),
        table_wf(table),
        resolves(arrays, table, id),
        (s as int) < vals_of(arrays, table, id).len(),
        vals_of(arrays, table, id)[s as int] == 0,
        has_flag(f, SEM_UNDO) ==> undo_of(table, id)[s as int] < SEMVMX,
    ensures
        semop_result(arrays, table, id, acquire_op(s, f)) == (if has_flag(f, IPC_NOWAIT) {
            Err(SemError::WouldBlock)
        } else {
            Ok(SemopStatus::Blocked(s as usize))
        }),
        ({
            let g = target(table, id);
            let a1 = with_vals(arrays, g, vals_of(arrays, table, id).update(s as int, 1));
            let c = semop_commit(a1, table, id, acquire_op(s, f));
            &&& semop_result(a1, table, id, acquire_op(s, f)) == Ok::<SemopStatus, SemError>(
                SemopStatus::Done,
            )
            &&& c.0 == vals_of(arrays, table, id)
            &&& semop_result(with_vals(a1, g, c.0), with_undo(table, id, c.1), id, acquire_op(s, f))
                == semop_result(arrays, table, id, acquire_op(s, f))
        }),
{
    lemma_resolved_ok(arrays, table, id);
    let g = target(table, id);
    let acq = SemBuf { sem_num: s, sem_op: -1i16, sem_flg: f };
    lemma_one_record(arrays, table, id, acq);
    let a1 = with_vals(arrays, g, vals_of(arrays, table, id).update(s as int, 1));
    assert(vals_of(a1, table, id) == vals_of(arrays, table, id).update(s as int, 1));
    lemma_one_record(a1, table, id, acq);
    let c = semop_commit(a1, table, id, acquire_op(s, f));
    assert(c.0 =~= vals_of(arrays, table, id));
    let a2 = with_vals(a1, g, c.0);
    let t2 = with_undo(table, id, c.1);
    assert(vals_of(a2, t2, id) == c.0);
    assert(undo_of(t2, id) == c.1);
    lemma_one_record(a2, t2, id, acq);
}

/// An acquire under `SEM_UNDO` goes through on a positive counter, takes one
/// from the counter and adds one to the undo entry of its slot; so applying
/// the undo row, as process exit does, gives the counters it gave before. In
/// particular, from an empty entry, exit restores the pre-acquire counter.
pub proof fn lemma_undo_acquire(
    arrays: Seq<Option<SemArrayView>>,
    table: Seq<Option<SemHandleView>>,
    id: int,
    s: u16,
    f: i16,
)
    requires
        store_wf(arrays),
        table_wf(table),
        resolves(arrays, table, id),
        (s as int) < vals_of(arrays, table, id).len(),
        vals_of(arrays, table, id)[s as int] >= 1,
        has_flag(f, SEM_UNDO),
        undo_of(table, id)[s as int] < SEMVMX,
    ensures
        semop_result(arrays, table, id, acquire_op(s, f)) == Ok::<SemopStatus, SemError>(
            SemopStatus::Done,
        ),
        ({
            let v = vals_of(arrays, table, id);
            let u = undo_of(table, id);
            let c = semop_commit(arrays, table, id, acquire_op(s, f));
            &&& c.0 == v.update(s as int, (v[s as int] - 1) as i64)
            &&& c.1 == u.update(s as int, (u[s as int] + 1) as i64)
            &&& apply_undo(c.0, c.1) == apply_undo(v, u)
            &&& u[s as int] == 0 ==> apply_undo(c.0, c.1)[s as int] == v[s as int]
        }),
{
    lemma_resolved_ok(arrays, table, id);
    let acq = SemBuf { sem_num: s, sem_op: -1i16, sem_flg: f };
    lemma_one_record(arrays, table, id, acq);
    let v = vals_of(arrays, table, id);
    let u = undo_of(table, id);
    let c = semop_commit(arrays, table, id, acquire_op(s, f));
    assert(apply_undo(c.0, c.1) =~= apply_undo(v, u));
}

/// Every record of the batch carries `SEM_UNDO`.
pub open spec fn all_undo(ops: Seq<SemBuf>) -> bool {
    forall|i: int| 0 <= i < ops.len() ==> has_flag(#[trigger] ops[i].sem_flg, SEM_UNDO)
}

/// A batch whose records all carry `SEM_UNDO` and that takes effect leaves
/// the counters-with-undo-applied as they were: process exit undoes exactly
/// what the batch did.
pub proof fn lemma_undo_batch_restores(v: Seq<i64>, u: Seq<i64>, ops: Seq<SemBuf>)
    requires
        v.len() == u.len(),
        !out_of_range(ops, v.len() as int),
        all_undo(ops),
        run_batch(v, u, ops).2 is None,
    ensures
        run_batch(v, u, ops).0.len() == v.len(),
        run_batch(v, u, ops).1.len() == v.len(),
        apply_undo(run_batch(v, u, ops).0, run_batch(v, u, ops).1) == apply_undo(v, u),
    decreases ops.len(),
{
    if ops.len() > 0 {
        let prev = run_batch(v, u, ops.drop_last());
        assert(all_undo(ops.drop_last())) by {
            assert forall|i: int| 0 <= i < ops.drop_last().len() implies has_flag(
                #[trigger] ops.drop_last()[i].sem_flg,
                SEM_UNDO,
            ) by {
                assert(ops.drop_last()[i] == ops[i]);
            }
        }
        assert(has_flag(ops[ops.len() - 1].sem_flg, SEM_UNDO));
        assert(!out_of_range(ops.drop_last(), v.len() as int)) by {
            assert forall|i: int| 0 <= i < ops.drop_last().len() implies !(
            #[trigger] ops.drop_last()[i].sem_num >= v.len()) by {
                assert(ops.drop_last()[i] == ops[i]);
            }
        }
        assert(!(ops[ops.len() - 1].sem_num >= v.len()));
        if prev.2 is Some {
            assert(run_batch(v, u, ops) == prev);
        }
        lemma_undo_batch_restores(v, u, ops.drop_last());
        let next = run_batch(v, u, ops);
        assert(prev.2 is None);
        let op = ops.last();
        assert(next == step(prev.0, prev.1, op));
        assert(has_flag(op.sem_flg, SEM_UNDO));
        let k = op.sem_num as int;
        let nv = prev.0[k] + op.sem_op;
        let nu = prev.1[k] - op.sem_op;
        assert(0 <= nv <= SEMVMX);
        assert(-SEMVMX <= nu <= SEMVMX);
        assert(next.0 == prev.0.update(k, nv as i64));
        assert(next.1 == prev.1.update(k, nu as i64));
        assert(next.0.len() == v.len() && next.1.len() == v.len());
        assert forall|i: int| 0 <= i < v.len() implies #[trigger] apply_undo(next.0, next.1)[i]
            == apply_undo(prev.0, prev.1)[i] by {
            assert(next.0[i] + next.1[i] == prev.0[i] + prev.1[i]);
        }
        assert(apply_undo(next.0, next.1) =~= apply_undo(prev.0, prev.1));
    }
}

} // verus!
