use vstd::prelude::*;

verus! {

/// Largest number of slots in one semaphore array.
pub const SEMMSL: usize = 256;

/// Largest value a slot counter, or the magnitude of an undo entry, may take.
pub const SEMVMX: i64 = 32767;

/// Operation flag: fail with `WouldBlock` instead of suspending.
pub const IPC_NOWAIT: i16 = 0x800;

/// Operation flag: record the inverse of the operation in the undo table.
pub const SEM_UNDO: i16 = 0x1000;

/// `semctl` command: assign a slot's counter directly.
pub const SETVAL: usize = 16;

/// Errors of the semaphore system calls.
#[derive(PartialEq, Eq, Structural, Clone, Copy, Debug)]
pub enum SemError {
    /// Bad `nsems`, slot index, empty batch, or a value out of range.
    InvalidArgument,
    /// The local ID names no semaphore array of the calling process.
    NoSuchEntity,
    /// A `IPC_NOWAIT` operation would have had to suspend.
    WouldBlock,
    /// An operation amount other than +1 / -1, or an unknown command.
    Unsupported,
    /// The slot refused the value it was asked to hold.
    Internal,
}

/// One record of a `semop` batch.
#[derive(PartialEq, Eq, Structural, Clone, Copy, Debug)]
pub struct SemBuf {
    pub sem_num: u16,
    pub sem_op: i16,
    pub sem_flg: i16,
}

/// Result of a `semop` batch that passed validation.
#[derive(PartialEq, Eq, Structural, Clone, Copy, Debug)]
pub enum SemopStatus {
    /// Every record took effect.
    Done,
    /// Nothing took effect: the record on this slot must wait for a release.
    Blocked(usize),
}

/// Why a simulated batch stopped before its end.
#[derive(PartialEq, Eq, Structural, Clone, Copy, Debug)]
pub enum Stop {
    Block(usize),
    Fail(SemError),
}

/// A semaphore array: its creation key, its slot counters, and how many
/// local handles refer to it.
pub struct SemArray {
    pub key: usize,
    pub vals: Vec<i64>,
    pub holders: usize,
}

pub ghost struct SemArrayView {
    pub key: usize,
    pub vals: Seq<i64>,
    pub holders: usize,
}

impl View for SemArray {
    type V = SemArrayView;

    open spec fn view(&self) -> SemArrayView {
        SemArrayView { key: self.key, vals: self.vals@, holders: self.holders }
    }
}

pub open spec fn has_flag(flg: i16, bit: i16) -> bool {
    flg & bit != 0
}

pub open spec fn counters_ok(v: Seq<i64>) -> bool {
    forall|i: int| 0 <= i < v.len() ==> 0 <= #[trigger] v[i] <= SEMVMX
}

pub open spec fn undo_ok(u: Seq<i64>) -> bool {
    forall|i: int| 0 <= i < u.len() ==> -SEMVMX <= #[trigger] u[i] <= SEMVMX
}

/// Some record of the batch names a slot at or past `n`.
pub open spec fn out_of_range(ops: Seq<SemBuf>, n: int) -> bool {
    exists|i: int| 0 <= i < ops.len() && #[trigger] ops[i].sem_num >= n
}

/// Some record of the batch has an amount other than +1 or -1.
pub open spec fn bad_amount(ops: Seq<SemBuf>) -> bool {
    exists|i: int| 0 <= i < ops.len() && #[trigger] ops[i].sem_op != 1 && ops[i].sem_op != -1
}

/// One record applied to counters `v` and undo entries `u` of one array.
pub open spec fn step(v: Seq<i64>, u: Seq<i64>, op: SemBuf) -> (Seq<i64>, Seq<i64>, Option<Stop>) {
    let s = op.sem_num as int;
    let nv = v[s] + op.sem_op;
    let nu = u[s] - op.sem_op;
    if nv < 0 {
        if has_flag(op.sem_flg, IPC_NOWAIT) {
            (v, u, Some(Stop::Fail(SemError::WouldBlock)))
        } else {
            (v, u, Some(Stop::Block(op.sem_num as usize)))
        }
    } else if nv > SEMVMX {
        (v, u, Some(Stop::Fail(SemError::InvalidArgument)))
    } else if has_flag(op.sem_flg, SEM_UNDO) {
        if nu < -SEMVMX || nu > SEMVMX {
            (v, u, Some(Stop::Fail(SemError::InvalidArgument)))
        } else {
            (v.update(s, nv as i64), u.update(s, nu as i64), None)
        }
    } else {
        (v.update(s, nv as i64), u, None)
    }
}

/// The records applied in order; the first that cannot take effect stops
/// the batch, and what it stopped on is reported with the state before it.
pub open spec fn run_batch(v: Seq<i64>, u: Seq<i64>, ops: Seq<SemBuf>) -> (Seq<i64>, Seq<i64>, Option<Stop>)
    decreases ops.len(),
{
    if ops.len() == 0 {
        (v, u, None)
    } else {
        let prev = run_batch(v, u, ops.drop_last());
        if prev.2 is Some {
            prev
        } else {
            step(prev.0, prev.1, ops.last())
        }
    }
}

/// A slot's counter after its undo entry is applied at process exit:
/// the sum, held within `0..=SEMVMX`.
pub open spec fn restored(val: int, adj: int) -> int {
    if val + adj < 0 {
        0
    } else if val + adj > SEMVMX {
        SEMVMX as int
    } else {
        val + adj
    }
}

} // verus!

verus! {

/// Once a prefix of the batch has stopped, the whole batch stops there.
proof fn lemma_stop_persists(v: Seq<i64>, u: Seq<i64>, ops: Seq<SemBuf>, k: int)
    requires
        0 <= k <= ops.len(),
        run_batch(v, u, ops.take(k)).2 is Some,
    ensures
        run_batch(v, u, ops) == run_batch(v, u, ops.take(k)),
    decreases ops.len(),
{
    if k == ops.len() {
        assert(ops.take(k) =~= ops);
    } else {
        assert(ops.drop_last().take(k) =~= ops.take(k));
        lemma_stop_persists(v, u, ops.drop_last(), k);
    }
}

/// A copy of a counter or undo vector.
pub fn copy_vals(v: &Vec<i64>) -> (r: Vec<i64>)
    ensures
        r@ == v@,
{
    let mut r: Vec<i64> = Vec::new();
    let mut i: usize = 0;
    while i < v.len()
        invariant
            i <= v.len(),
            r@ == v@.take(i as int),
        decreases v.len() - i,
    {
        r.push(v[i]);
        i = i + 1;
        assert(r@ =~= v@.take(i as int));
    }
    assert(v@.take(i as int) =~= v@);
    r
}

/// Runs a validated batch against copies of one array's counters and one
/// process's undo entries for it, stopping at the first record that cannot
/// take effect. The inputs are never changed: the caller commits the copies.
pub fn run_ops(vals: &Vec<i64>, undo: &Vec<i64>, ops: &Vec<SemBuf>) -> (r: (Vec<i64>, Vec<i64>, Option<Stop>))
    requires
        vals.len() == undo.len(),
        counters_ok(vals@),
        undo_ok(undo@),
        !out_of_range(ops@, vals.len() as int),
    ensures
        run_batch(vals@, undo@, ops@) == (r.0@, r.1@, r.2),
        r.0.len() == vals.len(),
        r.1.len() == vals.len(),
        counters_ok(r.0@),
        undo_ok(r.1@),
{
    let mut v = copy_vals(vals);
    let mut u = copy_vals(undo);
    let mut i: usize = 0;
    assert(ops@.take(0) =~= Seq::<SemBuf>::empty());
    while i < ops.len()
        invariant
            i <= ops.len(),
            run_batch(vals@, undo@, ops@.take(i as int)) == (v@, u@, None::<Stop>),
            v.len() == vals.len(),
            u.len() == vals.len(),
            counters_ok(v@),
            undo_ok(u@),
            !out_of_range(ops@, vals.len() as int),
        decreases ops.len() - i,
    {
        let op = ops[i];
        assert(ops@.take(i + 1).drop_last() =~= ops@.take(i as int));
        assert(ops@.take(i + 1).last() == op);
        assert(!(ops@[i as int].sem_num >= vals.len()));
        let s = op.sem_num as usize;
        let nv: i64 = v[s] + op.sem_op as i64;
        let nu: i64 = u[s] - op.sem_op as i64;
        if nv < 0 {
            let stop = if op.sem_flg & IPC_NOWAIT != 0 {
                Stop::Fail(SemError::WouldBlock)
            } else {
                Stop::Block(s)
            };
            proof {
                lemma_stop_persists(vals@, undo@, ops@, i + 1);
            }
            return (v, u, Some(stop));
        } else if nv > SEMVMX {
            proof {
                lemma_stop_persists(vals@, undo@, ops@, i + 1);
            }
            return (v, u, Some(Stop::Fail(SemError::InvalidArgument)));
        } else if op.sem_flg & SEM_UNDO != 0 {
            if nu < -SEMVMX || nu > SEMVMX {
                proof {
                    lemma_stop_persists(vals@, undo@, ops@, i + 1);
                }
                return (v, u, Some(Stop::Fail(SemError::InvalidArgument)));
            }
            v.set(s, nv);
            u.set(s, nu);
        } else {
            v.set(s, nv);
        }
        i = i + 1;
    }
    assert(ops@.take(ops.len() as int) =~= ops@);
    (v, u, None)
}

} // verus!
