use vstd::prelude::*;

use crate::semary::{
    bad_amount, counters_ok, out_of_range, restored, run_batch, run_ops, undo_ok,
    SemArray, SemArrayView, SemBuf, SemError, SemopStatus, Stop, SEMMSL, SEMVMX, SETVAL,
};

verus! {

/// A process's local handle on a semaphore array: the array's index in the
/// kernel's store, and the process's undo entry for each slot of it.
pub struct SemHandle {
    pub array: usize,
    pub undo: Vec<i64>,
}

pub ghost struct SemHandleView {
    pub array: usize,
    pub undo: Seq<i64>,
}

impl View for SemHandle {
    type V = SemHandleView;

    open spec fn view(&self) -> SemHandleView {
        SemHandleView { array: self.array, undo: self.undo@ }
    }
}

pub open spec fn handle_view(h: Option<SemHandle>) -> Option<SemHandleView> {
    match h {
        Some(h) => Some(h@),
        None => None,
    }
}

pub open spec fn array_view(a: Option<SemArray>) -> Option<SemArrayView> {
    match a {
        Some(a) => Some(a@),
        None => None,
    }
}

/// One process's semaphore table, indexed by local ID; the undo table is
/// kept per handle, keyed by slot.
pub struct Process {
    pub semaphores: Vec<Option<SemHandle>>,
}

impl View for Process {
    type V = Seq<Option<SemHandleView>>;

    open spec fn view(&self) -> Seq<Option<SemHandleView>> {
        Seq::new(self.semaphores@.len(), |i: int| handle_view(self.semaphores@[i]))
    }
}

/// The kernel-wide store of semaphore arrays. A live entry is registered
/// under its key; a freed one is `None` and its index may be reused.
pub struct Syscall {
    pub arrays: Vec<Option<SemArray>>,
}

impl View for Syscall {
    type V = Seq<Option<SemArrayView>>;

    open spec fn view(&self) -> Seq<Option<SemArrayView>> {
        Seq::new(self.arrays@.len(), |i: int| array_view(self.arrays@[i]))
    }
}

pub open spec fn zeros(n: nat) -> Seq<i64> {
    Seq::new(n, |i: int| 0i64)
}

/// `x` stored at index `i`, which is either an index of `s` or just past it.
pub open spec fn place<T>(s: Seq<T>, i: int, x: T) -> Seq<T> {
    if i < s.len() {
        s.update(i, x)
    } else {
        s.push(x)
    }
}

/// Index `g` holds a live array registered under `key`.
pub open spec fn live_with_key(arrays: Seq<Option<SemArrayView>>, g: int, key: usize) -> bool {
    0 <= g < arrays.len() && arrays[g] is Some && arrays[g].unwrap().key == key
}

/// Well-formed store: counters in range, sizes bounded, every live array
/// held, and at most one live array per key.
pub open spec fn store_wf(arrays: Seq<Option<SemArrayView>>) -> bool {
    &&& forall|g: int|
        0 <= g < arrays.len() && #[trigger] arrays[g] is Some ==> {
            &&& counters_ok(arrays[g].unwrap().vals)
            &&& arrays[g].unwrap().vals.len() <= SEMMSL
            &&& arrays[g].unwrap().holders >= 1
        }
    &&& forall|g: int, h: int|
        #![trigger arrays[g], arrays[h]]
        live_with_key(arrays, g, arrays[h].unwrap().key) && 0 <= h < arrays.len()
            && arrays[h] is Some ==> g == h
}

/// Well-formed table: every undo entry in range.
pub open spec fn table_wf(table: Seq<Option<SemHandleView>>) -> bool {
    forall|i: int|
        0 <= i < table.len() && #[trigger] table[i] is Some ==> {
            &&& undo_ok(table[i].unwrap().undo)
            &&& table[i].unwrap().undo.len() <= SEMMSL
        }
}

/// Local ID `id` names a live array whose size matches the handle's undo row.
pub open spec fn resolves(
    arrays: Seq<Option<SemArrayView>>,
    table: Seq<Option<SemHandleView>>,
    id: int,
) -> bool {
    &&& 0 <= id < table.len()
    &&& table[id] is Some
    &&& table[id].unwrap().array < arrays.len()
    &&& arrays[table[id].unwrap().array as int] is Some
    &&& arrays[table[id].unwrap().array as int].unwrap().vals.len()
        == table[id].unwrap().undo.len()
}

/// The array that local ID `id` resolves to.
pub open spec fn target(table: Seq<Option<SemHandleView>>, id: int) -> int {
    table[id].unwrap().array as int
}

/// `id` is the smallest local ID that `table` does not use.
pub open spec fn smallest_unused(table: Seq<Option<SemHandleView>>, id: int) -> bool {
    &&& 0 <= id <= table.len()
    &&& (id < table.len() ==> table[id] is None)
    &&& forall|j: int| 0 <= j < id ==> #[trigger] table[j] is Some
}

/// The store with array `g`'s counters replaced by `vals`.
pub open spec fn with_vals(arrays: Seq<Option<SemArrayView>>, g: int, vals: Seq<i64>) -> Seq<
    Option<SemArrayView>,
> {
    arrays.update(
        g,
        Some(SemArrayView { key: arrays[g].unwrap().key, vals, holders: arrays[g].unwrap().holders }),
    )
}

/// The table with handle `id`'s undo row replaced by `undo`.
pub open spec fn with_undo(table: Seq<Option<SemHandleView>>, id: int, undo: Seq<i64>) -> Seq<
    Option<SemHandleView>,
> {
    table.update(id, Some(SemHandleView { array: table[id].unwrap().array, undo }))
}

/// Storing a well-formed array at `g` keeps the store well-formed as long
/// as no other live array carries its key.
proof fn lemma_place_wf(arrays: Seq<Option<SemArrayView>>, g: int, a: SemArrayView)
    requires
        store_wf(arrays),
        0 <= g <= arrays.len(),
        counters_ok(a.vals),
        a.vals.len() <= SEMMSL,
        a.holders >= 1,
        forall|h: int| h != g ==> !live_with_key(arrays, h, a.key),
    ensures
        store_wf(place(arrays, g, Some(a))),
{
    let next = place(arrays, g, Some(a));
    assert forall|i: int, j: int|
        #![trigger next[i], next[j]]
        live_with_key(next, i, next[j].unwrap().key) && 0 <= j < next.len()
            && next[j] is Some implies i == j by {
        if i != g && j != g {
            assert(live_with_key(arrays, i, arrays[j].unwrap().key));
        } else if i == g && j != g {
            assert(live_with_key(arrays, j, a.key));
        } else if i != g && j == g {
            assert(live_with_key(arrays, i, a.key));
        }
    }
    assert forall|i: int| 0 <= i < next.len() && #[trigger] next[i] is Some implies {
        &&& counters_ok(next[i].unwrap().vals)
        &&& next[i].unwrap().vals.len() <= SEMMSL
        &&& next[i].unwrap().holders >= 1
    } by {
        if i != g {
            assert(arrays[i] is Some);
        }
    }
}

impl Syscall {
    pub open spec fn wf(&self) -> bool {
        store_wf(self@)
    }

    /// An empty store.
    pub fn new() -> (r: Syscall)
        ensures
            r@.len() == 0,
            r.wf(),
    {
        Syscall { arrays: Vec::new() }
    }

    /// The live array registered under `key`, if any.
    fn find_key(&self, key: usize) -> (r: Option<usize>)
        ensures
            r is Some ==> live_with_key(self@, r.unwrap() as int, key),
            r is None ==> forall|g: int| !live_with_key(self@, g, key),
    {
        let mut g: usize = 0;
        while g < self.arrays.len()
            invariant
                g <= self.arrays.len(),
                forall|j: int| 0 <= j < g ==> !live_with_key(self@, j, key),
            decreases self.arrays.len() - g,
        {
            match &self.arrays[g] {
                Some(a) => {
                    if a.key == key {
                        return Some(g);
                    }
                },
                None => {},
            }
            g = g + 1;
        }
        None
    }

    /// An index of the store that holds no live array, or its length.
    fn free_index(&self) -> (g: usize)
        ensures
            g <= self@.len(),
            g < self@.len() ==> self@[g as int] is None,
    {
        let mut g: usize = 0;
        while g < self.arrays.len()
            invariant
                g <= self.arrays.len(),
            decreases self.arrays.len() - g,
        {
            if self.arrays[g].is_none() {
                return g;
            }
            g = g + 1;
        }
        g
    }

    /// The array index that local ID `sem_id` of `proc` resolves to.
    fn resolve(&self, proc: &Process, sem_id: usize) -> (r: Option<usize>)
        ensures
            r is Some <==> resolves(self@, proc@, sem_id as int),
            r is Some ==> r.unwrap() as int == target(proc@, sem_id as int),
    {
        if sem_id >= proc.semaphores.len() {
            return None;
        }
        match &proc.semaphores[sem_id] {
            None => None,
            Some(h) => {
                if h.array >= self.arrays.len() {
                    return None;
                }
                match &self.arrays[h.array] {
                    None => None,
                    Some(a) => {
                        if a.vals.len() == h.undo.len() {
                            Some(h.array)
                        } else {
                            None
                        }
                    },
                }
            },
        }
    }
}

impl Syscall {
    /// `semget`: attaches the calling process to the live array registered
    /// under `key`, or creates one of `nsems` zeroed slots and registers it,
    /// and records it in `proc`'s table at the smallest unused local ID,
    /// which is returned with a zeroed undo row. `semflg` is not consulted.
    pub fn sys_semget(&mut self, proc: &mut Process, key: usize, nsems: usize, semflg: usize) -> (r:
        Result<usize, SemError>)
        requires
            old(self).wf(),
            old(proc).wf(),
        ensures
            final(self).wf(),
            final(proc).wf(),
            r == Err::<usize, SemError>(SemError::InvalidArgument) <==> nsems > SEMMSL,
            r == Err::<usize, SemError>(SemError::Internal) <==> nsems <= SEMMSL && exists|g: int|
                live_with_key(old(self)@, g, key) && old(self)@[g].unwrap().holders == usize::MAX,
            r is Ok <==> nsems <= SEMMSL && !exists|g: int|
                live_with_key(old(self)@, g, key) && old(self)@[g].unwrap().holders == usize::MAX,
            r is Err ==> final(self)@ == old(self)@ && final(proc)@ == old(proc)@,
            r is Ok ==> smallest_unused(old(proc)@, r.unwrap() as int),
            r is Ok ==> forall|g: int|
                live_with_key(old(self)@, g, key) ==> {
                    let a = old(self)@[g].unwrap();
                    &&& final(self)@ == old(self)@.update(
                        g,
                        Some(SemArrayView { key, vals: a.vals, holders: (a.holders + 1) as usize }),
                    )
                    &&& final(proc)@ == place(
                        old(proc)@,
                        r.unwrap() as int,
                        Some(SemHandleView { array: g as usize, undo: zeros(a.vals.len()) }),
                    )
                },
            r is Ok && (forall|g: int| !live_with_key(old(self)@, g, key)) ==> exists|g: int|
                {
                    &&& 0 <= g <= old(self)@.len()
                    &&& (g < old(self)@.len() ==> old(self)@[g] is None)
                    &&& final(self)@ == place(
                        old(self)@,
                        g,
                        Some(SemArrayView { key, vals: zeros(nsems as nat), holders: 1 }),
                    )
                    &&& final(proc)@ == place(
                        old(proc)@,
                        r.unwrap() as int,
                        Some(SemHandleView { array: g as usize, undo: zeros(nsems as nat) }),
                    )
                },
    {
        if nsems > SEMMSL {
            return Err(SemError::InvalidArgument);
        }
        let id = proc.free_id();
        let g: usize;
        let n: usize;
        match self.find_key(key) {
            Some(found) => {
                let mut taken: Option<SemArray> = None;
                self.arrays.set_and_swap(found, &mut taken);
                let a = taken.unwrap();
                if a.holders == usize::MAX {
                    let mut back = Some(a);
                    self.arrays.set_and_swap(found, &mut back);
                    assert(self@ =~= old(self)@);
                    return Err(SemError::Internal);
                }
                n = a.vals.len();
                let holders = a.holders + 1;
                proof {
                    assert(old(self)@[found as int] is Some);
                    lemma_place_wf(
                        old(self)@,
                        found as int,
                        SemArrayView { key, vals: a.vals@, holders },
                    );
                }
                self.arrays.set(found, Some(SemArray { key: a.key, vals: a.vals, holders }));
                assert(self@ =~= old(self)@.update(
                    found as int,
                    Some(SemArrayView { key, vals: old(self)@[found as int].unwrap().vals, holders }),
                ));
                g = found;
            },
            None => {
                let fresh = SemArray { key, vals: zero_vec(nsems), holders: 1 };
                let f = self.free_index();
                proof {
                    lemma_place_wf(
                        old(self)@,
                        f as int,
                        SemArrayView { key, vals: zeros(nsems as nat), holders: 1 },
                    );
                }
                if f < self.arrays.len() {
                    self.arrays.set(f, Some(fresh));
                } else {
                    self.arrays.push(Some(fresh));
                }
                assert(self@ =~= place(
                    old(self)@,
                    f as int,
                    Some(SemArrayView { key, vals: zeros(nsems as nat), holders: 1 }),
                ));
                n = nsems;
                g = f;
            },
        }
        let handle = SemHandle { array: g, undo: zero_vec(n) };
        if id < proc.semaphores.len() {
            proc.semaphores.set(id, Some(handle));
        } else {
            proc.semaphores.push(Some(handle));
        }
        assert(proc@ =~= place(
            old(proc)@,
            id as int,
            Some(SemHandleView { array: g, undo: zeros(n as nat) }),
        ));
        Ok(id)
    }
}

/// What `semop` returns for local ID `id` and batch `ops`.
pub open spec fn semop_result(
    arrays: Seq<Option<SemArrayView>>,
    table: Seq<Option<SemHandleView>>,
    id: int,
    ops: Seq<SemBuf>,
) -> Result<SemopStatus, SemError> {
    if !resolves(arrays, table, id) {
        Err(SemError::NoSuchEntity)
    } else if ops.len() == 0 || out_of_range(
        ops,
        arrays[target(table, id)].unwrap().vals.len() as int,
    ) {
        Err(SemError::InvalidArgument)
    } else if bad_amount(ops) {
        Err(SemError::Unsupported)
    } else {
        match run_batch(arrays[target(table, id)].unwrap().vals, table[id].unwrap().undo, ops).2 {
            None => Ok(SemopStatus::Done),
            Some(Stop::Block(s)) => Ok(SemopStatus::Blocked(s)),
            Some(Stop::Fail(e)) => Err(e),
        }
    }
}

/// The counters and undo row after a batch that `semop` committed.
pub open spec fn semop_commit(
    arrays: Seq<Option<SemArrayView>>,
    table: Seq<Option<SemHandleView>>,
    id: int,
    ops: Seq<SemBuf>,
) -> (Seq<i64>, Seq<i64>) {
    let b = run_batch(arrays[target(table, id)].unwrap().vals, table[id].unwrap().undo, ops);
    (b.0, b.1)
}

impl Syscall {
    /// `semop`: applies a batch of records to the array that local ID
    /// `sem_id` names, all or nothing. The batch is validated first (the ID,
    /// a non-empty batch, every slot index, every amount); then it is run in
    /// order on copies of the counters and of the undo row. Only when every
    /// record can take effect are the copies committed and `Done` returned.
    /// An acquire on a slot at zero stops the batch with no effect: it fails
    /// `WouldBlock` under `IPC_NOWAIT`, and otherwise reports `Blocked` with
    /// the slot, which the caller waits on before trying the batch again.
    pub fn sys_semop(&mut self, proc: &mut Process, sem_id: usize, sem_ops: &Vec<SemBuf>) -> (r:
        Result<SemopStatus, SemError>)
        requires
            old(self).wf(),
            old(proc).wf(),
        ensures
            final(self).wf(),
            final(proc).wf(),
            r == semop_result(old(self)@, old(proc)@, sem_id as int, sem_ops@),
            resolves(old(self)@, old(proc)@, sem_id as int) && out_of_range(
                sem_ops@,
                old(self)@[target(old(proc)@, sem_id as int)].unwrap().vals.len() as int,
            ) ==> r == Err::<SemopStatus, SemError>(SemError::InvalidArgument),
            r == Ok::<SemopStatus, SemError>(SemopStatus::Done) ==> {
                let c = semop_commit(old(self)@, old(proc)@, sem_id as int, sem_ops@);
                &&& final(self)@ == with_vals(old(self)@, target(old(proc)@, sem_id as int), c.0)
                &&& final(proc)@ == with_undo(old(proc)@, sem_id as int, c.1)
            },
            r != Ok::<SemopStatus, SemError>(SemopStatus::Done) ==> final(self)@ == old(self)@
                && final(proc)@ == old(proc)@,
    {
        let g = match self.resolve(proc, sem_id) {
            None => {
                return Err(SemError::NoSuchEntity);
            },
            Some(g) => g,
        };
        let ghost arr = old(self)@[g as int].unwrap();
        let ghost hnd = old(proc)@[sem_id as int].unwrap();
        let (key, holders, n) = match &self.arrays[g] {
            Some(a) => (a.key, a.holders, a.vals.len()),
            None => {
                return Err(SemError::NoSuchEntity);
            },
        };
        if sem_ops.len() == 0 {
            return Err(SemError::InvalidArgument);
        }
        match check_batch(sem_ops, n) {
            Some(e) => {
                return Err(e);
            },
            None => {},
        }
        assert(counters_ok(arr.vals));
        assert(undo_ok(hnd.undo));
        let (v, u, stop) = match (&self.arrays[g], &proc.semaphores[sem_id]) {
            (Some(a), Some(h)) => run_ops(&a.vals, &h.undo, sem_ops),
            _ => {
                return Err(SemError::NoSuchEntity);
            },
        };
        match stop {
            Some(Stop::Block(s)) => {
                return Ok(SemopStatus::Blocked(s));
            },
            Some(Stop::Fail(e)) => {
                return Err(e);
            },
            None => {},
        }
        proof {
            assert forall|h: int| h != g implies !live_with_key(old(self)@, h, key) by {
                if live_with_key(old(self)@, h, key) {
                    assert(old(self)@[h] is Some && old(self)@[g as int] is Some);
                }
            }
            lemma_place_wf(old(self)@, g as int, SemArrayView { key, vals: v@, holders });
        }
        self.arrays.set(g, Some(SemArray { key, vals: v, holders }));
        proc.semaphores.set(sem_id, Some(SemHandle { array: g, undo: u }));
        assert(self@ =~= with_vals(old(self)@, g as int, v@));
        assert(proc@ =~= with_undo(old(proc)@, sem_id as int, u@));
        Ok(SemopStatus::Done)
    }
}

/// What `semctl` returns for local ID `id`, slot `num`, command `cmd` and
/// argument `arg`.
pub open spec fn semctl_result(
    arrays: Seq<Option<SemArrayView>>,
    table: Seq<Option<SemHandleView>>,
    id: int,
    num: int,
    cmd: usize,
    arg: isize,
) -> Result<usize, SemError> {
    if !resolves(arrays, table, id) {
        Err(SemError::NoSuchEntity)
    } else if num >= arrays[target(table, id)].unwrap().vals.len() {
        Err(SemError::InvalidArgument)
    } else if cmd != SETVAL {
        Err(SemError::Unsupported)
    } else if arg < 0 || arg > SEMVMX {
        Err(SemError::Internal)
    } else {
        Ok(0)
    }
}

impl Syscall {
    /// `semctl`: with `SETVAL`, assigns `arg` to slot `sem_num` of the array
    /// that local ID `sem_id` names; a slot holds only `0..=SEMVMX`. Other
    /// commands are not supported. Undo entries are left as they are.
    pub fn sys_semctl(
        &mut self,
        proc: &Process,
        sem_id: usize,
        sem_num: usize,
        cmd: usize,
        arg: isize,
    ) -> (r: Result<usize, SemError>)
        requires
            old(self).wf(),
        ensures
            final(self).wf(),
            r == semctl_result(old(self)@, proc@, sem_id as int, sem_num as int, cmd, arg),
            r is Ok ==> {
                let g = target(proc@, sem_id as int);
                final(self)@ == with_vals(
                    old(self)@,
                    g,
                    old(self)@[g].unwrap().vals.update(sem_num as int, arg as i64),
                )
            },
            r is Err ==> final(self)@ == old(self)@,
    {
        let g = match self.resolve(proc, sem_id) {
            None => {
                return Err(SemError::NoSuchEntity);
            },
            Some(g) => g,
        };
        let mut taken: Option<SemArray> = None;
        self.arrays.set_and_swap(g, &mut taken);
        let mut a = taken.unwrap();
        if sem_num >= a.vals.len() || cmd != SETVAL || arg < 0 || arg > SEMVMX as isize {
            let r = if sem_num >= a.vals.len() {
                SemError::InvalidArgument
            } else if cmd != SETVAL {
                SemError::Unsupported
            } else {
                SemError::Internal
            };
            let mut back = Some(a);
            self.arrays.set_and_swap(g, &mut back);
            assert(self@ =~= old(self)@);
            return Err(r);
        }
        let ghost before = a.vals@;
        a.vals.set(sem_num, arg as i64);
        proof {
            let key = a.key;
            assert(old(self)@[g as int] is Some);
            assert forall|h: int| h != g implies !live_with_key(old(self)@, h, key) by {
                if live_with_key(old(self)@, h, key) {
                    assert(old(self)@[h] is Some);
                }
            }
            lemma_place_wf(old(self)@, g as int, a@);
        }
        let mut back = Some(a);
        self.arrays.set_and_swap(g, &mut back);
        assert(self@ =~= with_vals(old(self)@, g as int, before.update(sem_num as int, arg as i64)));
        Ok(0)
    }
}

/// Counters after a process's undo row is applied to them, slot by slot.
pub open spec fn apply_undo(vals: Seq<i64>, undo: Seq<i64>) -> Seq<i64> {
    Seq::new(vals.len(), |i: int| restored(vals[i] as int, undo[i] as int) as i64)
}

/// The store after one handle of an exiting process is dropped: its undo
/// row is applied to the array it names, which loses a holder and is freed
/// (unregistered) when that was its last one.
pub open spec fn release_handle(arrays: Seq<Option<SemArrayView>>, h: Option<SemHandleView>) -> Seq<
    Option<SemArrayView>,
> {
    match h {
        None => arrays,
        Some(h) => {
            let g = h.array as int;
            if g < arrays.len() && arrays[g] is Some {
                let a = arrays[g].unwrap();
                if a.holders <= 1 {
                    arrays.update(g, None)
                } else {
                    let vals = if a.vals.len() == h.undo.len() {
                        apply_undo(a.vals, h.undo)
                    } else {
                        a.vals
                    };
                    arrays.update(
                        g,
                        Some(SemArrayView { key: a.key, vals, holders: (a.holders - 1) as usize }),
                    )
                }
            } else {
                arrays
            }
        },
    }
}

/// The store after every handle of `table` is dropped, in table order.
pub open spec fn release_all(
    arrays: Seq<Option<SemArrayView>>,
    table: Seq<Option<SemHandleView>>,
) -> Seq<Option<SemArrayView>>
    decreases table.len(),
{
    if table.len() == 0 {
        arrays
    } else {
        release_handle(release_all(arrays, table.drop_last()), table.last())
    }
}

proof fn lemma_remove_wf(arrays: Seq<Option<SemArrayView>>, g: int)
    requires
        store_wf(arrays),
        0 <= g < arrays.len(),
    ensures
        store_wf(arrays.update(g, None)),
{
    let next = arrays.update(g, None);
    assert forall|i: int, j: int|
        #![trigger next[i], next[j]]
        live_with_key(next, i, next[j].unwrap().key) && 0 <= j < next.len()
            && next[j] is Some implies i == j by {
        assert(live_with_key(arrays, i, arrays[j].unwrap().key));
    }
    assert forall|i: int| 0 <= i < next.len() && #[trigger] next[i] is Some implies {
        &&& counters_ok(next[i].unwrap().vals)
        &&& next[i].unwrap().vals.len() <= SEMMSL
        &&& next[i].unwrap().holders >= 1
    } by {
        assert(arrays[i] is Some);
    }
}

/// Counters with an undo row applied to them.
fn apply_undo_vals(vals: Vec<i64>, undo: &Vec<i64>) -> (r: Vec<i64>)
    requires
        vals.len() == undo.len(),
        counters_ok(vals@),
        undo_ok(undo@),
    ensures
        r@ == apply_undo(vals@, undo@),
        counters_ok(r@),
{
    let ghost orig = vals@;
    let mut r = vals;
    let mut i: usize = 0;
    while i < r.len()
        invariant
            i <= r.len(),
            r.len() == orig.len(),
            undo.len() == orig.len(),
            counters_ok(orig),
            undo_ok(undo@),
            forall|j: int| 0 <= j < i ==> r@[j] == apply_undo(orig, undo@)[j],
            forall|j: int| i <= j < r.len() ==> r@[j] == orig[j],
        decreases r.len() - i,
    {
        assert(r@[i as int] == orig[i as int]);
        assert(0 <= orig[i as int] <= SEMVMX && -SEMVMX <= undo@[i as int] <= SEMVMX);
        let t: i64 = r[i] + undo[i];
        let c: i64 = if t < 0 {
            0
        } else if t > SEMVMX {
            SEMVMX
        } else {
            t
        };
        r.set(i, c);
        i = i + 1;
    }
    assert(r@ =~= apply_undo(orig, undo@));
    r
}

impl Syscall {
    /// Drops one handle of an exiting process.
    fn drop_handle(&mut self, h: &SemHandle)
        requires
            old(self).wf(),
            undo_ok(h.undo@),
        ensures
            final(self).wf(),
            final(self)@ == release_handle(old(self)@, Some(h@)),
    {
        let g = h.array;
        if g >= self.arrays.len() {
            return;
        }
        let mut taken: Option<SemArray> = None;
        self.arrays.set_and_swap(g, &mut taken);
        match taken {
            None => {
                assert(self@ =~= old(self)@);
            },
            Some(a) => {
                proof {
                    lemma_remove_wf(old(self)@, g as int);
                }
                if a.holders <= 1 {
                    assert(self@ =~= old(self)@.update(g as int, None));
                } else {
                    let key = a.key;
                    let holders = a.holders - 1;
                    assert(old(self)@[g as int] is Some);
                    let vals = if a.vals.len() == h.undo.len() {
                        apply_undo_vals(a.vals, &h.undo)
                    } else {
                        a.vals
                    };
                    proof {
                        assert forall|k: int| k != g implies !live_with_key(old(self)@, k, key) by {
                            if live_with_key(old(self)@, k, key) {
                                assert(old(self)@[k] is Some);
                            }
                        }
                        lemma_place_wf(old(self)@, g as int, SemArrayView { key, vals: vals@, holders });
                    }
                    self.arrays.set(g, Some(SemArray { key, vals, holders }));
                    assert(self@ =~= release_handle(old(self)@, Some(h@)));
                }
            },
        }
    }

    /// Process exit: applies each undo row of `proc` to the array it names,
    /// drops `proc`'s handles (freeing arrays that lose their last holder),
    /// and leaves `proc`'s table empty.
    pub fn sys_semexit(&mut self, proc: &mut Process)
        requires
            old(self).wf(),
            old(proc).wf(),
        ensures
            final(self).wf(),
            final(proc).wf(),
            final(self)@ == release_all(old(self)@, old(proc)@),
            final(proc)@.len() == 0,
    {
        let mut i: usize = 0;
        assert(old(proc)@.take(0) =~= Seq::<Option<SemHandleView>>::empty());
        while i < proc.semaphores.len()
            invariant
                i <= proc.semaphores.len(),
                proc@ == old(proc)@,
                proc.wf(),
                self.wf(),
                self@ == release_all(old(self)@, old(proc)@.take(i as int)),
            decreases proc.semaphores.len() - i,
        {
            assert(old(proc)@.take(i + 1).drop_last() =~= old(proc)@.take(i as int));
            assert(old(proc)@.take(i + 1).last() == proc@[i as int]);
            match &proc.semaphores[i] {
                Some(h) => {
                    assert(proc@[i as int] is Some);
                    self.drop_handle(h);
                },
                None => {},
            }
            i = i + 1;
        }
        assert(old(proc)@.take(i as int) =~= old(proc)@);
        proc.semaphores = Vec::new();
        assert(proc@ =~= Seq::<Option<SemHandleView>>::empty());
    }
}

impl Syscall {
    /// The counter of slot `sem_num` of the array that local ID `sem_id` of
    /// `proc` names, if both exist.
    pub fn value(&self, proc: &Process, sem_id: usize, sem_num: usize) -> (r: Option<i64>)
        ensures
            r is Some <==> resolves(self@, proc@, sem_id as int) && sem_num < self@[target(
                proc@,
                sem_id as int,
            )].unwrap().vals.len(),
            r is Some ==> r.unwrap() == self@[target(proc@, sem_id as int)].unwrap().vals[sem_num as int],
    {
        match self.resolve(proc, sem_id) {
            None => None,
            Some(g) => match &self.arrays[g] {
                Some(a) => {
                    if sem_num < a.vals.len() {
                        Some(a.vals[sem_num])
                    } else {
                        None
                    }
                },
                None => None,
            },
        }
    }
}

impl Process {
    pub open spec fn wf(&self) -> bool {
        table_wf(self@)
    }

    /// A process with an empty semaphore table.
    pub fn new() -> (r: Process)
        ensures
            r@.len() == 0,
            r.wf(),
    {
        Process { semaphores: Vec::new() }
    }

    /// The undo entry of `proc` for slot `sem_num` of local ID `sem_id`.
    pub fn undo_entry(&self, sem_id: usize, sem_num: usize) -> (r: Option<i64>)
        ensures
            r is Some <==> sem_id < self@.len() && self@[sem_id as int] is Some && sem_num
                < self@[sem_id as int].unwrap().undo.len(),
            r is Some ==> r.unwrap() == self@[sem_id as int].unwrap().undo[sem_num as int],
    {
        if sem_id >= self.semaphores.len() {
            return None;
        }
        match &self.semaphores[sem_id] {
            Some(h) => {
                if sem_num < h.undo.len() {
                    Some(h.undo[sem_num])
                } else {
                    None
                }
            },
            None => None,
        }
    }

    /// The smallest local ID not in use.
    fn free_id(&self) -> (id: usize)
        ensures
            smallest_unused(self@, id as int),
    {
        let mut i: usize = 0;
        while i < self.semaphores.len()
            invariant
                i <= self.semaphores.len(),
                forall|j: int| 0 <= j < i ==> #[trigger] self@[j] is Some,
            decreases self.semaphores.len() - i,
        {
            if self.semaphores[i].is_none() {
                return i;
            }
            i = i + 1;
        }
        i
    }
}

/// The error that validation finds in a non-empty batch on an array of `n`
/// slots: a slot index out of range first, then an unsupported amount.
fn check_batch(ops: &Vec<SemBuf>, n: usize) -> (r: Option<SemError>)
    ensures
        r == (if out_of_range(ops@, n as int) {
            Some(SemError::InvalidArgument)
        } else if bad_amount(ops@) {
            Some(SemError::Unsupported)
        } else {
            None
        }),
{
    let mut i: usize = 0;
    while i < ops.len()
        invariant
            i <= ops.len(),
            forall|j: int| 0 <= j < i ==> !(#[trigger] ops@[j].sem_num >= n),
        decreases ops.len() - i,
    {
        if ops[i].sem_num as usize >= n {
            return Some(SemError::InvalidArgument);
        }
        i = i + 1;
    }
    i = 0;
    while i < ops.len()
        invariant
            i <= ops.len(),
            !out_of_range(ops@, n as int),
            forall|j: int|
                0 <= j < i ==> !(#[trigger] ops@[j].sem_op != 1 && ops@[j].sem_op != -1),
        decreases ops.len() - i,
    {
        if ops[i].sem_op != 1 && ops[i].sem_op != -1 {
            return Some(SemError::Unsupported);
        }
        i = i + 1;
    }
    None
}

/// A vector of `n` zeros.
fn zero_vec(n: usize) -> (r: Vec<i64>)
    ensures
        r@ == zeros(n as nat),
{
    let mut r: Vec<i64> = Vec::new();
    let mut i: usize = 0;
    while i < n
        invariant
            i <= n,
            r@ == zeros(i as nat),
        decreases n - i,
    {
        r.push(0);
        i = i + 1;
        assert(r@ =~= zeros(i as nat));
    }
    r
}

} // verus!
