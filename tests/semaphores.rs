use sysv_sem::{Process, SemBuf, SemError, SemopStatus, Syscall};
use sysv_sem::{IPC_NOWAIT, SEMMSL, SEMVMX, SEM_UNDO, SETVAL};

fn op(sem_num: u16, sem_op: i16, sem_flg: i16) -> SemBuf {
    SemBuf { sem_num, sem_op, sem_flg }
}

#[test]
fn semget_assigns_smallest_unused_ids() {
    let mut sys = Syscall::new();
    let mut p = Process::new();
    assert_eq!(sys.sys_semget(&mut p, 1, 0, 0), Ok(0));
    assert_eq!(sys.sys_semget(&mut p, 2, SEMMSL, 0), Ok(1));
    assert_eq!(sys.sys_semget(&mut p, 3, 1, 0), Ok(2));
    assert_eq!(sys.value(&p, 1, SEMMSL - 1), Some(0));
    assert_eq!(sys.value(&p, 1, SEMMSL), None);
    assert_eq!(p.undo_entry(2, 0), Some(0));
}

#[test]
fn semget_rejects_too_many_slots() {
    let mut sys = Syscall::new();
    let mut p = Process::new();
    assert_eq!(sys.sys_semget(&mut p, 5, SEMMSL + 1, 0), Err(SemError::InvalidArgument));
    assert_eq!(sys.value(&p, 0, 0), None);
    // nothing was created: the key is still free and ID 0 is still unused
    assert_eq!(sys.sys_semget(&mut p, 5, 1, 0), Ok(0));
    assert_eq!(sys.value(&p, 0, 0), Some(0));
}

#[test]
fn scenario_blocked_acquire_completes_after_setval() {
    let mut sys = Syscall::new();
    let mut p = Process::new();
    assert_eq!(sys.sys_semget(&mut p, 42, 1, 0), Ok(0));
    let acquire = vec![op(0, -1, SEM_UNDO)];
    assert_eq!(sys.sys_semop(&mut p, 0, &acquire), Ok(SemopStatus::Blocked(0)));
    assert_eq!(sys.value(&p, 0, 0), Some(0));
    assert_eq!(p.undo_entry(0, 0), Some(0));
    assert_eq!(sys.sys_semctl(&p, 0, 0, SETVAL, 1), Ok(0));
    assert_eq!(sys.sys_semop(&mut p, 0, &acquire), Ok(SemopStatus::Done));
    assert_eq!(sys.value(&p, 0, 0), Some(0));
    assert_eq!(p.undo_entry(0, 0), Some(1));
}

#[test]
fn scenario_same_key_attaches_across_processes() {
    let mut sys = Syscall::new();
    let mut first = Process::new();
    let mut second = Process::new();
    assert_eq!(sys.sys_semget(&mut first, 7, 2, 0), Ok(0));
    assert_eq!(sys.sys_semget(&mut second, 7, 2, 0), Ok(0));
    assert_eq!(sys.arrays.iter().filter(|a| a.is_some()).count(), 1);
    assert_eq!(sys.sys_semctl(&first, 0, 1, SETVAL, 5), Ok(0));
    assert_eq!(sys.value(&second, 0, 1), Some(5));
    assert_eq!(sys.sys_semop(&mut second, 0, &vec![op(0, 1, 0)]), Ok(SemopStatus::Done));
    assert_eq!(sys.value(&first, 0, 0), Some(1));
}

#[test]
fn release_then_acquire_restores_counter() {
    let mut sys = Syscall::new();
    let mut p = Process::new();
    assert_eq!(sys.sys_semget(&mut p, 9, 3, 0), Ok(0));
    assert_eq!(sys.sys_semctl(&p, 0, 2, SETVAL, 4), Ok(0));
    assert_eq!(sys.sys_semop(&mut p, 0, &vec![op(2, 1, 0)]), Ok(SemopStatus::Done));
    assert_eq!(sys.value(&p, 0, 2), Some(5));
    assert_eq!(sys.sys_semop(&mut p, 0, &vec![op(2, -1, 0)]), Ok(SemopStatus::Done));
    assert_eq!(sys.value(&p, 0, 2), Some(4));
}

#[test]
fn one_release_lets_one_acquirer_through() {
    let mut sys = Syscall::new();
    let mut first = Process::new();
    let mut second = Process::new();
    assert_eq!(sys.sys_semget(&mut first, 11, 1, 0), Ok(0));
    assert_eq!(sys.sys_semget(&mut second, 11, 1, 0), Ok(0));
    let acquire = vec![op(0, -1, 0)];
    assert_eq!(sys.sys_semop(&mut first, 0, &acquire), Ok(SemopStatus::Blocked(0)));
    assert_eq!(sys.sys_semop(&mut second, 0, &acquire), Ok(SemopStatus::Blocked(0)));
    assert_eq!(sys.sys_semop(&mut second, 0, &vec![op(0, 1, 0)]), Ok(SemopStatus::Done));
    assert_eq!(sys.sys_semop(&mut first, 0, &acquire), Ok(SemopStatus::Done));
    assert_eq!(sys.sys_semop(&mut second, 0, &acquire), Ok(SemopStatus::Blocked(0)));
    assert_eq!(sys.value(&first, 0, 0), Some(0));
}

#[test]
fn nowait_acquire_at_zero_would_block() {
    let mut sys = Syscall::new();
    let mut p = Process::new();
    assert_eq!(sys.sys_semget(&mut p, 1, 1, 0), Ok(0));
    assert_eq!(sys.sys_semop(&mut p, 0, &vec![op(0, -1, IPC_NOWAIT)]), Err(SemError::WouldBlock));
    let both = IPC_NOWAIT | SEM_UNDO;
    assert_eq!(sys.sys_semop(&mut p, 0, &vec![op(0, -1, both)]), Err(SemError::WouldBlock));
    assert_eq!(p.undo_entry(0, 0), Some(0));
    assert_eq!(sys.sys_semop(&mut p, 0, &vec![op(0, 1, both)]), Ok(SemopStatus::Done));
    assert_eq!(p.undo_entry(0, 0), Some(-1));
    assert_eq!(sys.sys_semop(&mut p, 0, &vec![op(0, -1, both)]), Ok(SemopStatus::Done));
    assert_eq!(p.undo_entry(0, 0), Some(0));
    assert_eq!(sys.value(&p, 0, 0), Some(0));
}

#[test]
fn out_of_range_slot_fails_and_changes_nothing() {
    let mut sys = Syscall::new();
    let mut p = Process::new();
    assert_eq!(sys.sys_semget(&mut p, 1, 2, 0), Ok(0));
    let batch = vec![op(0, 1, SEM_UNDO), op(2, 1, 0)];
    assert_eq!(sys.sys_semop(&mut p, 0, &batch), Err(SemError::InvalidArgument));
    assert_eq!(sys.value(&p, 0, 0), Some(0));
    assert_eq!(p.undo_entry(0, 0), Some(0));
    // a bad index is reported before a bad amount
    let batch = vec![op(0, 2, 0), op(5, 1, 0)];
    assert_eq!(sys.sys_semop(&mut p, 0, &batch), Err(SemError::InvalidArgument));
}

#[test]
fn unsupported_amount_and_empty_batch() {
    let mut sys = Syscall::new();
    let mut p = Process::new();
    assert_eq!(sys.sys_semget(&mut p, 1, 1, 0), Ok(0));
    assert_eq!(sys.sys_semop(&mut p, 0, &vec![op(0, 2, 0)]), Err(SemError::Unsupported));
    assert_eq!(sys.sys_semop(&mut p, 0, &vec![op(0, 0, 0)]), Err(SemError::Unsupported));
    assert_eq!(sys.sys_semop(&mut p, 0, &Vec::new()), Err(SemError::InvalidArgument));
}

#[test]
fn unknown_local_id_is_no_such_entity() {
    let mut sys = Syscall::new();
    let mut p = Process::new();
    assert_eq!(sys.sys_semop(&mut p, 0, &vec![op(0, 1, 0)]), Err(SemError::NoSuchEntity));
    assert_eq!(sys.sys_semctl(&p, 3, 0, SETVAL, 1), Err(SemError::NoSuchEntity));
}

#[test]
fn semctl_errors() {
    let mut sys = Syscall::new();
    let mut p = Process::new();
    assert_eq!(sys.sys_semget(&mut p, 1, 1, 0), Ok(0));
    assert_eq!(sys.sys_semctl(&p, 0, 1, SETVAL, 1), Err(SemError::InvalidArgument));
    assert_eq!(sys.sys_semctl(&p, 0, 0, 12, 1), Err(SemError::Unsupported));
    assert_eq!(sys.sys_semctl(&p, 0, 0, SETVAL, -1), Err(SemError::Internal));
    assert_eq!(sys.sys_semctl(&p, 0, 0, SETVAL, 40000), Err(SemError::Internal));
    assert_eq!(sys.sys_semctl(&p, 0, 0, SETVAL, SEMVMX as isize), Ok(0));
    assert_eq!(sys.value(&p, 0, 0), Some(SEMVMX));
    // a release past the largest value is refused
    assert_eq!(sys.sys_semop(&mut p, 0, &vec![op(0, 1, 0)]), Err(SemError::InvalidArgument));
    assert_eq!(sys.value(&p, 0, 0), Some(SEMVMX));
}

#[test]
fn batch_is_all_or_nothing() {
    let mut sys = Syscall::new();
    let mut p = Process::new();
    assert_eq!(sys.sys_semget(&mut p, 1, 2, 0), Ok(0));
    let batch = vec![op(0, 1, SEM_UNDO), op(1, -1, SEM_UNDO)];
    assert_eq!(sys.sys_semop(&mut p, 0, &batch), Ok(SemopStatus::Blocked(1)));
    assert_eq!(sys.value(&p, 0, 0), Some(0));
    assert_eq!(p.undo_entry(0, 0), Some(0));
    // within one batch, a release feeds a later acquire on the same slot
    let batch = vec![op(0, 1, 0), op(0, -1, 0), op(1, 1, 0)];
    assert_eq!(sys.sys_semop(&mut p, 0, &batch), Ok(SemopStatus::Done));
    assert_eq!(sys.value(&p, 0, 0), Some(0));
    assert_eq!(sys.value(&p, 0, 1), Some(1));
}

#[test]
fn exit_applies_undo_and_frees_last_holder() {
    let mut sys = Syscall::new();
    let mut first = Process::new();
    let mut second = Process::new();
    assert_eq!(sys.sys_semget(&mut first, 3, 1, 0), Ok(0));
    assert_eq!(sys.sys_semget(&mut second, 3, 1, 0), Ok(0));
    assert_eq!(sys.sys_semctl(&second, 0, 0, SETVAL, 2), Ok(0));
    assert_eq!(sys.sys_semop(&mut first, 0, &vec![op(0, -1, SEM_UNDO)]), Ok(SemopStatus::Done));
    assert_eq!(sys.sys_semop(&mut first, 0, &vec![op(0, -1, 0)]), Ok(SemopStatus::Done));
    assert_eq!(sys.value(&second, 0, 0), Some(0));
    sys.sys_semexit(&mut first);
    assert_eq!(first.semaphores.len(), 0);
    // only the UNDO-flagged acquire is given back
    assert_eq!(sys.value(&second, 0, 0), Some(1));
    sys.sys_semexit(&mut second);
    assert_eq!(sys.arrays.iter().filter(|a| a.is_some()).count(), 0);
    // the key is free again: a new array is created with zeroed slots
    let mut third = Process::new();
    assert_eq!(sys.sys_semget(&mut third, 3, 1, 0), Ok(0));
    assert_eq!(sys.value(&third, 0, 0), Some(0));
}

#[test]
fn exit_clamps_restored_counter_at_zero() {
    let mut sys = Syscall::new();
    let mut first = Process::new();
    let mut second = Process::new();
    assert_eq!(sys.sys_semget(&mut first, 4, 1, 0), Ok(0));
    assert_eq!(sys.sys_semget(&mut second, 4, 1, 0), Ok(0));
    assert_eq!(sys.sys_semop(&mut first, 0, &vec![op(0, 1, SEM_UNDO)]), Ok(SemopStatus::Done));
    assert_eq!(sys.sys_semop(&mut second, 0, &vec![op(0, -1, 0)]), Ok(SemopStatus::Done));
    sys.sys_semexit(&mut first);
    assert_eq!(sys.value(&second, 0, 0), Some(0));
}

#[test]
fn freed_local_id_is_reused() {
    let mut sys = Syscall::new();
    let mut p = Process::new();
    assert_eq!(sys.sys_semget(&mut p, 1, 1, 0), Ok(0));
    assert_eq!(sys.sys_semget(&mut p, 2, 1, 0), Ok(1));
    p.semaphores[0] = None;
    assert_eq!(sys.sys_semget(&mut p, 3, 1, 0), Ok(0));
    assert_eq!(sys.sys_semget(&mut p, 4, 1, 0), Ok(2));
}
