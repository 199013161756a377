//! SysV-style semaphore arrays: a key registry of shared counting-semaphore
//! arrays, per-process handle and undo tables, and the `semget` / `semop` /
//! `semctl` handlers, each stated and proved against a model of that state.

pub mod semary;
pub mod syscall;
pub mod laws;

pub use semary::{SemArray, SemArrayView, SemBuf, SemError, SemopStatus, Stop};
pub use semary::{IPC_NOWAIT, SEM_UNDO, SEMMSL, SEMVMX, SETVAL};
pub use syscall::{Process, SemHandle, SemHandleView, Syscall};
