//! The processor time of the current thread.

use cpu_time::ThreadTime;
use vstd::prelude::*;

verus! {

/// A reading of the current thread's clock, `cpu_time::ThreadTime`.
#[verifier::external_type_specification]
#[verifier::external_body]
pub struct ExThreadTime(cpu_time::ThreadTime);

/// Calls `cpu_time::ThreadTime::try_now`, which reads the clock of the current thread. Nothing is
/// claimed of the reading. There is none where the system has no such clock.
#[verifier::external_body]
pub(crate) fn thread_now() -> (r: Option<ThreadTime>) {
    match ThreadTime::try_now() {
        Ok(now) => Some(now),
        Err(_) => None,
    }
}

/// Calls `cpu_time::ThreadTime::try_elapsed`, which reads the clock of the current thread again
/// and subtracts the earlier reading. A reading stays on its thread, whose clock does not run
/// backwards, so the later one is not below it. Nothing is claimed of how many microseconds that
/// is. There is no answer where the system has no such clock.
#[verifier::external_body]
fn try_elapsed_micros(start: &ThreadTime) -> (r: Option<u64>) {
    match start.try_elapsed() {
        Ok(time) => Some(time.as_micros() as u64),
        Err(_) => None,
    }
}

/// The microseconds to count for an answer of the clock; none where there is no answer.
fn counted(answer: Option<u64>) -> (r: u64)
    ensures
        r == (match answer {
            Some(micros) => micros,
            None => 0,
        }),
{
    match answer {
        Some(micros) => micros,
        None => 0,
    }
}

/// The microseconds that have passed since a reading, as far as the clock answers; none where
/// there is no reading. How many they are is up to the clock.
pub(crate) fn micros_since(start: &Option<ThreadTime>) -> (r: u64)
    ensures
        start is None ==> r == 0,
{
    match start {
        Some(time) => counted(try_elapsed_micros(time)),
        None => 0,
    }
}

} // verus!
