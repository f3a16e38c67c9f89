use tobdd::spin::distributed_rw::{
    enter_step, leave_step, may_read, scan_step, DistributedRwLock, WriteAttempt, MAX_THREADS,
};
use tobdd::spin::{rw_r_pre, rw_w_pre};

#[test]
fn readers_share_a_distributed_lock() {
    let mut lock = DistributedRwLock::default();
    let first = lock.read(0).unwrap();
    let last = lock.read(MAX_THREADS - 1).unwrap();
    assert!(lock.is_read_locked(0) && lock.is_read_locked(31) && !lock.is_read_locked(7));
    assert!(!lock.is_writer_pending());
    lock.release_read(first);
    assert!(!lock.is_read_locked(0));
    lock.release_read(last);
    assert!(!lock.is_read_locked(31));
    assert_eq!(lock.stat().read_acquires, 2);
}

#[test]
fn one_of_two_guards_of_a_slot_still_holds_the_lock() {
    let mut lock = DistributedRwLock::default();
    let first = lock.read(0).unwrap();
    let second = lock.read(0).unwrap();
    lock.release_read(second);
    assert!(lock.is_read_locked(0));
    assert!(matches!(lock.try_write(), WriteAttempt::Draining));
    // A reader that backs off leaves the guard that is live as it is.
    assert!(lock.read(0).is_none());
    assert!(lock.is_read_locked(0));
    assert!(matches!(lock.drain(), WriteAttempt::Draining));
    lock.release_read(first);
    assert!(!lock.is_read_locked(0));
    assert!(matches!(lock.drain(), WriteAttempt::Locked(_)));
}

#[test]
fn unlocking_a_free_slot_does_nothing() {
    let mut lock = DistributedRwLock::default();
    lock.read_unlock(3);
    assert!(!lock.is_read_locked(3));
    assert!(lock.read_lock(3));
    assert!(lock.read_lock(3));
    lock.read_unlock(3);
    assert!(lock.is_read_locked(3));
    lock.read_unlock(3);
    assert!(!lock.is_read_locked(3));
}

#[test]
fn writer_waits_for_the_readers_of_a_distributed_lock() {
    let mut lock = DistributedRwLock::default();
    assert!(lock.read_lock(5));
    assert!(matches!(lock.try_write(), WriteAttempt::Draining));
    assert!(lock.is_writer_pending());
    // New readers back off while the writer waits.
    assert!(lock.read(6).is_none());
    assert!(!lock.read_lock(2));
    assert_eq!(lock.stat().read_writer_spins, 2);
    assert!(matches!(lock.drain(), WriteAttempt::Draining));
    lock.read_unlock(5);
    match lock.drain() {
        WriteAttempt::Locked(guard) => {
            assert!(lock.read(0).is_none());
            assert!(matches!(lock.try_write(), WriteAttempt::Busy));
            lock.release_write(guard);
        }
        _ => panic!("no reader is left"),
    }
    assert!(!lock.is_writer_pending());
    assert!(lock.read(0).is_some());
}

#[test]
fn free_distributed_lock_is_taken_at_once() {
    let mut lock = DistributedRwLock::default();
    assert!(matches!(lock.try_write(), WriteAttempt::Locked(_)));
    assert!(matches!(lock.try_write(), WriteAttempt::Busy));
}

#[test]
fn steps_of_the_distributed_protocol() {
    assert!(may_read(false));
    assert!(!may_read(true));
    assert_eq!(scan_step(3, 0), 4);
    assert_eq!(scan_step(3, 1), 0);
    assert_eq!(enter_step(0), Some(1));
    assert_eq!(enter_step(u32::MAX - 1), Some(u32::MAX));
    assert_eq!(enter_step(u32::MAX), None);
    assert_eq!(leave_step(2), 1);
    assert_eq!(leave_step(0), 0);
}

#[test]
fn readers_first_lock_counts_its_readers() {
    let mut lock = rw_r_pre::SpinRwLock::new(5u32);
    let a = lock.read().unwrap();
    let b = lock.read().unwrap();
    assert_eq!(*lock.get(&a), 5);
    assert!(!lock.try_write_once(|x: &mut u32| *x = 6));
    lock.release_read(a);
    assert!(!lock.try_write_once(|x: &mut u32| *x = 6));
    assert_eq!(*lock.get(&b), 5);
    lock.release_read(b);
    assert!(lock.try_write_once(|x: &mut u32| *x += 1));
    lock.write(|x: &mut u32| *x *= 10);
    let c = lock.read().unwrap();
    assert_eq!(*lock.get(&c), 60);
}

#[test]
fn steps_of_the_readers_first_lock() {
    assert_eq!(rw_r_pre::read_step(-1), rw_r_pre::ReadStep::Spin);
    assert_eq!(rw_r_pre::read_step(0), rw_r_pre::ReadStep::Enter(1));
    assert_eq!(rw_r_pre::read_step(isize::MAX), rw_r_pre::ReadStep::Overflow);
    assert_eq!(rw_r_pre::write_step(0), Some(-1));
    assert_eq!(rw_r_pre::write_step(1), None);
    assert_eq!(rw_r_pre::write_step(-1), None);
}

#[test]
fn writer_first_lock_turns_new_readers_away() {
    let mut lock = rw_w_pre::SpinRwLock::new(String::from("a"));
    let reader = lock.read().unwrap();
    assert_eq!(lock.get(&reader), "a");
    assert!(matches!(lock.try_write(), rw_w_pre::WriteAttempt::Draining));
    assert!(lock.read().is_none());
    assert!(matches!(lock.try_write(), rw_w_pre::WriteAttempt::Busy));
    assert!(matches!(lock.drain(), rw_w_pre::WriteAttempt::Draining));
    lock.release_read(reader);
    match lock.drain() {
        rw_w_pre::WriteAttempt::Locked(guard) => {
            lock.get_mut(&guard).push('b');
            assert!(lock.read().is_none());
            lock.release_write(guard);
        }
        _ => panic!("no reader is left"),
    }
    let reader = lock.read().unwrap();
    assert_eq!(lock.get(&reader), "ab");
}

#[test]
fn default_writer_first_lock_is_free() {
    let mut lock: rw_w_pre::SpinRwLock<u8> = Default::default();
    match lock.try_write() {
        rw_w_pre::WriteAttempt::Locked(guard) => assert_eq!(*lock.get_mut(&guard), 0),
        _ => panic!("nobody is in"),
    }
}

#[test]
fn steps_of_the_writer_first_lock() {
    assert_eq!(rw_w_pre::read_step(0), Some(4));
    assert_eq!(rw_w_pre::read_step(8), Some(12));
    assert_eq!(rw_w_pre::read_step(1), None);
    assert_eq!(rw_w_pre::read_step(10), None);
    assert_eq!(rw_w_pre::claim_step(8), Some(10));
    assert_eq!(rw_w_pre::claim_step(2), None);
    assert_eq!(rw_w_pre::claim_step(1), None);
    assert_eq!(rw_w_pre::lock_step(2), Some(1));
    assert_eq!(rw_w_pre::lock_step(6), None);
    assert_eq!(rw_w_pre::read_end(6), 2);
    assert_eq!(rw_w_pre::write_end(1), 0);
    assert_eq!(rw_w_pre::write_end(11), 8);
}

#[test]
fn lock_counts_are_kept_apart() {
    let mut stat = rw_w_pre::RwLockStat::default();
    stat.record_acquire();
    stat.record_acquire();
    stat.record_retry();
    stat.record_spin();
    assert_eq!((stat.read_acquires, stat.read_cas_retries, stat.read_writer_spins), (2, 1, 1));
}
