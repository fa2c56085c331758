use r_tpl::dead_lock_detector::DealLockDetector;
use r_tpl::lock::LockMode;
use r_tpl::lock_mgr::{LockErrorCode, LockManager, LockTable};
use r_tpl::operation::{OpType, Operation};

fn mgr(id: &str, rid: &str, op: OpType) -> LockManager {
    LockManager::new(Operation::new(id.to_string(), rid.to_string(), op))
}

#[test]
pub fn test_lock_unlock() {
    let mut table = LockTable::new();
    let mut det = DealLockDetector::new();
    let lock_mgr = mgr("1", "1,2,3", OpType::Read);
    let lock_rs = lock_mgr.acquire(&mut table);
    assert!(lock_rs.is_ok());
    let unlock_rs = lock_mgr.release(&mut table, &mut det);
    assert!(unlock_rs.is_ok());
}

#[test]
pub fn test_acquire_multi_state() {
    let mut table = LockTable::new();
    for idx in 0..2_i32 {
        let lock_mgr = mgr(&idx.to_string(), "1,2,3", OpType::Read);
        let lock = lock_mgr.acquire(&mut table);
        assert!(lock.is_ok());
    }
    assert_eq!(1, table.resource_count());
    assert_eq!(2, table.operation_count());
}

#[test]
pub fn test_wait_lock_state() {
    let mut table = LockTable::new();
    let mut det = DealLockDetector::new();
    let resource_id = "1,2,3";
    let write_mgr = mgr("2", resource_id, OpType::Write);
    let read_mgr = mgr("1", resource_id, OpType::Read);

    let write_lock_rs = write_mgr.acquire(&mut table);
    assert!(write_lock_rs.is_ok());

    // the reader blocks while the writer holds its lock
    let blocked = read_mgr.try_acquire(&mut table, &mut det);
    assert!(matches!(blocked, Err(LockErrorCode::LockConflicts(_, _))));

    let write_release = write_mgr.release(&mut table, &mut det);
    assert!(write_release.is_ok());

    // the release wakes the queued reader: no busy retry needed
    let lock_rs = read_mgr.poll(&table);
    assert!(lock_rs.is_some());
    assert_eq!(lock_rs.unwrap().lock_mode, LockMode::Shared);
}

#[test]
fn release_is_idempotent_safe() {
    let mut table = LockTable::new();
    let mut det = DealLockDetector::new();
    let a = mgr("a", "x", OpType::Read);
    let b = mgr("b", "x", OpType::Read);
    assert!(a.acquire(&mut table).is_ok());
    assert!(b.acquire(&mut table).is_ok());
    assert!(a.release(&mut table, &mut det).is_ok());
    // the second release reports NoLockHeld and corrupts nothing
    let again = a.release(&mut table, &mut det);
    assert!(matches!(again, Err(LockErrorCode::NoLockHeld(_))));
    assert_eq!(table.locks_on(&"x".to_string()).len(), 1);
    assert_eq!(
        table.locks_on(&"x".to_string())[0].op_id,
        "b".to_string()
    );
}

#[test]
fn upgrade_needs_sole_holder() {
    let mut table = LockTable::new();
    let mut det = DealLockDetector::new();
    let a_read = mgr("a", "x", OpType::Read);
    let b_read = mgr("b", "x", OpType::Read);
    assert!(a_read.acquire(&mut table).is_ok());
    assert!(b_read.acquire(&mut table).is_ok());

    // another Shared holder exists: the upgrade is refused
    let a_write = mgr("a", "x", OpType::Write);
    let refused = a_write.acquire(&mut table);
    assert!(matches!(refused, Err(LockErrorCode::LockConflicts(_, _))));

    // once the other holder releases, the sole holder upgrades in place
    assert!(b_read.release(&mut table, &mut det).is_ok());
    let upgraded = a_write.acquire(&mut table);
    assert!(upgraded.is_ok());
    assert_eq!(upgraded.unwrap().lock_mode, LockMode::Exclusive);
    let grants = table.locks_on(&"x".to_string());
    assert_eq!(grants.len(), 1);
    assert_eq!(grants[0].lock_mode, LockMode::Exclusive);
}

#[test]
fn upgrade_via_table_reports_not_held() {
    let mut table = LockTable::new();
    let r = table.upgrade(
        &"ghostless".to_string(),
        &"x".to_string(),
        LockMode::Exclusive,
    );
    assert!(matches!(r, Err(LockErrorCode::NoLockHeld(_))));
}

#[test]
fn duplicate_id_is_a_caller_error() {
    let mut table = LockTable::new();
    let a = mgr("a", "x", OpType::Read);
    assert!(a.acquire(&mut table).is_ok());
    let again = a.acquire(&mut table);
    assert!(matches!(again, Err(LockErrorCode::DuplicateLock(_))));
}

#[test]
fn two_operation_deadlock_is_broken() {
    let mut table = LockTable::new();
    let mut det = DealLockDetector::new();
    // both hold Shared on r; each then wants Exclusive on r: the classic
    // two-operation cycle, formed through the upgrade path
    let a_read = mgr("a", "r", OpType::Read);
    let b_read = mgr("b", "r", OpType::Read);
    assert!(a_read.acquire(&mut table).is_ok());
    assert!(b_read.acquire(&mut table).is_ok());

    let a_write = mgr("a", "r", OpType::Write);
    let b_write = mgr("b", "r", OpType::Write);

    // a blocks on b: one wait edge, no cycle yet
    let ra = a_write.try_acquire(&mut table, &mut det);
    assert!(matches!(ra, Err(LockErrorCode::LockConflicts(_, _))));

    // b blocks on a: the cycle closes and is broken at once; the
    // youngest member of the cycle (b, the later arrival) is the victim
    let rb = b_write.try_acquire(&mut table, &mut det);
    assert!(matches!(rb, Err(LockErrorCode::Aborted(_))));
    assert!(table.is_aborted(&"b".to_string()));

    // the victim's locks were released before the error surfaced, so the
    // survivor now upgrades
    let ra2 = a_write.try_acquire(&mut table, &mut det);
    assert!(ra2.is_ok());
    assert_eq!(ra2.unwrap().lock_mode, LockMode::Exclusive);
}

#[test]
fn no_lost_wakeup() {
    let mut table = LockTable::new();
    let mut det = DealLockDetector::new();
    let b = mgr("b", "r", OpType::Write);
    assert!(b.acquire(&mut table).is_ok());

    let a = mgr("a", "r", OpType::Read);
    let blocked = a.try_acquire(&mut table, &mut det);
    assert!(matches!(blocked, Err(LockErrorCode::LockConflicts(_, _))));
    assert!(a.poll(&table).is_none());

    // b releases the only conflicting lock: a's pending request succeeds
    // with the release itself, before any timeout could elapse
    assert!(b.release(&mut table, &mut det).is_ok());
    assert!(a.poll(&table).is_some());
}

#[test]
fn exclusive_not_overtaken_by_later_shared() {
    let mut table = LockTable::new();
    let mut det = DealLockDetector::new();
    let a = mgr("a", "x", OpType::Read);
    assert!(a.acquire(&mut table).is_ok());

    // an Exclusive request queues behind the Shared holder
    let c = mgr("c", "x", OpType::Write);
    assert!(matches!(
        c.try_acquire(&mut table, &mut det),
        Err(LockErrorCode::LockConflicts(_, _))
    ));

    // a Shared request arriving after the queued Exclusive one is not
    // granted ahead of it, though it is compatible with the grants
    let d = mgr("d", "x", OpType::Read);
    assert!(matches!(
        d.acquire(&mut table),
        Err(LockErrorCode::LockConflicts(_, _))
    ));

    // the release serves the queued Exclusive request first
    assert!(a.release(&mut table, &mut det).is_ok());
    assert!(c.poll(&table).is_some());
    assert!(d.poll(&table).is_none());
}

#[test]
fn timed_out_request_leaves_no_trace() {
    let mut table = LockTable::new();
    let mut det = DealLockDetector::new();
    let b = mgr("b", "r", OpType::Write);
    assert!(b.acquire(&mut table).is_ok());
    let a = mgr("a", "r", OpType::Read);
    assert!(matches!(
        a.try_acquire(&mut table, &mut det),
        Err(LockErrorCode::LockConflicts(_, _))
    ));
    assert_eq!(table.queue_len(&"r".to_string()), 1);
    let e = a.time_out(&mut table, &mut det);
    assert!(matches!(e, LockErrorCode::Timeout(_, _)));
    assert_eq!(table.queue_len(&"r".to_string()), 0);
}

#[test]
fn end_to_end_scenario() {
    let mut table = LockTable::new();
    let mut det = DealLockDetector::new();
    // A (id "1") and B (id "2") share resource "x"
    let a = mgr("1", "x", OpType::Read);
    let b = mgr("2", "x", OpType::Read);
    assert!(a.acquire(&mut table).is_ok());
    assert!(b.acquire(&mut table).is_ok());
    assert_eq!(table.locks_on(&"x".to_string()).len(), 2);

    // C (id "3") wants Exclusive: it blocks behind the two readers
    let c = mgr("3", "x", OpType::Write);
    assert!(matches!(
        c.try_acquire(&mut table, &mut det),
        Err(LockErrorCode::LockConflicts(_, _))
    ));

    // after both readers release, C holds the lock without re-requesting
    assert!(a.release(&mut table, &mut det).is_ok());
    assert!(c.poll(&table).is_none());
    assert!(b.release(&mut table, &mut det).is_ok());
    let got = c.poll(&table);
    assert!(got.is_some());
    assert_eq!(got.unwrap().lock_mode, LockMode::Exclusive);
}

#[test]
fn error_messages_match_the_protocol() {
    let dup = LockErrorCode::DuplicateLock("1".to_string());
    assert_eq!(
        dup.message(),
        "Failed acquire for OP_ID 1. Lock already exist."
    );
    let conflict = LockErrorCode::LockConflicts("1".to_string(), "2".to_string());
    assert_eq!(conflict.message(), "Acquire Lock conflicts OP_ID 1 RES_ID 2");
    let none = LockErrorCode::NoLockHeld("7".to_string());
    assert_eq!(
        none.message(),
        "Failed No transaction holds a lock  for OP_ID 7"
    );
}

#[test]
fn lock_mode_relations() {
    assert!(LockMode::Shared.compatible(LockMode::Shared));
    assert!(!LockMode::Shared.compatible(LockMode::Exclusive));
    assert!(!LockMode::Exclusive.compatible(LockMode::Shared));
    assert!(!LockMode::Exclusive.compatible(LockMode::Exclusive));
    assert!(LockMode::NoLock.compatible(LockMode::Exclusive));
    assert!(LockMode::Shared.upgradable(LockMode::Exclusive));
    assert!(!LockMode::Shared.upgradable(LockMode::Shared));
    assert!(!LockMode::Exclusive.upgradable(LockMode::Exclusive));
}

#[test]
fn interleaved_acquires_keep_the_matrix() {
    // a small deterministic mix of acquires and releases; after each step
    // the grants on every resource satisfy the compatibility matrix
    let mut table = LockTable::new();
    let mut det = DealLockDetector::new();
    let mut seed: u64 = 0x2545F4914F6CDD1D;
    let rids = ["p", "q", "s"];
    for step in 0..60u64 {
        seed = seed.wrapping_mul(6364136223846793005).wrapping_add(1442695040888963407);
        let rid = rids[(seed >> 33) as usize % 3];
        let id = format!("op{}", step % 12);
        let m = mgr(&id, rid, if seed % 3 == 0 { OpType::Write } else { OpType::Read });
        if seed % 5 == 0 {
            let _ = m.release(&mut table, &mut det);
        } else {
            let _ = m.try_acquire(&mut table, &mut det);
        }
        for r in rids.iter() {
            let grants = table.locks_on(&r.to_string());
            let n_x = grants
                .iter()
                .filter(|l| l.lock_mode == LockMode::Exclusive)
                .count();
            let n_s = grants
                .iter()
                .filter(|l| l.lock_mode == LockMode::Shared)
                .count();
            assert!(n_x <= 1);
            assert!(n_x == 0 || n_s == 0);
        }
    }
}
