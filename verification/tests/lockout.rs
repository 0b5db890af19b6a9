use simple_ssh_manager::lockout::{
    can_record_failure, lock_remaining, record_failure, record_success, restored, Lockout,
};

#[test]
fn lockout_doubles() {
    // pure arithmetic check of the doubling schedule
    for cycle in 0..5u32 {
        let mins = 1u64 << cycle;
        assert_eq!(mins, [1, 2, 4, 8, 16][cycle as usize]);
        let mut l = Lockout { fails: 2, locked_until: 0, cycle };
        assert_eq!(record_failure(&mut l, 1000), mins * 60);
        assert_eq!(l, Lockout { fails: 0, locked_until: 1000 + mins * 60, cycle: cycle + 1 });
    }
}

#[test]
fn every_third_failure_locks() {
    let mut l = Lockout::default();
    let mut secs = Vec::new();
    for i in 0..9u64 {
        secs.push(record_failure(&mut l, 1000 * i));
    }
    assert_eq!(secs, vec![0, 0, 60, 0, 0, 120, 0, 0, 240]);
    assert_eq!(l, Lockout { fails: 0, locked_until: 8240, cycle: 3 });
}

#[test]
fn failures_below_the_limit_do_not_lock() {
    let mut l = Lockout::default();
    assert_eq!(record_failure(&mut l, 5), 0);
    assert_eq!(l, Lockout { fails: 1, locked_until: 0, cycle: 0 });
    assert_eq!(lock_remaining(&l, 5), 0);
}

#[test]
fn lock_runs_down() {
    let l = Lockout { fails: 0, locked_until: 160, cycle: 1 };
    assert_eq!(lock_remaining(&l, 100), 60);
    assert_eq!(lock_remaining(&l, 159), 1);
    assert_eq!(lock_remaining(&l, 160), 0);
    assert_eq!(lock_remaining(&l, 1000), 0);
}

#[test]
fn success_clears() {
    let mut l = Lockout { fails: 2, locked_until: 160, cycle: 4 };
    record_success(&mut l);
    assert_eq!(l, Lockout { fails: 0, locked_until: 0, cycle: 0 });
}

#[test]
fn restart_keeps_the_state() {
    let l = Lockout { fails: 2, locked_until: 160, cycle: 4 };
    assert_eq!(restored(Some(l)), l);
    assert_eq!(restored(None), Lockout { fails: 0, locked_until: 0, cycle: 0 });
}

#[test]
fn more_than_three_failures_lock() {
    let mut l = Lockout { fails: 7, locked_until: 0, cycle: 0 };
    assert_eq!(record_failure(&mut l, 0), 60);
    assert_eq!(l.fails, 0);
}

#[test]
fn failures_beyond_the_machine_are_told() {
    assert!(can_record_failure(&Lockout::default(), u64::MAX));
    assert!(can_record_failure(&Lockout { fails: 2, locked_until: 0, cycle: 0 }, u64::MAX - 60));
    assert!(!can_record_failure(&Lockout { fails: 2, locked_until: 0, cycle: 0 }, u64::MAX - 59));
    assert!(can_record_failure(&Lockout { fails: 2, locked_until: 0, cycle: 58 }, 0));
    assert!(!can_record_failure(&Lockout { fails: 2, locked_until: 0, cycle: 59 }, 0));
    assert!(!can_record_failure(&Lockout { fails: 2, locked_until: 0, cycle: 64 }, 0));
    assert!(can_record_failure(&Lockout { fails: 1, locked_until: 0, cycle: 64 }, 0));
    assert!(!can_record_failure(&Lockout { fails: u32::MAX, locked_until: 0, cycle: 0 }, 0));
}
