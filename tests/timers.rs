use rin_os::timer::{Timer, TimerCtl, TimerState, MAX_TIMER_COUNT};

#[test]
fn timer_new_is_available() {
    let t = Timer::new();
    assert_eq!(t.flag, TimerState::Available);
    assert_eq!(t.timeout, 0);
}

#[test]
fn timer_allocate_and_free() {
    let mut ctl = TimerCtl::new();
    assert_eq!(ctl.allocate(), Ok(0));
    assert_eq!(ctl.allocate(), Ok(1));
    assert_eq!(ctl.timer(0).flag, TimerState::InUse);
    ctl.free(0);
    assert_eq!(ctl.timer(0).flag, TimerState::Available);
    assert_eq!(ctl.allocate(), Ok(0));
}

#[test]
fn timer_allocate_exhausted() {
    let mut ctl = TimerCtl::new();
    for i in 0..MAX_TIMER_COUNT {
        assert_eq!(ctl.allocate(), Ok(i));
    }
    assert_eq!(ctl.allocate(), Err("No available timer"));
}

#[test]
fn timer_new_has_no_deadline() {
    let ctl = TimerCtl::new();
    assert_eq!(ctl.next(), 0);
    assert_eq!(ctl.count(), 0);
    assert_eq!(ctl.counting(), 0);
}

#[test]
fn set_time_keeps_deadline_order() {
    let mut ctl = TimerCtl::new();
    let t1 = ctl.allocate().unwrap();
    ctl.init_timer(t1, 11, 1);
    ctl.set_time(t1, 100000);
    let t2 = ctl.allocate().unwrap();
    ctl.init_timer(t2, 22, 1);
    ctl.set_time(t2, 300);
    let t3 = ctl.allocate().unwrap();
    ctl.init_timer(t3, 33, 1);
    ctl.set_time(t3, 50);
    assert_eq!(ctl.counting(), 3);
    assert_eq!(ctl.timer_at(0), t3);
    assert_eq!(ctl.timer_at(1), t2);
    assert_eq!(ctl.timer_at(2), t1);
    assert_eq!(ctl.next(), 50);
    assert_eq!(ctl.timer(t2).timeout, 300);
    assert_eq!(ctl.timer(t2).flag, TimerState::Running);
}

#[test]
fn set_time_puts_equal_deadline_first() {
    let mut ctl = TimerCtl::new();
    let a = ctl.allocate().unwrap();
    let b = ctl.allocate().unwrap();
    ctl.set_time(a, 10);
    ctl.set_time(b, 10);
    assert_eq!(ctl.timer_at(0), b);
    assert_eq!(ctl.timer_at(1), a);
}

#[test]
fn tick_fires_due_timers() {
    let mut ctl = TimerCtl::new();
    let t1 = ctl.allocate().unwrap();
    ctl.init_timer(t1, 11, 7);
    ctl.set_time(t1, 3);
    let t2 = ctl.allocate().unwrap();
    ctl.init_timer(t2, 22, 8);
    ctl.set_time(t2, 3);
    let t3 = ctl.allocate().unwrap();
    ctl.set_time(t3, 5);
    assert!(ctl.tick().is_empty());
    assert!(ctl.tick().is_empty());
    let fired = ctl.tick();
    assert_eq!(ctl.count(), 3);
    assert_eq!(fired.len(), 2);
    assert_eq!(fired[0].fifo_addr, 22);
    assert_eq!(fired[0].data, 8);
    assert_eq!(fired[1].fifo_addr, 11);
    assert_eq!(ctl.timer(t1).flag, TimerState::Available);
    assert_eq!(ctl.timer(t2).flag, TimerState::Available);
    assert_eq!(ctl.counting(), 1);
    assert_eq!(ctl.timer_at(0), t3);
    assert_eq!(ctl.next(), 5);
    assert!(ctl.tick().is_empty());
    assert_eq!(ctl.tick().len(), 1);
    assert_eq!(ctl.counting(), 0);
    assert_eq!(ctl.next(), u32::MAX);
    assert_eq!(ctl.timer(t3).flag, TimerState::Available);
}

#[test]
fn set_flag_changes_state() {
    let mut ctl = TimerCtl::new();
    let t = ctl.allocate().unwrap();
    ctl.set_flag(t, TimerState::Available);
    assert_eq!(ctl.timer(t).flag, TimerState::Available);
}
