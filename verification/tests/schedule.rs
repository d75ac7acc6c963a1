use amoeba_rl::sim::actors::ActorId;
use amoeba_rl::sim::schedule::{Schedule, TURN};

fn id(n: usize) -> ActorId {
    ActorId::from_raw(n)
}

#[test]
fn pops_in_time_order() {
    let mut s = Schedule::new();
    s.add(id(1), 16);
    s.add(id(2), 4);
    s.add(id(3), 8);
    assert_eq!(s.pop(), Some(id(2)));
    assert_eq!(s.time(), 4);
    assert_eq!(s.pop(), Some(id(3)));
    assert_eq!(s.time(), 8);
    assert_eq!(s.pop(), Some(id(1)));
    assert_eq!(s.time(), 16);
    assert_eq!(s.pop(), None);
}

#[test]
fn ties_are_first_in_first_out() {
    let mut s = Schedule::new();
    s.add(id(1), 16);
    s.add(id(2), 16);
    s.add(id(3), 16);
    assert_eq!(s.pop(), Some(id(1)));
    assert_eq!(s.pop(), Some(id(2)));
    assert_eq!(s.pop(), Some(id(3)));
}

#[test]
fn cost_is_relative_to_the_current_time() {
    let mut s = Schedule::new();
    s.add(id(1), 16);
    s.pop();
    assert_eq!(s.time(), 16);
    s.add(id(1), 16);
    assert_eq!(s.scheduled_for(id(1)), Some(32));
}

#[test]
fn remove_takes_only_one_entry() {
    let mut s = Schedule::new();
    s.add(id(1), 8);
    s.add(id(1), 8);
    s.remove(id(1));
    assert_eq!(s.scheduled_for(id(1)), Some(8));
    s.remove(id(1));
    assert_eq!(s.scheduled_for(id(1)), None);
    assert!(s.is_empty());
}

#[test]
fn remove_of_an_absent_entry_is_harmless() {
    let mut s = Schedule::new();
    s.add(id(1), 8);
    s.remove(id(2));
    assert_eq!(s.scheduled_for(id(1)), Some(8));
}

#[test]
fn clear_rewinds_the_clock() {
    let mut s = Schedule::new();
    s.add(id(1), 48);
    s.pop();
    s.clear();
    assert_eq!(s.time(), 0);
    assert!(s.is_empty());
}

#[test]
fn zero_cost_lands_on_the_current_instant() {
    let mut s = Schedule::new();
    s.add(id(1), 16);
    s.pop();
    s.add(id(2), 0);
    assert_eq!(s.scheduled_for(id(2)), Some(16));
}

// -- more cases --------------------------------------------------------------

#[test]
fn a_turn_is_sixteen_ticks() {
    assert_eq!(TURN, 16);
}

#[test]
fn the_clock_never_runs_backwards_across_pops() {
    let mut s = Schedule::new();
    s.add(id(1), 30);
    s.add(id(2), 5);
    s.add(id(3), 5);
    let mut last = s.time();
    while let Some(_) = s.pop() {
        assert!(s.time() >= last);
        last = s.time();
    }
    assert_eq!(last, 30);
}

#[test]
fn a_negative_cost_lands_on_the_current_instant() {
    let mut s = Schedule::new();
    s.add(id(1), 16);
    s.pop();
    s.add(id(4), -5);
    assert_eq!(s.scheduled_for(id(4)), Some(16));
    assert_eq!(s.pop(), Some(id(4)));
    assert_eq!(s.time(), 16);
}

#[test]
fn the_clock_never_runs_back_over_a_run_of_calls() {
    let mut s = Schedule::new();
    let mut last = s.time();
    for k in 0..20usize {
        s.add(ActorId::from_raw(k), (k as i32 % 5) * 4);
        if k % 3 == 0 {
            s.pop();
        }
        if k % 4 == 0 {
            s.remove(ActorId::from_raw(k / 2));
        }
        assert!(s.time() >= last);
        last = s.time();
    }
    while s.pop().is_some() {
        assert!(s.time() >= last);
        last = s.time();
    }
}
