use pros::ai_vision::{readable_object_type, AiVisionError, ObjectType, PortError};
use pros::critical_section::Core;
use pros::executor::{block_on, complete_all, spawn, Action, Executor, Job, TaskState};
use pros::lcd::{buttons_from_mask, Button, ButtonCallbacks, ButtonsState};
use pros::mutex::IrqMutex;
use pros::reactor::Reactor;

fn job(steps: Vec<Action>, output: i32) -> Job<i32> {
    Job { steps, output }
}

#[test]
fn immediate_and_waiting_tasks() {
    let mut ex: Executor<i32> = Executor::new();
    let a = spawn(&mut ex, job(vec![], 42));
    let b = spawn(&mut ex, job(vec![Action::Await(9)], 7));
    complete_all(&mut ex);
    assert_eq!(ex.output(a), Some(&42));
    assert_eq!(ex.state(b), TaskState::Waiting(9));
    assert_eq!(ex.output(b), None);
    ex.notify(9);
    assert_eq!(ex.state(b), TaskState::Runnable);
    assert_eq!(ex.output(b), None);
    complete_all(&mut ex);
    assert_eq!(ex.state(b), TaskState::Completed);
    assert_eq!(ex.output(b), Some(&7));
}

#[test]
fn first_pass_completes_immediate_task() {
    let mut ex: Executor<i32> = Executor::new();
    let a = spawn(&mut ex, job(vec![], 42));
    let b = spawn(&mut ex, job(vec![Action::Await(3)], 7));
    ex.run_pass();
    assert_eq!(ex.output(a), Some(&42));
    assert_eq!(ex.state(b), TaskState::Waiting(3));
    assert_eq!(ex.runnable_count(), 0);
}

#[test]
fn block_on_returns_output() {
    let mut ex: Executor<i32> = Executor::new();
    assert_eq!(block_on(&mut ex, job(vec![], 5)), Some(5));
    assert_eq!(block_on(&mut ex, job(vec![Action::Yield, Action::Yield], -3)), Some(-3));
    assert_eq!(ex.task_count(), 2);
}

#[test]
fn block_on_drives_other_tasks() {
    let mut ex: Executor<i32> = Executor::new();
    let other = spawn(&mut ex, job(vec![Action::Yield], 11));
    assert_eq!(block_on(&mut ex, job(vec![Action::Yield, Action::Yield, Action::Yield], 1)), Some(1));
    assert_eq!(ex.output(other), Some(&11));
}

#[test]
fn block_on_stalls_on_waiting_task() {
    let mut ex: Executor<i32> = Executor::new();
    assert_eq!(block_on(&mut ex, job(vec![Action::Await(4)], 8)), None);
    assert_eq!(ex.state(0), TaskState::Waiting(4));
    ex.notify(4);
    complete_all(&mut ex);
    assert_eq!(ex.take_output(0), Some(8));
    assert_eq!(ex.output(0), None);
    assert_eq!(ex.take_output(0), None);
}

#[test]
fn complete_all_finishes_unconditional_tasks() {
    let mut ex: Executor<i32> = Executor::new();
    for k in 0..5 {
        let steps = vec![Action::Yield; k];
        spawn(&mut ex, job(steps, k as i32 * 10));
    }
    complete_all(&mut ex);
    for k in 0..5usize {
        assert_eq!(ex.state(k), TaskState::Completed);
        assert_eq!(ex.output(k), Some(&(k as i32 * 10)));
    }
    assert_eq!(ex.runnable_count(), 0);
}

#[test]
fn completed_task_is_not_polled_again() {
    let mut ex: Executor<i32> = Executor::new();
    let a = spawn(&mut ex, job(vec![], 1));
    complete_all(&mut ex);
    complete_all(&mut ex);
    ex.notify(0);
    assert_eq!(ex.state(a), TaskState::Completed);
    assert_eq!(ex.runnable_count(), 0);
}

#[test]
fn repeated_notify_is_coalesced() {
    let mut ex: Executor<i32> = Executor::new();
    let b = spawn(&mut ex, job(vec![Action::Await(2)], 7));
    complete_all(&mut ex);
    ex.notify(2);
    ex.notify(2);
    assert_eq!(ex.runnable_count(), 1);
    assert_eq!(ex.state(b), TaskState::Runnable);
}

#[test]
fn notify_other_condition_keeps_waiting() {
    let mut ex: Executor<i32> = Executor::new();
    let b = spawn(&mut ex, job(vec![Action::Await(2)], 7));
    complete_all(&mut ex);
    ex.notify(3);
    complete_all(&mut ex);
    assert_eq!(ex.state(b), TaskState::Waiting(2));
    assert_eq!(ex.runnable_count(), 0);
}

#[test]
fn notify_without_waiters_is_noop() {
    let mut ex: Executor<i32> = Executor::new();
    ex.notify(1);
    assert_eq!(ex.runnable_count(), 0);
    assert_eq!(ex.task_count(), 0);
}

#[test]
fn busy_tasks_share_each_pass() {
    let mut ex: Executor<i32> = Executor::new();
    let a = spawn(&mut ex, job(vec![Action::Yield; 3], 1));
    let b = spawn(&mut ex, job(vec![Action::Yield; 3], 2));
    for _ in 0..3 {
        ex.run_pass();
        assert_eq!(ex.state(a), TaskState::Runnable);
        assert_eq!(ex.state(b), TaskState::Runnable);
        assert_eq!(ex.runnable_count(), 2);
    }
    ex.run_pass();
    assert_eq!(ex.state(a), TaskState::Completed);
    assert_eq!(ex.state(b), TaskState::Completed);
}

#[test]
fn idle_deadline_is_earliest_timer() {
    let mut ex: Executor<i32> = Executor::new();
    assert_eq!(ex.idle_deadline(), None);
    ex.add_timer(50, 1);
    ex.add_timer(20, 2);
    ex.add_timer(30, 3);
    assert_eq!(ex.idle_deadline(), Some(20));
}

#[test]
fn nested_critical_sections_restore_state() {
    for enabled in [true, false] {
        let mut core = Core::new(enabled);
        let t1 = core.enter();
        assert!(!core.interrupts_enabled());
        let t2 = core.enter();
        let t3 = core.enter();
        assert_eq!(core.depth(), 3);
        core.exit(t3);
        assert!(!core.interrupts_enabled());
        core.exit(t2);
        assert!(!core.interrupts_enabled());
        core.exit(t1);
        assert_eq!(core.interrupts_enabled(), enabled);
        assert_eq!(core.depth(), 0);
    }
}

#[test]
fn irq_mutex_swaps_under_critical_section() {
    let mut core = Core::new(true);
    let mut m = IrqMutex::new(3u32);
    assert_eq!(m.swap(&mut core, 9), 3);
    assert_eq!(m.get(&mut core), 9);
    assert!(core.interrupts_enabled());
    assert_eq!(core.depth(), 0);
    assert_eq!(m.into_inner(), 9);
}

#[test]
fn notify_before_registration_is_not_lost() {
    let mut r = Reactor::new();
    r.begin_poll();
    assert!(r.notify(5).is_empty());
    assert!(r.register_interest(5, 0));
    r.begin_poll();
    assert!(!r.register_interest(5, 1));
    assert_eq!(r.notify(5), vec![1]);
}

#[test]
fn reactor_wakes_in_registration_order() {
    let mut r = Reactor::new();
    r.begin_poll();
    assert!(!r.register_interest(1, 4));
    assert!(!r.register_interest(2, 5));
    assert!(!r.register_interest(1, 6));
    assert_eq!(r.notify(1), vec![4, 6]);
    assert!(r.notify(1).is_empty());
    assert_eq!(r.notify(2), vec![5]);
}

#[test]
fn button_mask_decoding() {
    let s = buttons_from_mask(0b001);
    assert!(s.left_pressed && !s.middle_pressed && !s.right_pressed);
    let s = buttons_from_mask(0b100);
    assert!(!s.left_pressed && !s.middle_pressed && s.right_pressed);
    let s = buttons_from_mask(0b011);
    assert!(!s.left_pressed && !s.middle_pressed && !s.right_pressed);
    let s = buttons_from_mask(0);
    assert_eq!(s, ButtonsState { left_pressed: true, middle_pressed: true, right_pressed: true });
    assert_ne!(Button::Left, Button::Right);
}

#[test]
fn object_types_and_errors() {
    assert_eq!(ObjectType::from(4u8), ObjectType::Model);
    assert_eq!(ObjectType::from(63u8), ObjectType::All);
    assert_eq!(ObjectType::from(5u8), ObjectType::Unknown);
    assert_eq!(readable_object_type(8), Ok(ObjectType::AprilTag));
    assert_eq!(readable_object_type(2), Err(AiVisionError::InvalidObject));
    assert_eq!(readable_object_type(0), Err(AiVisionError::InvalidObject));
    assert_eq!(
        AiVisionError::from(PortError::Disconnected),
        AiVisionError::Port { source: PortError::Disconnected }
    );
}

#[test]
fn timers_wake_waiting_tasks_when_due() {
    let mut ex: Executor<i32> = Executor::new();
    let a = spawn(&mut ex, job(vec![Action::Await(1)], 10));
    let b = spawn(&mut ex, job(vec![Action::Await(2)], 20));
    ex.add_timer(100, 1);
    ex.add_timer(200, 2);
    complete_all(&mut ex);
    ex.fire_timers(99);
    assert_eq!(ex.runnable_count(), 0);
    assert_eq!(ex.idle_deadline(), Some(100));
    ex.fire_timers(150);
    assert_eq!(ex.state(a), TaskState::Runnable);
    assert_eq!(ex.state(b), TaskState::Waiting(2));
    assert_eq!(ex.idle_deadline(), Some(200));
    complete_all(&mut ex);
    assert_eq!(ex.output(a), Some(&10));
    ex.fire_timers(200);
    assert_eq!(ex.idle_deadline(), None);
    complete_all(&mut ex);
    assert_eq!(ex.output(b), Some(&20));
}

#[test]
fn reactor_expire_returns_due_conditions() {
    let mut r = Reactor::new();
    r.add_timer(5, 50);
    r.add_timer(1, 10);
    r.add_timer(9, 90);
    assert_eq!(r.expire(5), vec![50, 10]);
    assert_eq!(r.idle_deadline(), Some(9));
    assert!(r.expire(8).is_empty());
    assert_eq!(r.expire(9), vec![90]);
    assert_eq!(r.idle_deadline(), None);
}

fn one() -> u32 {
    1
}

fn two() -> u32 {
    2
}

#[test]
fn button_callbacks_fill_one_slot() {
    let mut cbs: ButtonCallbacks<fn() -> u32> = ButtonCallbacks::new();
    assert!(cbs.get(Button::Left).is_none());
    cbs.set(Button::Left, one);
    cbs.set(Button::Right, two);
    assert_eq!(cbs.get(Button::Left).map(|f| f()), Some(1));
    assert!(cbs.get(Button::Middle).is_none());
    assert_eq!(cbs.get(Button::Right).map(|f| f()), Some(2));
    cbs.set(Button::Left, two);
    assert_eq!(cbs.get(Button::Left).map(|f| f()), Some(2));
}

#[test]
fn complete_all_at_fixed_point_changes_nothing() {
    let mut ex: Executor<i32> = Executor::new();
    let a = spawn(&mut ex, job(vec![], 1));
    let b = spawn(&mut ex, job(vec![Action::Yield, Action::Await(6)], 2));
    complete_all(&mut ex);
    complete_all(&mut ex);
    assert_eq!(ex.state(a), TaskState::Completed);
    assert_eq!(ex.state(b), TaskState::Waiting(6));
    assert_eq!(ex.output(a), Some(&1));
    assert_eq!(ex.runnable_count(), 0);
}

#[test]
fn block_on_leaves_other_tasks_where_they_are() {
    let mut ex: Executor<i32> = Executor::new();
    let done = spawn(&mut ex, job(vec![], 3));
    let slow = spawn(&mut ex, job(vec![Action::Yield; 4], 4));
    assert_eq!(block_on(&mut ex, job(vec![], 9)), Some(9));
    assert_eq!(ex.output(done), Some(&3));
    assert_eq!(ex.state(slow), TaskState::Runnable);
    complete_all(&mut ex);
    assert_eq!(ex.output(slow), Some(&4));
}
