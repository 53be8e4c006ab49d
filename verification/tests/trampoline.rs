use std::cell::Cell;
use tailcall::TailCall;

#[test]
fn done_is_completed_and_peeks_its_value() {
    let c: TailCall<u64, u64> = TailCall::Done(42);
    assert!(c.is_completed());
    assert_eq!(c.result(), Some(&42));
}

#[test]
fn continue_is_not_completed_and_has_no_result() {
    let c: TailCall<u64, u64> = TailCall::Continue(7);
    assert!(!c.is_completed());
    assert_eq!(c.result(), None);
}

#[test]
fn invoke_on_done_returns_value_without_invoking_any_step() {
    let calls = Cell::new(0u64);
    let step = |s: u64| -> TailCall<u64, u64> {
        calls.set(calls.get() + 1);
        TailCall::Done(s)
    };
    let c: TailCall<u64, u64> = TailCall::Done(5);
    let r = c.invoke(&step);
    assert_eq!(r, 5);
    assert_eq!(calls.get(), 0);
}

#[test]
fn invoke_runs_each_step_exactly_once_in_order() {
    let seen = std::cell::RefCell::new(Vec::new());
    let step = |s: u64| -> TailCall<u64, u64> {
        seen.borrow_mut().push(s);
        if s == 0 {
            TailCall::Done(99)
        } else {
            TailCall::Continue(s - 1)
        }
    };
    let c: TailCall<u64, u64> = TailCall::Continue(5);
    let r = c.invoke(&step);
    assert_eq!(r, 99);
    assert_eq!(*seen.borrow(), vec![5, 4, 3, 2, 1, 0]);
}

#[test]
fn apply_advances_a_single_step() {
    let step = |s: u64| -> TailCall<u64, u64> {
        if s == 0 {
            TailCall::Done(10)
        } else {
            TailCall::Continue(s - 1)
        }
    };
    let c: TailCall<u64, u64> = TailCall::Continue(1);
    let c = c.apply(&step);
    assert!(!c.is_completed());
    assert_eq!(c.result(), None);
    let c = c.apply(&step);
    assert!(c.is_completed());
    assert_eq!(c.result(), Some(&10));
}

fn factorial_call(n: u64, acc: u64) -> TailCall<u64, (u64, u64)> {
    if n == 0 {
        TailCall::Done(acc)
    } else {
        TailCall::Continue((n, acc))
    }
}

fn factorial_step(s: (u64, u64)) -> TailCall<u64, (u64, u64)> {
    let (n, acc) = s;
    factorial_call(n - 1, acc * n)
}

#[test]
fn factorial_of_five_is_120() {
    let r = factorial_call(5, 1).invoke(&factorial_step);
    assert_eq!(r, 120);
}

#[test]
fn factorial_of_zero_is_one_after_zero_steps() {
    let calls = Cell::new(0u64);
    let counted = |s: (u64, u64)| -> TailCall<u64, (u64, u64)> {
        calls.set(calls.get() + 1);
        factorial_step(s)
    };
    let c = factorial_call(0, 1);
    assert!(c.is_completed());
    let r = c.invoke(&counted);
    assert_eq!(r, 1);
    assert_eq!(calls.get(), 0);
}

#[test]
fn million_step_chain_completes_on_constant_stack() {
    let step = |s: (u64, u64)| -> TailCall<u64, (u64, u64)> {
        let (n, acc) = s;
        if n == 0 {
            TailCall::Done(acc)
        } else {
            TailCall::Continue((n - 1, acc + 1))
        }
    };
    let c: TailCall<u64, (u64, u64)> = TailCall::Continue((1_000_000, 0));
    let r = c.invoke(&step);
    assert_eq!(r, 1_000_000);
}

#[test]
fn apply_once_then_invoke_finishes_the_chain() {
    let c = factorial_call(5, 1);
    let c = c.apply(&factorial_step);
    assert!(!c.is_completed());
    let r = c.invoke(&factorial_step);
    assert_eq!(r, 120);
}

#[test]
fn steps_may_differ_in_behaviour_through_the_state() {
    // Phase 0 counts down to zero, then hands over to phase 1, which
    // doubles the accumulator that many times.
    let step = |s: (u8, u64, u64)| -> TailCall<u64, (u8, u64, u64)> {
        let (phase, n, acc) = s;
        if phase == 0 {
            if n == 0 {
                TailCall::Continue((1, 3, acc))
            } else {
                TailCall::Continue((0, n - 1, acc + 1))
            }
        } else if n == 0 {
            TailCall::Done(acc)
        } else {
            TailCall::Continue((1, n - 1, acc * 2))
        }
    };
    let c: TailCall<u64, (u8, u64, u64)> = TailCall::Continue((0, 4, 0));
    // counts 4 up into acc, then doubles three times: 4 * 8 = 32
    assert_eq!(c.invoke(&step), 32);
}

#[test]
fn payload_needs_no_copy_or_arithmetic() {
    let step = |s: u32| -> TailCall<String, u32> {
        if s == 0 {
            TailCall::Done(String::from("finished"))
        } else {
            TailCall::Continue(s - 1)
        }
    };
    let c: TailCall<String, u32> = TailCall::Continue(3);
    assert_eq!(c.invoke(&step), "finished");
    let d: TailCall<String, u32> = TailCall::Done(String::from("already"));
    assert_eq!(d.result(), Some(&String::from("already")));
}
