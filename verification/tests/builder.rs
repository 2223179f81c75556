use forge_flamegraph::function_call::{
    process_acc, CallKind, EarlyStop, ParseError, RcRefCellFunctionCall,
};
use forge_flamegraph::step::{Jump, Step, VecStep};

fn step(gas: u64, src: &str, jump: Jump, instruction: u8) -> Step {
    Step {
        instruction,
        pc: 0,
        total_gas_used: gas,
        jump,
        source_code: src.to_string(),
    }
}

/// The five-step scenario: a contract entry, an internal jump into `f`, a
/// CALL into contract `B`, and one final step that closes both frames (its
/// jump classification is `Out` and its opcode is RETURN).
fn five_step_trace() -> VecStep {
    let mut steps = VecStep::default();
    steps.push(step(0, "contract A {", Jump::Regular, 0x01));
    steps.push(step(10, "function f(", Jump::In, 0x01));
    steps.push(step(20, "foo()", Jump::Regular, 0xF1));
    steps.push(step(30, "contract B {", Jump::Regular, 0x01));
    steps.push(step(40, "", Jump::Out, 0xF3));
    steps
}

#[test]
fn five_step_trace_builds_three_node_tree() {
    let tree = five_step_trace().parse().unwrap();
    assert_eq!(tree.arena.len(), 3);

    let root = &tree.arena[0];
    assert_eq!(root.name, "A".to_owned());
    assert_eq!(root.title, "A.fallback".to_owned());
    assert_eq!(root.gas_start, 0);
    assert_eq!(root.gas_end, None);
    assert_eq!(root.kind, CallKind::ExternalCall);
    assert_eq!(root.parent, None);
    assert_eq!(root.calls, vec![1]);

    let f = &tree.arena[1];
    assert_eq!(f.name, "f".to_owned());
    assert_eq!(f.title, "f internal jump".to_owned());
    assert_eq!(f.gas_start, 10);
    assert_eq!(f.gas_end, Some(40));
    assert_eq!(f.kind, CallKind::InternalJump);
    assert_eq!(f.parent, Some(0));
    assert_eq!(f.calls, vec![2]);

    let b = &tree.arena[2];
    assert_eq!(b.name, "B".to_owned());
    assert_eq!(b.title, "B.fallback".to_owned());
    assert_eq!(b.gas_start, 20);
    assert_eq!(b.gas_end, Some(40));
    assert_eq!(b.kind, CallKind::ExternalCall);
    assert_eq!(b.parent, Some(1));
    assert_eq!(b.calls, Vec::<usize>::new());

    assert_eq!(tree.stopped, None);
}

#[test]
fn building_twice_gives_identical_trees() {
    let trace = five_step_trace();
    let t1 = trace.parse().unwrap();
    let t2 = RcRefCellFunctionCall::parse_steps(&trace).unwrap();
    let t3 = RcRefCellFunctionCall::from_vec_step(&trace).unwrap();
    assert_eq!(t1.arena.len(), t2.arena.len());
    assert_eq!(t1.arena.len(), t3.arena.len());
    for i in 0..t1.arena.len() {
        for t in [&t2, &t3] {
            assert_eq!(t1.arena[i].title, t.arena[i].title);
            assert_eq!(t1.arena[i].name, t.arena[i].name);
            assert_eq!(t1.arena[i].gas_start, t.arena[i].gas_start);
            assert_eq!(t1.arena[i].gas_end, t.arena[i].gas_end);
            assert_eq!(t1.arena[i].kind, t.arena[i].kind);
            assert_eq!(t1.arena[i].calls, t.arena[i].calls);
            assert_eq!(t1.arena[i].parent, t.arena[i].parent);
        }
    }
    assert_eq!(t1.stopped, t2.stopped);
    assert_eq!(t1.stopped, t3.stopped);
}

#[test]
fn process_acc_builds_the_same_tree() {
    let t1 = five_step_trace().parse().unwrap();
    let t2 = process_acc(five_step_trace().0).unwrap();
    assert_eq!(t1.arena.len(), t2.arena.len());
    for i in 0..t1.arena.len() {
        assert_eq!(t1.arena[i].title, t2.arena[i].title);
        assert_eq!(t1.arena[i].gas_start, t2.arena[i].gas_start);
        assert_eq!(t1.arena[i].gas_end, t2.arena[i].gas_end);
        assert_eq!(t1.arena[i].calls, t2.arena[i].calls);
    }
    assert!(process_acc(Vec::new()).is_err());
}

#[test]
fn root_gas_start_is_always_zero() {
    let tree = five_step_trace().parse().unwrap();
    assert_eq!(tree.arena[0].gas_start, 0);
}

#[test]
fn closed_frames_close_no_earlier_than_they_start() {
    let tree = five_step_trace().parse().unwrap();
    for frame in &tree.arena {
        if let Some(end) = frame.gas_end {
            assert!(end >= frame.gas_start);
        }
    }
}

#[test]
fn empty_trace_is_rejected() {
    let steps = VecStep::default();
    assert_eq!(steps.parse().unwrap_err(), ParseError::EmptyTrace);
}

#[test]
fn nonzero_start_gas_is_rejected() {
    let mut steps = VecStep::default();
    steps.push(step(5, "contract A {", Jump::Regular, 0x01));
    steps.push(step(10, "function f(", Jump::In, 0x01));
    assert_eq!(steps.parse().unwrap_err(), ParseError::NonZeroStartGas);
}

#[test]
fn unresolvable_root_name_is_rejected() {
    let mut steps = VecStep::default();
    steps.push(step(0, "function f(", Jump::Regular, 0x01));
    assert_eq!(steps.parse().unwrap_err(), ParseError::NoRootContractName);
}

#[test]
fn internal_jump_without_name_is_skipped() {
    let mut steps = VecStep::default();
    steps.push(step(0, "contract A {", Jump::Regular, 0x01));
    steps.push(step(10, "x = y + 1;", Jump::In, 0x01));
    steps.push(step(20, "z = w;", Jump::Regular, 0x01));
    let tree = steps.parse().unwrap();
    assert_eq!(tree.arena.len(), 1);
    assert_eq!(tree.stopped, None);
}

#[test]
fn internal_jump_name_falls_back_to_next_step() {
    let mut steps = VecStep::default();
    steps.push(step(0, "contract A {", Jump::Regular, 0x01));
    steps.push(step(10, "x = y + 1;", Jump::In, 0x01));
    steps.push(step(20, "function g(", Jump::Regular, 0x01));
    let tree = steps.parse().unwrap();
    assert_eq!(tree.arena.len(), 2);
    assert_eq!(tree.arena[1].name, "g".to_owned());
    assert_eq!(tree.arena[1].gas_start, 10);
}

#[test]
fn native_call_is_atomic() {
    let mut steps = VecStep::default();
    steps.push(step(0, "contract A {", Jump::Regular, 0x01));
    steps.push(step(10, "ecrecover(hash)", Jump::Regular, 0xF1));
    steps.push(step(25, "x = y;", Jump::Regular, 0x01));
    steps.push(step(30, "sha256(data)", Jump::Regular, 0xFA));
    steps.push(step(45, "z = w;", Jump::Regular, 0x01));
    let tree = steps.parse().unwrap();
    assert_eq!(tree.arena.len(), 3);

    let native = &tree.arena[1];
    assert_eq!(native.name, "ecrecover".to_owned());
    assert_eq!(native.title, "ecrecover nativecode".to_owned());
    assert_eq!(native.kind, CallKind::NativeCall);
    assert_eq!(native.gas_start, 10);
    assert_eq!(native.gas_end, Some(25));
    // The cursor never moved: both native frames hang off the root.
    assert_eq!(native.parent, Some(0));
    let second = &tree.arena[2];
    assert_eq!(second.name, "sha256".to_owned());
    assert_eq!(second.parent, Some(0));
    assert_eq!(second.gas_end, Some(45));
    assert_eq!(tree.arena[0].calls, vec![1, 2]);
    assert_eq!(tree.stopped, None);
}

#[test]
fn native_call_name_falls_back_to_next_step() {
    let mut steps = VecStep::default();
    steps.push(step(0, "contract A {", Jump::Regular, 0x01));
    steps.push(step(10, "", Jump::Regular, 0xF1));
    steps.push(step(25, "keccak(data)", Jump::Regular, 0x01));
    let tree = steps.parse().unwrap();
    assert_eq!(tree.arena.len(), 2);
    assert_eq!(tree.arena[1].name, "keccak".to_owned());
    assert_eq!(tree.stopped, None);
}

#[test]
fn native_call_without_any_name_stops_construction() {
    let mut steps = VecStep::default();
    steps.push(step(0, "contract A {", Jump::Regular, 0x01));
    steps.push(step(10, "", Jump::Regular, 0xF1));
    steps.push(step(25, "", Jump::Regular, 0x01));
    steps.push(step(30, "function g(", Jump::In, 0x01));
    let tree = steps.parse().unwrap();
    // The partially built tree is kept, and nothing after the stop is added.
    assert_eq!(tree.stopped, Some(EarlyStop::NoNativeName));
    assert_eq!(tree.arena.len(), 1);
}

#[test]
fn close_at_root_stops_construction() {
    let mut steps = VecStep::default();
    steps.push(step(0, "contract A {", Jump::Regular, 0x01));
    steps.push(step(10, "", Jump::Out, 0x01));
    steps.push(step(20, "function g(", Jump::In, 0x01));
    let tree = steps.parse().unwrap();
    assert_eq!(tree.stopped, Some(EarlyStop::NoParentOnClose));
    assert_eq!(tree.arena.len(), 1);
    // The root is never closed.
    assert_eq!(tree.arena[0].gas_end, None);
}

#[test]
fn halting_opcode_at_root_stops_construction() {
    let mut steps = VecStep::default();
    steps.push(step(0, "contract A {", Jump::Regular, 0x01));
    steps.push(step(10, "", Jump::Regular, 0x00));
    let tree = steps.parse().unwrap();
    assert_eq!(tree.stopped, Some(EarlyStop::NoParentOnClose));
}

#[test]
fn lookahead_at_last_step_degrades_gracefully() {
    // A CALL on the final step has no next step: the native frame is opened
    // from the step's own token and stays unclosed.
    let mut steps = VecStep::default();
    steps.push(step(0, "contract A {", Jump::Regular, 0x01));
    steps.push(step(10, "ecrecover(hash)", Jump::Regular, 0xF1));
    let tree = steps.parse().unwrap();
    assert_eq!(tree.arena.len(), 2);
    assert_eq!(tree.arena[1].name, "ecrecover".to_owned());
    assert_eq!(tree.arena[1].gas_end, None);
    assert_eq!(tree.stopped, None);
}

#[test]
fn revert_closes_like_return() {
    let mut steps = VecStep::default();
    steps.push(step(0, "contract A {", Jump::Regular, 0x01));
    steps.push(step(10, "function f(", Jump::In, 0x01));
    steps.push(step(30, "", Jump::Regular, 0xFD));
    let tree = steps.parse().unwrap();
    assert_eq!(tree.arena[1].gas_end, Some(30));
    assert_eq!(tree.stopped, None);
}

#[test]
fn vec_step_push_appends() {
    let mut steps = VecStep::default();
    assert_eq!(steps.0.len(), 0);
    steps.push(step(0, "contract A {", Jump::Regular, 0x01));
    steps.push(step(7, "function f(", Jump::In, 0x01));
    assert_eq!(steps.0.len(), 2);
    assert_eq!(steps.0[1].total_gas_used, 7);
    assert_eq!(steps.0[1].source_code, "function f(".to_owned());
}
