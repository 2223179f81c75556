use forge_flamegraph::flamegraph::{check_nodes, get_display, DecodedNode, Flamegraph};
use forge_flamegraph::function_call::print_call;
use forge_flamegraph::step::{Jump, Step, VecStep};

fn step(gas: u64, src: &str, jump: Jump, instruction: u8) -> Step {
    Step {
        instruction,
        pc: 0,
        total_gas_used: gas,
        jump,
        source_code: src.to_string(),
    }
}

fn five_step_trace() -> VecStep {
    let mut steps = VecStep::default();
    steps.push(step(0, "contract A {", Jump::Regular, 0x01));
    steps.push(step(10, "function f(", Jump::In, 0x01));
    steps.push(step(20, "foo()", Jump::Regular, 0xF1));
    steps.push(step(30, "contract B {", Jump::Regular, 0x01));
    steps.push(step(40, "", Jump::Out, 0xF3));
    steps
}

fn line_gas(line: &str) -> i64 {
    line.rsplit(' ').next().unwrap().parse().unwrap()
}

#[test]
fn five_step_trace_flattens_to_three_lines() {
    let fg = Flamegraph::from_debug_trace(&five_step_trace()).unwrap();
    // One line per frame, deepest-recorded first, each carrying its frame's
    // self gas: B consumed 20 (from 20 to 40), f consumed 30 of which 20
    // went to B, and the root frame was never closed, so its own share is 0.
    assert_eq!(
        fg.folded_stack_lines,
        vec![
            "A;f;B 20".to_owned(),
            "A;f 10".to_owned(),
            "A 0".to_owned(),
        ]
    );
    assert!(fg.options.flame_chart);
    // The self gas of all frames sums to the total gas of the outermost
    // closed frame (`f`, which spans gas 10 to 40): no clamping occurred
    // below it.
    let sum: i64 = fg.folded_stack_lines.iter().map(|l| line_gas(l)).sum();
    assert_eq!(sum, 30);
}

#[test]
fn flatten_yields_one_line_per_frame() {
    let trace = five_step_trace();
    let tree = trace.parse().unwrap();
    let fg = Flamegraph::from_debug_trace(&trace).unwrap();
    assert_eq!(fg.folded_stack_lines.len(), tree.arena.len());
}

#[test]
fn from_debug_trace_rejects_what_the_builder_rejects() {
    let mut steps = VecStep::default();
    steps.push(step(5, "contract A {", Jump::Regular, 0x01));
    assert!(Flamegraph::from_debug_trace(&steps).is_err());
    assert!(Flamegraph::from_debug_trace(&VecStep::default()).is_err());
}

#[test]
fn self_gas_is_clamped_at_zero() {
    // The unclosed root counts as zero total gas, while its child consumed
    // 20: the root's self gas would be negative and is clamped to zero.
    let mut steps = VecStep::default();
    steps.push(step(0, "contract A {", Jump::Regular, 0x01));
    steps.push(step(10, "function f(", Jump::In, 0x01));
    steps.push(step(30, "", Jump::Out, 0x01));
    let fg = Flamegraph::from_debug_trace(&steps).unwrap();
    assert_eq!(
        fg.folded_stack_lines,
        vec!["A;f 20".to_owned(), "A 0".to_owned()]
    );
    for line in &fg.folded_stack_lines {
        assert!(line_gas(line) >= 0);
    }
}

#[test]
fn unclosed_frames_count_as_zero_gas() {
    let mut steps = VecStep::default();
    steps.push(step(0, "contract A {", Jump::Regular, 0x01));
    steps.push(step(10, "function f(", Jump::In, 0x01));
    let fg = Flamegraph::from_debug_trace(&steps).unwrap();
    assert_eq!(
        fg.folded_stack_lines,
        vec!["A;f 0".to_owned(), "A 0".to_owned()]
    );
}

#[test]
fn print_call_renders_indented_tree() {
    let tree = five_step_trace().parse().unwrap();
    let mut out = String::new();
    print_call(&tree, 0, 0, &mut out);
    assert_eq!(
        out,
        "A.fallback (gas: 0)\n  f internal jump (gas: 30)\n    B.fallback (gas: 20)\n"
    );
}

#[test]
fn print_call_shows_negative_gas_for_unclosed_frames() {
    let mut steps = VecStep::default();
    steps.push(step(0, "contract A {", Jump::Regular, 0x01));
    steps.push(step(10, "function f(", Jump::In, 0x01));
    let tree = steps.parse().unwrap();
    let mut out = String::new();
    print_call(&tree, 1, 0, &mut out);
    // An unclosed frame prints as zero closing gas minus its opening gas.
    assert_eq!(out, "f internal jump (gas: -10)\n");
}

fn decoded(
    parent: Option<usize>,
    children: Vec<usize>,
    gas_used: u64,
    contract: Option<&str>,
    func: Option<&str>,
) -> DecodedNode {
    DecodedNode {
        parent,
        children,
        gas_used,
        contract: contract.map(|s| s.to_string()),
        func: func.map(|s| s.to_string()),
    }
}

#[test]
fn get_display_uses_placeholders() {
    assert_eq!(
        get_display(&decoded(None, vec![], 0, Some("A"), Some("run()"))),
        "A.run()".to_owned()
    );
    assert_eq!(
        get_display(&decoded(None, vec![], 0, None, Some("g()"))),
        "<unknown-contract>.g()".to_owned()
    );
    assert_eq!(
        get_display(&decoded(None, vec![], 0, Some("C"), None)),
        "C.<unknown-function>".to_owned()
    );
}

#[test]
fn from_call_trace_folds_arena_in_order() {
    let nodes = vec![
        decoded(None, vec![1, 2], 100, Some("A"), Some("run()")),
        decoded(Some(0), vec![], 30, None, Some("g()")),
        decoded(Some(0), vec![], 90, Some("C"), None),
    ];
    let fg = Flamegraph::from_call_trace(&nodes).unwrap();
    // One line per node, in arena order; a node's own gas is its total minus
    // its children's, and may be negative.
    assert_eq!(
        fg.folded_stack_lines,
        vec![
            "A.run() -20".to_owned(),
            "A.run();<unknown-contract>.g() 30".to_owned(),
            "A.run();C.<unknown-function> 90".to_owned(),
        ]
    );
    assert!(!fg.options.flame_chart);
}

#[test]
fn from_call_trace_rejects_malformed_arenas() {
    // A parent index that does not precede its node.
    let cyclic = vec![decoded(Some(0), vec![], 10, Some("A"), None)];
    assert!(!check_nodes(&cyclic));
    assert!(Flamegraph::from_call_trace(&cyclic).is_none());

    // A child index out of range.
    let out_of_range = vec![decoded(None, vec![7], 10, Some("A"), None)];
    assert!(!check_nodes(&out_of_range));
    assert!(Flamegraph::from_call_trace(&out_of_range).is_none());

    let fine = vec![decoded(None, vec![], 10, Some("A"), None)];
    assert!(check_nodes(&fine));
    assert!(Flamegraph::from_call_trace(&fine).is_some());
}
