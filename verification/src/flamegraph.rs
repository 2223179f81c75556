//! Flattening of a call tree into folded stack lines.
//!
//! Each frame of the tree yields one line `ancestor;...;name <self-gas>`,
//! where the self gas is the frame's total gas minus its children's totals,
//! clamped at zero. A second, simpler path folds an already-decoded
//! call-trace arena the same way.

use vstd::prelude::*;
use vstd::string::*;

use crate::function_call::{
    arena_inv, arena_view, close_current, complete_arena, is_call_opcode, is_halt_opcode,
    lemma_run_inv, lemma_transition_inv, parents_descend, parse_error_of, parse_result_ok,
    push_frame, run, sorted_calls, state_inv, t_call, t_jump_in, t_jump_out, transition,
    wf_arena, BuildState, FrameModel, FunctionCall, ParseError, RcRefCellFunctionCall,
};
use crate::step::{Jump, VecStep};
use crate::utils::{dec_digits, dec_int, diff_to_string, u128_to_string};

verus! {

/// The views of a vector of strings.
pub open spec fn lines_view(v: Seq<String>) -> Seq<Seq<char>> {
    v.map_values(|s: String| s@)
}

/// Total gas a frame consumed: the distance between its gas bounds, zero
/// when the frame was never closed (or its recorded bounds are inconsistent,
/// which the builder never produces from a gas-monotone trace).
pub open spec fn frame_total(f: FrameModel) -> nat {
    match f.gas_end {
        Some(e) => if e >= f.gas_start {
            (e - f.gas_start) as nat
        } else {
            0
        },
        None => 0,
    }
}

/// The sum of the totals of the children of `idx`, from child position `k`
/// on.
pub open spec fn child_total_sum(a: Seq<FrameModel>, idx: int, k: int) -> nat
    decreases a[idx].calls.len() - k,
{
    if k < 0 || k >= a[idx].calls.len() {
        0
    } else {
        frame_total(a[a[idx].calls[k]]) + child_total_sum(a, idx, k + 1)
    }
}

/// Gas attributable to the frame itself: its total minus its children's
/// totals, clamped at zero.
pub open spec fn self_gas(a: Seq<FrameModel>, idx: int) -> nat {
    let total = frame_total(a[idx]);
    let kids = child_total_sum(a, idx, 0);
    if total >= kids {
        (total - kids) as nat
    } else {
        0
    }
}

/// The folded-stack path of a frame: its name, preceded by the parent's path
/// and a semicolon when the frame is not the traversal's root.
pub open spec fn stack_path(prepend: Option<Seq<char>>, name: Seq<char>) -> Seq<char> {
    match prepend {
        Some(p) => p + ";"@ + name,
        None => name,
    }
}

/// One folded-stack line: the path, a space, and the self gas in decimal.
pub open spec fn folded_line(path: Seq<char>, g: nat) -> Seq<char> {
    path + " "@ + dec_digits(g)
}

/// The folded-stack lines of the subtree at `idx`, pre-order, under path
/// prefix `prepend`.
pub open spec fn flatten_node(a: Seq<FrameModel>, idx: int, prepend: Option<Seq<char>>) -> Seq<
    Seq<char>,
>
    decreases a.len() - idx, a[idx].calls.len() + 1,
        when wf_arena(a) && 0 <= idx < a.len()
{
    seq![folded_line(stack_path(prepend, a[idx].name), self_gas(a, idx))] + flatten_kids(
        a,
        idx,
        0,
        stack_path(prepend, a[idx].name),
    )
}

/// The folded-stack lines of the children of `idx` from child position `k`
/// on, each under path prefix `path`.
pub open spec fn flatten_kids(a: Seq<FrameModel>, idx: int, k: int, path: Seq<char>) -> Seq<
    Seq<char>,
>
    decreases a.len() - idx, a[idx].calls.len() - k,
        when wf_arena(a) && 0 <= idx < a.len() && 0 <= k
{
    if k >= a[idx].calls.len() {
        Seq::empty()
    } else {
        flatten_node(a, a[idx].calls[k], Some(path)) + flatten_kids(a, idx, k + 1, path)
    }
}

/// The number of frames in the subtree at `idx`.
pub open spec fn count_nodes(a: Seq<FrameModel>, idx: int) -> nat
    decreases a.len() - idx, a[idx].calls.len() + 1,
        when wf_arena(a) && 0 <= idx < a.len()
{
    1 + count_kids(a, idx, 0)
}

/// The number of frames in the subtrees of the children of `idx` from child
/// position `k` on.
pub open spec fn count_kids(a: Seq<FrameModel>, idx: int, k: int) -> nat
    decreases a.len() - idx, a[idx].calls.len() - k,
        when wf_arena(a) && 0 <= idx < a.len() && 0 <= k
{
    if k >= a[idx].calls.len() {
        0
    } else {
        count_nodes(a, a[idx].calls[k]) + count_kids(a, idx, k + 1)
    }
}

/// The sum of the self gas of all frames in the subtree at `idx`.
pub open spec fn sum_self_gas(a: Seq<FrameModel>, idx: int) -> nat
    decreases a.len() - idx, a[idx].calls.len() + 1,
        when wf_arena(a) && 0 <= idx < a.len()
{
    self_gas(a, idx) + sum_self_kids(a, idx, 0)
}

/// The sum of the self gas over the subtrees of the children of `idx` from
/// child position `k` on.
pub open spec fn sum_self_kids(a: Seq<FrameModel>, idx: int, k: int) -> nat
    decreases a.len() - idx, a[idx].calls.len() - k,
        when wf_arena(a) && 0 <= idx < a.len() && 0 <= k
{
    if k >= a[idx].calls.len() {
        0
    } else {
        sum_self_gas(a, a[idx].calls[k]) + sum_self_kids(a, idx, k + 1)
    }
}

/// No clamping occurs anywhere in the subtree at `idx`: every frame's total
/// gas covers the sum of its children's totals.
pub open spec fn no_clamp(a: Seq<FrameModel>, idx: int) -> bool
    decreases a.len() - idx, a[idx].calls.len() + 1,
        when wf_arena(a) && 0 <= idx < a.len()
{
    child_total_sum(a, idx, 0) <= frame_total(a[idx]) && no_clamp_kids(a, idx, 0)
}

/// No clamping occurs in the subtrees of the children of `idx` from child
/// position `k` on.
pub open spec fn no_clamp_kids(a: Seq<FrameModel>, idx: int, k: int) -> bool
    decreases a.len() - idx, a[idx].calls.len() - k,
        when wf_arena(a) && 0 <= idx < a.len() && 0 <= k
{
    if k >= a[idx].calls.len() {
        true
    } else {
        no_clamp(a, a[idx].calls[k]) && no_clamp_kids(a, idx, k + 1)
    }
}

/// Law: a frame's self gas is never negative — the difference between a
/// frame's total gas and its children's totals is clamped at zero.
pub proof fn lemma_self_gas_nonneg(a: Seq<FrameModel>, idx: int)
    ensures
        self_gas(a, idx) >= 0,
{
}

/// Law: flattening yields exactly one line per frame of the subtree.
pub proof fn lemma_flatten_count(a: Seq<FrameModel>, idx: int, prepend: Option<Seq<char>>)
    requires
        wf_arena(a),
        0 <= idx < a.len(),
    ensures
        flatten_node(a, idx, prepend).len() == count_nodes(a, idx),
    decreases a.len() - idx, a[idx].calls.len() + 1,
{
    lemma_flatten_count_kids(a, idx, 0, stack_path(prepend, a[idx].name));
}

proof fn lemma_flatten_count_kids(a: Seq<FrameModel>, idx: int, k: int, path: Seq<char>)
    requires
        wf_arena(a),
        0 <= idx < a.len(),
        0 <= k,
    ensures
        flatten_kids(a, idx, k, path).len() == count_kids(a, idx, k),
    decreases a.len() - idx, a[idx].calls.len() - k,
{
    if k < a[idx].calls.len() {
        lemma_flatten_count(a, a[idx].calls[k], Some(path));
        lemma_flatten_count_kids(a, idx, k + 1, path);
    }
}

/// Law: flattening conserves gas. When no clamping occurs in a subtree, the
/// self gas of its frames sums to exactly the total gas of the subtree's
/// root frame.
pub proof fn lemma_flatten_gas_conservation(a: Seq<FrameModel>, idx: int)
    requires
        wf_arena(a),
        0 <= idx < a.len(),
        no_clamp(a, idx),
    ensures
        sum_self_gas(a, idx) == frame_total(a[idx]),
    decreases a.len() - idx, a[idx].calls.len() + 1,
{
    lemma_gas_conservation_kids(a, idx, 0);
}

proof fn lemma_gas_conservation_kids(a: Seq<FrameModel>, idx: int, k: int)
    requires
        wf_arena(a),
        0 <= idx < a.len(),
        0 <= k,
        no_clamp_kids(a, idx, k),
    ensures
        sum_self_kids(a, idx, k) == child_total_sum(a, idx, k),
    decreases a.len() - idx, a[idx].calls.len() - k,
{
    if k < a[idx].calls.len() {
        lemma_flatten_gas_conservation(a, a[idx].calls[k]);
        lemma_gas_conservation_kids(a, idx, k + 1);
    }
}

/// The path prefix handed to a traversal, as a character sequence.
pub open spec fn prepend_view(p: Option<&String>) -> Option<Seq<char>> {
    match p {
        Some(s) => Some(s@),
        None => None,
    }
}

/// Rendering options honoured by the flame-graph assembler.
#[derive(Clone, Copy, PartialEq, Eq, Structural, Debug)]
pub struct FlamegraphOptions {
    /// Render as a flame chart (call order kept) rather than a flame graph.
    pub flame_chart: bool,
}

impl Default for FlamegraphOptions {
    fn default() -> (r: Self)
        ensures
            r.flame_chart == false,
    {
        FlamegraphOptions { flame_chart: false }
    }
}

/// The folded-stack lines of one call tree, with the rendering options to
/// hand to the flame-graph assembler.
pub struct Flamegraph {
    pub folded_stack_lines: Vec<String>,
    pub options: FlamegraphOptions,
}

/// Flattens the subtree at `idx`: one folded-stack line per frame, pre-order,
/// each carrying that frame's self gas. Returns the lines together with the
/// frame's own total gas, which the parent's traversal accumulates.
fn handle_call(arena: &Vec<FunctionCall>, idx: usize, prepend: Option<&String>) -> (r: (
    Vec<String>,
    u64,
))
    requires
        wf_arena(arena_view(arena@)),
        idx < arena@.len(),
    ensures
        lines_view(r.0@) == flatten_node(arena_view(arena@), idx as int, prepend_view(prepend)),
        r.1 == frame_total(arena_view(arena@)[idx as int]),
    decreases arena@.len() - idx,
{
    let ghost a = arena_view(arena@);
    let path: String = match prepend {
        Some(p) => {
            let mut q = (*p).clone();
            q.append(";");
            q.append(arena[idx].name.as_str());
            q
        },
        None => arena[idx].name.clone(),
    };
    proof {
        reveal_strlit(";");
        assert(path@ =~= stack_path(prepend_view(prepend), a[idx as int].name));
    }
    let total: u64 = match arena[idx].gas_end {
        Some(e) => if e >= arena[idx].gas_start {
            e - arena[idx].gas_start
        } else {
            0
        },
        None => 0,
    };
    proof {
        assert(total as nat == frame_total(a[idx as int]));
    }
    let num_kids = arena[idx].calls.len();
    let mut kid_lines: Vec<String> = Vec::new();
    let mut child_gas: u128 = 0;
    let mut k: usize = 0;
    while k < num_kids
        invariant
            k <= num_kids,
            num_kids == a[idx as int].calls.len(),
            wf_arena(a),
            a == arena_view(arena@),
            idx < arena@.len(),
            path@ == stack_path(prepend_view(prepend), a[idx as int].name),
            child_gas + child_total_sum(a, idx as int, k as int) == child_total_sum(
                a,
                idx as int,
                0,
            ),
            child_gas <= k * 0xFFFF_FFFF_FFFF_FFFFu128,
            lines_view(kid_lines@) + flatten_kids(a, idx as int, k as int, path@) == flatten_kids(
                a,
                idx as int,
                0,
                path@,
            ),
        decreases num_kids - k,
    {
        let child = arena[idx].calls[k];
        proof {
            assert(a[idx as int].calls[k as int] == child as int);
            assert(idx < child < a.len());
        }
        let (mut cl, cg) = handle_call(arena, child, Some(&path));
        let ghost prev_lines = lines_view(kid_lines@);
        child_gas = child_gas + (cg as u128);
        kid_lines.append(&mut cl);
        proof {
            assert(lines_view(kid_lines@) =~= prev_lines + flatten_node(
                a,
                child as int,
                Some(path@),
            ));
            assert(lines_view(kid_lines@) + flatten_kids(a, idx as int, k + 1, path@) =~= prev_lines
                + flatten_kids(a, idx as int, k as int, path@));
        }
        k += 1;
    }
    let self_gas_v: u64 = if (total as u128) >= child_gas {
        proof {
            assert(child_gas <= total as u128);
        }
        total - (child_gas as u64)
    } else {
        0
    };
    proof {
        assert(child_total_sum(a, idx as int, num_kids as int) == 0);
        assert(self_gas_v as nat == self_gas(a, idx as int));
    }
    let mut line = path;
    line.append(" ");
    let digits = u128_to_string(self_gas_v as u128);
    line.append(digits.as_str());
    proof {
        reveal_strlit(" ");
        assert(line@ =~= folded_line(
            stack_path(prepend_view(prepend), a[idx as int].name),
            self_gas(a, idx as int),
        ));
    }
    let mut out_lines: Vec<String> = Vec::new();
    out_lines.push(line);
    out_lines.append(&mut kid_lines);
    proof {
        assert(lines_view(out_lines@) =~= flatten_node(a, idx as int, prepend_view(prepend)));
    }
    (out_lines, total)
}

/// Reverses the order of the lines.
fn reverse_lines(v: Vec<String>) -> (r: Vec<String>)
    ensures
        r@ == v@.reverse(),
{
    let n = v.len();
    let mut r: Vec<String> = Vec::new();
    let mut k = n;
    while k > 0
        invariant
            k <= n,
            n == v@.len(),
            r@.len() == n - k,
            forall|j: int| 0 <= j < r@.len() ==> #[trigger] r@[j] == v@[n - 1 - j],
        decreases k,
    {
        k -= 1;
        r.push(v[k].clone());
    }
    proof {
        assert(r@ =~= v@.reverse());
    }
    r
}

impl Flamegraph {
    /// Builds the flame graph of a step trace: reconstructs the call tree
    /// with [`RcRefCellFunctionCall::parse_steps`] and flattens it, with the
    /// deepest-recorded lines first and the chart rendering mode selected.
    /// The trace is rejected exactly when the builder rejects it.
    pub fn from_debug_trace(steps: &VecStep) -> (r: Result<Flamegraph, ParseError>)
        ensures
            match r {
                Ok(fg) => {
                    &&& parse_error_of(steps.0@) is None
                    &&& lines_view(fg.folded_stack_lines@) == flatten_node(
                        run(steps.0@, steps.0@.len() as int).arena,
                        0,
                        None,
                    ).reverse()
                    &&& fg.folded_stack_lines@.len() == count_nodes(
                        run(steps.0@, steps.0@.len() as int).arena,
                        0,
                    )
                    &&& fg.folded_stack_lines@.len() == run(
                        steps.0@,
                        steps.0@.len() as int,
                    ).arena.len()
                    &&& fg.options.flame_chart == true
                },
                Err(e) => parse_error_of(steps.0@) == Some(e),
            },
    {
        let tree = match RcRefCellFunctionCall::parse_steps(steps) {
            Ok(t) => t,
            Err(e) => {
                return Err(e);
            },
        };
        let ghost a = arena_view(tree.arena@);
        proof {
            assert(state_inv(run(steps.0@, steps.0@.len() as int)));
            assert(wf_arena(a));
            assert(a.len() >= 1);
            lemma_flatten_count(a, 0, None);
            lemma_run_count(steps.0@, steps.0@.len() as int);
        }
        let (lines, _total) = handle_call(&tree.arena, 0, None);
        let rev = reverse_lines(lines);
        proof {
            assert(lines_view(rev@) =~= lines_view(rev@));
        }
        let fg = Flamegraph {
            folded_stack_lines: rev,
            options: FlamegraphOptions { flame_chart: true },
        };
        proof {
            assert(lines_view(fg.folded_stack_lines@) =~= flatten_node(a, 0, None).reverse());
        }
        Ok(fg)
    }
}

/// One node of an already-decoded call-trace arena: its parent and child
/// indices, the total gas its call used, and its decoded contract name and
/// function signature (either may be missing).
pub struct DecodedNode {
    pub parent: Option<usize>,
    pub children: Vec<usize>,
    pub gas_used: u64,
    pub contract: Option<String>,
    pub func: Option<String>,
}

/// The display label of one decoded node: `contract.function`, with
/// placeholders for the parts that did not decode.
pub open spec fn display_spec(n: DecodedNode) -> Seq<char> {
    (match n.contract {
        Some(c) => c@,
        None => "<unknown-contract>"@,
    }) + "."@ + (match n.func {
        Some(f) => f@,
        None => "<unknown-function>"@,
    })
}

/// Renders one decoded node's label.
pub fn get_display(el: &DecodedNode) -> (r: String)
    ensures
        r@ == display_spec(*el),
{
    let c = match &el.contract {
        Some(c) => c.clone(),
        None => String::from_str("<unknown-contract>"),
    };
    let f = match &el.func {
        Some(f) => f.as_str(),
        None => "<unknown-function>",
    };
    let r = c.concat(".").concat(f);
    proof {
        reveal_strlit(".");
        assert(r@ =~= display_spec(*el));
    }
    r
}

/// Well-formedness of a decoded call-trace arena: every parent index
/// precedes its node (so the arena is in creation order and acyclic), and
/// every child index lies in range.
pub open spec fn wf_nodes(ns: Seq<DecodedNode>) -> bool {
    &&& forall|i: int| 0 <= i < ns.len() ==> ((#[trigger] ns[i].parent) matches Some(p) ==> p < i)
    &&& forall|i: int, k: int|
        0 <= i < ns.len() && 0 <= k < ns[i].children@.len() ==> (#[trigger] ns[i].children@[k])
            < ns.len()
}

/// The full stack path of node `i`: the labels from the root down to `i`,
/// joined with semicolons.
pub open spec fn ancestor_path(ns: Seq<DecodedNode>, i: int) -> Seq<char>
    decreases i,
        when wf_nodes(ns) && 0 <= i < ns.len()
{
    match ns[i].parent {
        None => display_spec(ns[i]),
        Some(p) => ancestor_path(ns, p as int) + ";"@ + display_spec(ns[i]),
    }
}

/// The sum of the gas of the children of node `i`, from child position `k`
/// on.
pub open spec fn node_child_gas(ns: Seq<DecodedNode>, i: int, k: int) -> nat
    decreases ns[i].children@.len() - k,
{
    if k < 0 || k >= ns[i].children@.len() {
        0
    } else {
        ns[ns[i].children@[k] as int].gas_used as nat + node_child_gas(ns, i, k + 1)
    }
}

/// The folded-stack line of node `i`: its full path, a space, and its own
/// gas — its total minus its children's totals, which may be negative.
pub open spec fn call_trace_line(ns: Seq<DecodedNode>, i: int) -> Seq<char> {
    ancestor_path(ns, i) + " "@ + dec_int(ns[i].gas_used - node_child_gas(ns, i, 0))
}

/// The full stack path of node `i`, per [`ancestor_path`].
fn node_path(nodes: &Vec<DecodedNode>, i: usize) -> (r: String)
    requires
        wf_nodes(nodes@),
        i < nodes@.len(),
    ensures
        r@ == ancestor_path(nodes@, i as int),
    decreases i,
{
    match nodes[i].parent {
        None => get_display(&nodes[i]),
        Some(p) => {
            proof {
                assert((nodes@[i as int].parent matches Some(q) ==> q < i as int));
            }
            let pre = node_path(nodes, p);
            let d = get_display(&nodes[i]);
            let r = pre.concat(";").concat(d.as_str());
            proof {
                reveal_strlit(";");
                assert(r@ =~= ancestor_path(nodes@, i as int));
            }
            r
        },
    }
}

/// Whether a decoded call-trace arena is well formed, per [`wf_nodes`].
pub fn check_nodes(nodes: &Vec<DecodedNode>) -> (r: bool)
    ensures
        r == wf_nodes(nodes@),
{
    let n = nodes.len();
    let mut i: usize = 0;
    while i < n
        invariant
            i <= n,
            n == nodes@.len(),
            forall|x: int|
                0 <= x < i ==> ((#[trigger] nodes@[x].parent) matches Some(p) ==> p < x),
            forall|x: int, k: int|
                0 <= x < i && 0 <= k < nodes@[x].children@.len() ==> (
                #[trigger] nodes@[x].children@[k]) < nodes@.len(),
        decreases n - i,
    {
        match nodes[i].parent {
            Some(p) => if p >= i {
                proof {
                    assert(!wf_nodes(nodes@)) by {
                        if wf_nodes(nodes@) {
                            assert((nodes@[i as int].parent matches Some(q) ==> q < i as int));
                        }
                    }
                }
                return false;
            },
            None => {},
        }
        let nk = nodes[i].children.len();
        let mut k: usize = 0;
        while k < nk
            invariant
                k <= nk,
                i < n,
                n == nodes@.len(),
                nk == nodes@[i as int].children@.len(),
                forall|y: int|
                    0 <= y < k ==> (#[trigger] nodes@[i as int].children@[y]) < nodes@.len(),
            decreases nk - k,
        {
            if nodes[i].children[k] >= n {
                proof {
                    assert(!wf_nodes(nodes@)) by {
                        if wf_nodes(nodes@) {
                            assert((nodes@[i as int].children@[k as int]) < nodes@.len());
                        }
                    }
                }
                return false;
            }
            k += 1;
        }
        i += 1;
    }
    true
}

impl Flamegraph {
    /// Folds an already-decoded call-trace arena directly: one line per
    /// node, in arena order, holding the node's full stack path and its own
    /// gas (its total minus its children's totals, which may be negative).
    /// Returns `None` exactly when the arena is malformed: a parent index
    /// not preceding its node, or a child index out of range.
    pub fn from_call_trace(nodes: &Vec<DecodedNode>) -> (r: Option<Flamegraph>)
        ensures
            match r {
                Some(fg) => {
                    &&& wf_nodes(nodes@)
                    &&& fg.folded_stack_lines@.len() == nodes@.len()
                    &&& lines_view(fg.folded_stack_lines@) == Seq::new(
                        nodes@.len(),
                        |i: int| call_trace_line(nodes@, i),
                    )
                    &&& fg.options.flame_chart == false
                },
                None => !wf_nodes(nodes@),
            },
    {
        if !check_nodes(nodes) {
            return None;
        }
        let n = nodes.len();
        let mut lines: Vec<String> = Vec::new();
        let mut i: usize = 0;
        while i < n
            invariant
                i <= n,
                n == nodes@.len(),
                wf_nodes(nodes@),
                lines@.len() == i,
                forall|j: int| 0 <= j < i ==> (#[trigger] lines@[j])@ == call_trace_line(nodes@, j),
            decreases n - i,
        {
            let path = node_path(nodes, i);
            let nk = nodes[i].children.len();
            let mut cg: u128 = 0;
            let mut k: usize = 0;
            while k < nk
                invariant
                    k <= nk,
                    i < n,
                    n == nodes@.len(),
                    wf_nodes(nodes@),
                    nk == nodes@[i as int].children@.len(),
                    cg + node_child_gas(nodes@, i as int, k as int) == node_child_gas(
                        nodes@,
                        i as int,
                        0,
                    ),
                    cg <= k * 0xFFFF_FFFF_FFFF_FFFFu128,
                decreases nk - k,
            {
                let c = nodes[i].children[k];
                proof {
                    assert(nodes@[i as int].children@[k as int] == c);
                    assert(c < nodes@.len());
                }
                cg = cg + (nodes[c].gas_used as u128);
                k += 1;
            }
            proof {
                assert(node_child_gas(nodes@, i as int, nk as int) == 0);
            }
            let mut line = path;
            line.append(" ");
            let d = diff_to_string(nodes[i].gas_used as u128, cg);
            line.append(d.as_str());
            proof {
                reveal_strlit(" ");
                assert(line@ =~= call_trace_line(nodes@, i as int));
            }
            lines.push(line);
            i += 1;
        }
        let fg = Flamegraph {
            folded_stack_lines: lines,
            options: FlamegraphOptions { flame_chart: false },
        };
        proof {
            assert(lines_view(fg.folded_stack_lines@) =~= Seq::new(
                nodes@.len(),
                |i: int| call_trace_line(nodes@, i),
            ));
        }
        Some(fg)
    }
}

} // verus!

verus! {

/// Whether `j` is `cur` itself or one of its ancestors, following parent
/// links (which strictly descend).
pub open spec fn on_chain(a: Seq<FrameModel>, j: int, cur: int) -> bool
    decreases cur,
        when parents_descend(a) && 0 <= cur < a.len()
{
    if j == cur {
        true
    } else {
        match a[cur].parent {
            None => false,
            Some(p) => on_chain(a, j, p),
        }
    }
}

/// The child of `j` through which the chain from `cur` passes, when `j` is a
/// proper ancestor of `cur`.
pub open spec fn chain_child(a: Seq<FrameModel>, j: int, cur: int) -> int
    decreases cur,
        when parents_descend(a) && 0 <= cur < a.len()
{
    if j == cur {
        -1
    } else {
        match a[cur].parent {
            None => -1,
            Some(p) => if p == j {
                cur
            } else {
                chain_child(a, j, p)
            },
        }
    }
}

proof fn lemma_on_chain_le(a: Seq<FrameModel>, j: int, cur: int)
    requires
        parents_descend(a),
        0 <= cur < a.len(),
        on_chain(a, j, cur),
    ensures
        0 <= j <= cur,
    decreases cur,
{
    if j != cur {
        let p = a[cur].parent->Some_0;
        lemma_on_chain_le(a, j, p);
    }
}

proof fn lemma_on_chain_root(a: Seq<FrameModel>, cur: int)
    requires
        parents_descend(a),
        forall|j: int| 1 <= j < a.len() ==> (#[trigger] a[j].parent) is Some,
        0 <= cur < a.len(),
    ensures
        on_chain(a, 0, cur),
    decreases cur,
{
    if cur != 0 {
        let p = a[cur].parent->Some_0;
        lemma_on_chain_root(a, p);
    }
}

proof fn lemma_on_chain_parent(a: Seq<FrameModel>, c: int, cur: int)
    requires
        parents_descend(a),
        0 <= cur < a.len(),
        0 <= c,
        on_chain(a, c, cur),
        a[c].parent is Some,
    ensures
        on_chain(a, a[c].parent->Some_0, cur),
    decreases cur,
{
    let j = a[c].parent->Some_0;
    if c == cur {
        assert(on_chain(a, j, j));
    } else {
        let p = a[cur].parent->Some_0;
        lemma_on_chain_parent(a, c, p);
    }
}

proof fn lemma_chain_child_props(a: Seq<FrameModel>, j: int, cur: int)
    requires
        parents_descend(a),
        0 <= cur < a.len(),
        on_chain(a, j, cur),
        j != cur,
    ensures
        ({
            let c = chain_child(a, j, cur);
            &&& 0 <= c <= cur
            &&& a[c].parent == Some(j)
            &&& on_chain(a, c, cur)
        }),
    decreases cur,
{
    let p = a[cur].parent->Some_0;
    if p == j {
        assert(on_chain(a, cur, cur));
    } else {
        lemma_chain_child_props(a, j, p);
        let c = chain_child(a, j, p);
        assert(on_chain(a, c, cur));
    }
}

proof fn lemma_chain_child_unique(a: Seq<FrameModel>, cur: int, c1: int, c2: int)
    requires
        parents_descend(a),
        0 <= cur < a.len(),
        0 <= c1,
        0 <= c2,
        on_chain(a, c1, cur),
        on_chain(a, c2, cur),
        a[c1].parent is Some,
        a[c1].parent == a[c2].parent,
    ensures
        c1 == c2,
    decreases cur,
{
    let j = a[c1].parent->Some_0;
    if c1 == cur && c2 == cur {
    } else if c1 == cur {
        assert(a[cur].parent == Some(j));
        assert(on_chain(a, c2, j));
        lemma_on_chain_le(a, c2, j);
        assert(false);
    } else if c2 == cur {
        assert(a[cur].parent == Some(j));
        assert(on_chain(a, c1, j));
        lemma_on_chain_le(a, c1, j);
        assert(false);
    } else {
        let p = a[cur].parent->Some_0;
        lemma_chain_child_unique(a, p, c1, c2);
    }
}

proof fn lemma_count_same_calls(a1: Seq<FrameModel>, a2: Seq<FrameModel>, idx: int)
    requires
        wf_arena(a1),
        wf_arena(a2),
        a1.len() == a2.len(),
        forall|j: int| 0 <= j < a1.len() ==> #[trigger] a2[j].calls == a1[j].calls,
        0 <= idx < a1.len(),
    ensures
        count_nodes(a2, idx) == count_nodes(a1, idx),
    decreases a1.len() - idx, a1[idx].calls.len() + 2,
{
    lemma_count_same_calls_kids(a1, a2, idx, 0);
}

proof fn lemma_count_same_calls_kids(a1: Seq<FrameModel>, a2: Seq<FrameModel>, idx: int, k: int)
    requires
        wf_arena(a1),
        wf_arena(a2),
        a1.len() == a2.len(),
        forall|j: int| 0 <= j < a1.len() ==> #[trigger] a2[j].calls == a1[j].calls,
        0 <= idx < a1.len(),
        0 <= k,
    ensures
        count_kids(a2, idx, k) == count_kids(a1, idx, k),
    decreases a1.len() - idx, a1[idx].calls.len() - k + 1,
{
    if k < a1[idx].calls.len() {
        lemma_count_same_calls(a1, a2, a1[idx].calls[k]);
        lemma_count_same_calls_kids(a1, a2, idx, k + 1);
    }
}

/// `a2` extends `a` by one leaf whose parent is `cur`, recorded at the end
/// of `cur`'s child list; all other frames keep their children and parents.
pub open spec fn pushed_leaf(a: Seq<FrameModel>, a2: Seq<FrameModel>, cur: int) -> bool {
    &&& 0 <= cur < a.len()
    &&& a2.len() == a.len() + 1
    &&& a2[a.len() as int].calls == Seq::<int>::empty()
    &&& a2[a.len() as int].parent == Some(cur)
    &&& a2[cur].calls == a[cur].calls.push(a.len() as int)
    &&& forall|j: int| 0 <= j < a.len() && j != cur ==> #[trigger] a2[j].calls == a[j].calls
    &&& forall|j: int| 0 <= j < a.len() ==> #[trigger] a2[j].parent == a[j].parent
}

proof fn lemma_push_count_node(a: Seq<FrameModel>, a2: Seq<FrameModel>, cur: int, j: int)
    requires
        arena_inv(a),
        wf_arena(a2),
        pushed_leaf(a, a2, cur),
        0 <= j < a.len(),
    ensures
        count_nodes(a2, j) == count_nodes(a, j) + (if on_chain(a, j, cur) {
            1int
        } else {
            0int
        }),
    decreases a.len() - j, a[j].calls.len() + 2,
{
    lemma_push_count_kids(a, a2, cur, j, 0);
    if on_chain(a, j, cur) && j != cur {
        lemma_chain_child_props(a, j, cur);
        let cc = chain_child(a, j, cur);
        assert(a[j].calls.contains(cc)) by {
            reveal(complete_arena);
        }
        let m = choose|m: int| 0 <= m < a[j].calls.len() && a[j].calls[m] == cc;
        assert(0 <= m < a[j].calls.len() && (#[trigger] a[j].calls[m]) == cc);
    }
}

proof fn lemma_push_count_kids(a: Seq<FrameModel>, a2: Seq<FrameModel>, cur: int, j: int, k: int)
    requires
        arena_inv(a),
        wf_arena(a2),
        pushed_leaf(a, a2, cur),
        0 <= j < a.len(),
        0 <= k <= a[j].calls.len(),
    ensures
        count_kids(a2, j, k) == count_kids(a, j, k) + (if j == cur {
            1int
        } else {
            0int
        }) + (if j != cur && on_chain(a, j, cur) && (exists|m: int|
            k <= m < a[j].calls.len() && (#[trigger] a[j].calls[m]) == chain_child(a, j, cur)) {
            1int
        } else {
            0int
        }),
    decreases a.len() - j, a[j].calls.len() - k + 1,
{
    if k == a[j].calls.len() {
        assert(count_kids(a, j, k) == 0);
        if j == cur {
            let newidx = a.len() as int;
            assert(a2[cur].calls[k as int] == newidx);
            assert(count_kids(a2, cur, k) == count_nodes(a2, newidx) + count_kids(a2, cur, k + 1));
            assert(count_kids(a2, cur, k + 1) == 0);
            assert(a2[newidx].calls.len() == 0);
            assert(count_kids(a2, newidx, 0) == 0);
            assert(count_nodes(a2, newidx) == 1);
        } else {
            assert(a2[j].calls == a[j].calls);
            assert(count_kids(a2, j, k) == 0);
        }
    } else {
        let c = a[j].calls[k];
        assert(j < c < a.len());
        assert(a2[j].calls[k] == c);
        lemma_push_count_node(a, a2, cur, c);
        lemma_push_count_kids(a, a2, cur, j, k + 1);
        assert(count_kids(a2, j, k) == count_nodes(a2, c) + count_kids(a2, j, k + 1));
        assert(count_kids(a, j, k) == count_nodes(a, c) + count_kids(a, j, k + 1));
        if j == cur {
            if on_chain(a, c, cur) {
                lemma_on_chain_le(a, c, cur);
                assert(false);
            }
        } else if on_chain(a, j, cur) {
            lemma_chain_child_props(a, j, cur);
            let cc = chain_child(a, j, cur);
            if c == cc {
                assert(on_chain(a, c, cur));
                assert forall|m: int| k < m < a[j].calls.len() implies (#[trigger] a[j].calls[m])
                    != cc by {
                    reveal(sorted_calls);
                    assert(a[j].calls[k] < a[j].calls[m]);
                };
                assert(!(exists|m: int|
                    k + 1 <= m < a[j].calls.len() && (#[trigger] a[j].calls[m]) == chain_child(
                        a,
                        j,
                        cur,
                    )));
                assert(exists|m: int|
                    k <= m < a[j].calls.len() && (#[trigger] a[j].calls[m]) == chain_child(
                        a,
                        j,
                        cur,
                    )) by {
                    assert(k <= k < a[j].calls.len() && a[j].calls[k as int] == cc);
                }
            } else {
                if on_chain(a, c, cur) {
                    lemma_chain_child_unique(a, cur, c, cc);
                    assert(false);
                }
                assert((exists|m: int|
                    k <= m < a[j].calls.len() && (#[trigger] a[j].calls[m]) == chain_child(
                        a,
                        j,
                        cur,
                    )) == (exists|m: int|
                    k + 1 <= m < a[j].calls.len() && (#[trigger] a[j].calls[m]) == chain_child(
                        a,
                        j,
                        cur,
                    ))) by {
                    if exists|m: int|
                        k <= m < a[j].calls.len() && (#[trigger] a[j].calls[m]) == chain_child(
                            a,
                            j,
                            cur,
                        ) {
                        let m = choose|m: int|
                            k <= m < a[j].calls.len() && (#[trigger] a[j].calls[m]) == chain_child(
                                a,
                                j,
                                cur,
                            );
                        assert(m != k);
                        assert(k + 1 <= m < a[j].calls.len() && a[j].calls[m] == chain_child(
                            a,
                            j,
                            cur,
                        ));
                    }
                }
            }
        } else {
            if on_chain(a, c, cur) {
                lemma_on_chain_parent(a, c, cur);
                assert(false);
            }
        }
    }
}

proof fn lemma_pushed_count(a: Seq<FrameModel>, a2: Seq<FrameModel>, cur: int)
    requires
        arena_inv(a),
        wf_arena(a2),
        pushed_leaf(a, a2, cur),
        count_nodes(a, 0) == a.len(),
    ensures
        count_nodes(a2, 0) == a2.len(),
{
    lemma_on_chain_root(a, cur);
    lemma_push_count_node(a, a2, cur, 0);
}

proof fn lemma_closed_count(a: Seq<FrameModel>, a2: Seq<FrameModel>)
    requires
        wf_arena(a),
        wf_arena(a2),
        a.len() >= 1,
        a2.len() == a.len(),
        forall|j: int| 0 <= j < a.len() ==> #[trigger] a2[j].calls == a[j].calls,
        count_nodes(a, 0) == a.len(),
    ensures
        count_nodes(a2, 0) == a2.len(),
{
    lemma_count_same_calls(a, a2, 0);
}

proof fn lemma_transition_count(st: BuildState, steps: Seq<crate::step::Step>, i: int)
    requires
        state_inv(st),
        count_nodes(st.arena, 0) == st.arena.len(),
    ensures
        count_nodes(transition(st, steps, i).arena, 0) == transition(st, steps, i).arena.len(),
{
    lemma_transition_inv(st, steps, i);
    let st1 = t_jump_in(st, steps, i);
    if st1.arena == st.arena {
        assert(count_nodes(st1.arena, 0) == st1.arena.len());
    } else {
        assert(pushed_leaf(st.arena, st1.arena, st.cur));
        lemma_pushed_count(st.arena, st1.arena, st.cur);
    }
    let st2 = t_call(st1, steps, i);
    if st2.arena == st1.arena {
        assert(count_nodes(st2.arena, 0) == st2.arena.len());
    } else {
        assert(pushed_leaf(st1.arena, st2.arena, st1.cur));
        lemma_pushed_count(st1.arena, st2.arena, st1.cur);
    }
    let st3 = t_jump_out(st2, steps, i);
    if st3.arena == st2.arena {
        assert(count_nodes(st3.arena, 0) == st3.arena.len());
    } else {
        assert(forall|j: int|
            0 <= j < st2.arena.len() ==> #[trigger] st3.arena[j].calls == st2.arena[j].calls);
        lemma_closed_count(st2.arena, st3.arena);
    }
    let st4 = transition(st, steps, i);
    if st4.arena == st3.arena {
        assert(count_nodes(st4.arena, 0) == st4.arena.len());
    } else {
        assert(forall|j: int|
            0 <= j < st3.arena.len() ==> #[trigger] st4.arena[j].calls == st3.arena[j].calls);
        lemma_closed_count(st3.arena, st4.arena);
    }
}

/// Law: the tree the builder reaches after any number of steps contains
/// every frame it allocated exactly once — so flattening it yields exactly
/// one line per allocated frame.
pub proof fn lemma_run_count(steps: Seq<crate::step::Step>, i: int)
    requires
        steps.len() >= 1,
        1 <= i,
    ensures
        count_nodes(run(steps, i).arena, 0) == run(steps, i).arena.len(),
    decreases i,
{
    lemma_run_inv(steps, i);
    if i <= 1 {
        let a = run(steps, i).arena;
        assert(a[0].calls.len() == 0);
        assert(count_kids(a, 0, 0) == 0);
    } else {
        lemma_run_count(steps, i - 1);
        lemma_run_inv(steps, i - 1);
        lemma_transition_count(run(steps, i - 1), steps, i - 1);
    }
}

} // verus!
