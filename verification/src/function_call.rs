//! The reconstructed call tree and the state machine that builds it from an
//! ordered step trace.
//!
//! The tree is held as an arena: a vector of frames in creation order, frame
//! 0 being the root, each frame holding the indices of its children and of
//! its parent. The builder replays the trace with a single cursor into the
//! arena, opening frames on internal-jump and call events and closing them on
//! jump-out and halting opcodes.

use vstd::prelude::*;
use vstd::string::*;

use crate::step::{
    any_name_spec, bare_name_spec, contract_name_spec, function_name_spec, one_breaker,
    opt_seq_or, Jump, Step, VecStep,
};
use crate::utils::{dec_int, get_next, opt_string_matches};

verus! {

/// How a frame was opened: by a call opcode into a contract with available
/// source, by an in-contract lexical jump, or by a call into code with no
/// source mapping (a precompiled or native routine, recorded as an atomic,
/// childless frame).
#[derive(Clone, Copy, PartialEq, Eq, Structural, Debug)]
pub enum CallKind {
    ExternalCall,
    InternalJump,
    NativeCall,
}

/// One node of the call tree: a call or jump scope with a gas lifetime.
/// `calls` holds the indices of the children, in call order; `parent` the
/// index of the owning frame (`None` only for the root). A frame whose
/// `gas_end` is still `None` was never closed by the trace; this is
/// tolerated, and such a frame counts as consuming no gas.
#[derive(Clone, Debug)]
pub struct FunctionCall {
    pub title: String,
    pub name: String,
    pub gas_start: u64,
    pub gas_end: Option<u64>,
    pub color: String,
    pub kind: CallKind,
    pub calls: Vec<usize>,
    pub parent: Option<usize>,
}

/// The mathematical model of one frame.
#[verifier::ext_equal]
pub ghost struct FrameModel {
    pub title: Seq<char>,
    pub name: Seq<char>,
    pub gas_start: u64,
    pub gas_end: Option<u64>,
    pub color: Seq<char>,
    pub kind: CallKind,
    pub calls: Seq<int>,
    pub parent: Option<int>,
}

impl View for FunctionCall {
    type V = FrameModel;

    open spec fn view(&self) -> FrameModel {
        FrameModel {
            title: self.title@,
            name: self.name@,
            gas_start: self.gas_start,
            gas_end: self.gas_end,
            color: self.color@,
            kind: self.kind,
            calls: self.calls@.map_values(|c: usize| c as int),
            parent: match self.parent {
                Some(p) => Some(p as int),
                None => None,
            },
        }
    }
}

/// The model of a whole arena.
pub open spec fn arena_view(a: Seq<FunctionCall>) -> Seq<FrameModel> {
    a.map_values(|f: FunctionCall| f@)
}

/// Why construction stopped before the last step, leaving the tree covering
/// only a prefix of the trace.
#[derive(Clone, Copy, PartialEq, Eq, Structural, Debug)]
pub enum EarlyStop {
    /// A call-closing event fired while the root frame was current. This is
    /// how most complete traces end: the outermost return has no frame left
    /// to close.
    NoParentOnClose,
    /// A call into native code whose name could not be derived from this or
    /// the next step.
    NoNativeName,
}

/// Why a trace was rejected outright, with no tree built.
#[derive(Clone, Copy, PartialEq, Eq, Structural, Debug)]
pub enum ParseError {
    /// The trace holds no steps.
    EmptyTrace,
    /// The first step's cumulative gas is not zero.
    NonZeroStartGas,
    /// The first step's snippet does not resolve a contract name.
    NoRootContractName,
}

/// The reconstructed call tree, held as an arena of frames; frame 0 is the
/// root.
#[derive(Debug)]
pub struct RcRefCellFunctionCall {
    /// The frames, in creation order.
    pub arena: Vec<FunctionCall>,
    /// Set when construction stopped before the end of the trace; the tree
    /// then covers only the steps up to the stopping one.
    pub stopped: Option<EarlyStop>,
}

/// The builder's state: the frames built so far, the index of the frame
/// currently open, and whether construction has stopped early.
#[verifier::ext_equal]
pub ghost struct BuildState {
    pub arena: Seq<FrameModel>,
    pub cur: int,
    pub stopped: Option<EarlyStop>,
}

/// The CALL and STATICCALL opcodes, which may open an external or native
/// frame.
pub open spec fn is_call_opcode(op: u8) -> bool {
    op == 0xF1 || op == 0xFA
}

/// The RETURN, REVERT and STOP opcodes, the ways a VM frame exits.
pub open spec fn is_halt_opcode(op: u8) -> bool {
    op == 0xF3 || op == 0xFD || op == 0x00
}

/// Appends `f` to the arena as a child of the current frame; when
/// `make_current`, the new frame becomes the one currently open.
pub open spec fn push_frame(st: BuildState, f: FrameModel, make_current: bool) -> BuildState {
    let idx = st.arena.len() as int;
    let parent_frame = st.arena[st.cur];
    BuildState {
        arena: st.arena.update(
            st.cur,
            FrameModel { calls: parent_frame.calls.push(idx), ..parent_frame },
        ).push(f),
        cur: if make_current {
            idx
        } else {
            st.cur
        },
        stopped: st.stopped,
    }
}

/// Closes the currently open frame at cumulative gas `g` and moves the
/// cursor to its parent; when the root is current, construction stops
/// instead, and no gas bound is recorded.
pub open spec fn close_current(st: BuildState, g: u64) -> BuildState {
    match st.arena[st.cur].parent {
        None => BuildState { stopped: Some(EarlyStop::NoParentOnClose), ..st },
        Some(p) => BuildState {
            arena: st.arena.update(
                st.cur,
                FrameModel { gas_end: Some(g), ..st.arena[st.cur] },
            ),
            cur: p,
            stopped: st.stopped,
        },
    }
}

/// The name an internal jump at step `i` opens a frame under: the step's own
/// best-guess name, falling back to the next step's function name; `None`
/// (no frame opened) when neither resolves.
pub open spec fn internal_jump_name(steps: Seq<Step>, i: int) -> Option<Seq<char>> {
    opt_seq_or(
        any_name_spec(steps[i].source_code@),
        if i + 1 < steps.len() {
            function_name_spec(steps[i + 1].source_code@)
        } else {
            None
        },
    )
}

/// The name a native call at step `i` is recorded under: the first token of
/// the step's own snippet, falling back to the next step's best-guess name.
pub open spec fn native_name(steps: Seq<Step>, i: int) -> Option<Seq<char>> {
    opt_seq_or(
        bare_name_spec(steps[i].source_code@),
        if i + 1 < steps.len() {
            any_name_spec(steps[i + 1].source_code@)
        } else {
            None
        },
    )
}

/// Check 1, internal call open: a step whose jump classification is `In`
/// opens an internal-jump frame under the current one, provided a name can
/// be derived; the new frame becomes current.
pub open spec fn t_jump_in(st: BuildState, steps: Seq<Step>, i: int) -> BuildState {
    if st.stopped is Some || steps[i].jump != Jump::In {
        st
    } else {
        match internal_jump_name(steps, i) {
            None => st,
            Some(n) => push_frame(
                st,
                FrameModel {
                    title: n + " internal jump"@,
                    name: n,
                    gas_start: steps[i].total_gas_used,
                    gas_end: None,
                    color: Seq::empty(),
                    kind: CallKind::InternalJump,
                    calls: Seq::empty(),
                    parent: Some(st.cur),
                },
                true,
            ),
        }
    }
}

/// Check 2, call opcode: a CALL or STATICCALL step opens an external frame
/// when the next step's snippet resolves a contract name (the new frame
/// becomes current); otherwise the target is native code, and an atomic
/// native frame is appended without moving the cursor, closed at the next
/// step's gas. When no name at all can be derived for a native call,
/// construction stops. A lookahead past the last step is treated as "no next
/// step".
pub open spec fn t_call(st: BuildState, steps: Seq<Step>, i: int) -> BuildState {
    if st.stopped is Some || !is_call_opcode(steps[i].instruction) {
        st
    } else {
        let next_contract = if i + 1 < steps.len() {
            contract_name_spec(steps[i + 1].source_code@)
        } else {
            None
        };
        match next_contract {
            Some(c) => push_frame(
                st,
                FrameModel {
                    title: c + ".fallback"@,
                    name: c,
                    gas_start: steps[i].total_gas_used,
                    gas_end: None,
                    color: Seq::empty(),
                    kind: CallKind::ExternalCall,
                    calls: Seq::empty(),
                    parent: Some(st.cur),
                },
                true,
            ),
            None => match native_name(steps, i) {
                None => BuildState { stopped: Some(EarlyStop::NoNativeName), ..st },
                Some(n) => push_frame(
                    st,
                    FrameModel {
                        title: n + " nativecode"@,
                        name: n,
                        gas_start: steps[i].total_gas_used,
                        gas_end: if i + 1 < steps.len() {
                            Some(steps[i + 1].total_gas_used)
                        } else {
                            None
                        },
                        color: Seq::empty(),
                        kind: CallKind::NativeCall,
                        calls: Seq::empty(),
                        parent: Some(st.cur),
                    },
                    false,
                ),
            },
        }
    }
}

/// Check 3, internal call close: a step whose jump classification is `Out`
/// closes the current frame at this step's gas.
pub open spec fn t_jump_out(st: BuildState, steps: Seq<Step>, i: int) -> BuildState {
    if st.stopped is Some || steps[i].jump != Jump::Out {
        st
    } else {
        close_current(st, steps[i].total_gas_used)
    }
}

/// Check 4, external call close: a RETURN, REVERT or STOP step closes the
/// current frame at this step's gas, exactly as check 3 does.
pub open spec fn t_halt(st: BuildState, steps: Seq<Step>, i: int) -> BuildState {
    if st.stopped is Some || !is_halt_opcode(steps[i].instruction) {
        st
    } else {
        close_current(st, steps[i].total_gas_used)
    }
}

/// One step of the builder: the four independent checks applied in order
/// (more than one may fire on a single step). Once construction has stopped,
/// the state no longer changes.
pub open spec fn transition(st: BuildState, steps: Seq<Step>, i: int) -> BuildState {
    t_halt(t_jump_out(t_call(t_jump_in(st, steps, i), steps, i), steps, i), steps, i)
}

/// The contract name the first step resolves (the root's identity); the
/// builder rejects traces where none resolves.
pub open spec fn root_name(steps: Seq<Step>) -> Seq<char> {
    match contract_name_spec(steps[0].source_code@) {
        Some(c) => c,
        None => Seq::empty(),
    }
}

/// The root frame: the implicit entry ("fallback") frame of the contract the
/// first step lies in, starting at gas 0.
pub open spec fn root_frame(steps: Seq<Step>) -> FrameModel {
    FrameModel {
        title: root_name(steps) + ".fallback"@,
        name: root_name(steps),
        gas_start: 0,
        gas_end: None,
        color: Seq::empty(),
        kind: CallKind::ExternalCall,
        calls: Seq::empty(),
        parent: None,
    }
}

/// The builder's state after replaying steps 1 up to (excluding) `i`, for a
/// trace accepted by the header checks.
pub open spec fn run(steps: Seq<Step>, i: int) -> BuildState
    decreases i,
{
    if i <= 1 {
        BuildState { arena: seq![root_frame(steps)], cur: 0, stopped: None }
    } else {
        transition(run(steps, i - 1), steps, i - 1)
    }
}

/// The error a trace is rejected with, if any: rejection happens if and only
/// if the trace is empty, its first step's cumulative gas is not zero, or
/// its first step's snippet resolves no contract name.
pub open spec fn parse_error_of(steps: Seq<Step>) -> Option<ParseError> {
    if steps.len() == 0 {
        Some(ParseError::EmptyTrace)
    } else if steps[0].total_gas_used != 0 {
        Some(ParseError::NonZeroStartGas)
    } else if contract_name_spec(steps[0].source_code@) is None {
        Some(ParseError::NoRootContractName)
    } else {
        None
    }
}

/// Arena well-formedness: every recorded child index lies strictly between
/// its parent's index and the arena's length, and the child records that
/// parent.
pub open spec fn wf_arena(a: Seq<FrameModel>) -> bool {
    forall|j: int, k: int|
        0 <= j < a.len() && 0 <= k < a[j].calls.len() ==> j < #[trigger] a[j].calls[k]
            && a[j].calls[k] < a.len() && a[a[j].calls[k]].parent == Some(j)
}

/// Every parent index strictly precedes its child's index.
pub open spec fn parents_descend(a: Seq<FrameModel>) -> bool {
    forall|j: int|
        0 <= j < a.len() ==> (#[trigger] a[j].parent matches Some(p) ==> 0 <= p < j)
}

/// Every frame but the root is recorded in its parent's child list.
#[verifier::opaque]
pub open spec fn complete_arena(a: Seq<FrameModel>) -> bool {
    forall|c: int|
        1 <= c < a.len() ==> ((#[trigger] a[c].parent) matches Some(p) ==> a[p].calls.contains(c))
}

/// Every child list is strictly increasing (children are recorded in
/// creation order, and none twice).
#[verifier::opaque]
pub open spec fn sorted_calls(a: Seq<FrameModel>) -> bool {
    forall|j: int, k1: int, k2: int|
        0 <= j < a.len() && 0 <= k1 < k2 < a[j].calls.len() ==> #[trigger] a[j].calls[k1]
            < #[trigger] a[j].calls[k2]
}

/// Structural soundness of a built arena: it is well formed, holds at least
/// the root, the root alone has no parent, every parent index precedes its
/// child, and every frame is recorded in its parent's strictly increasing
/// child list.
pub open spec fn arena_inv(a: Seq<FrameModel>) -> bool {
    &&& a.len() >= 1
    &&& a[0].parent is None
    &&& forall|j: int| 1 <= j < a.len() ==> (#[trigger] a[j].parent) is Some
    &&& parents_descend(a)
    &&& wf_arena(a)
    &&& complete_arena(a)
    &&& sorted_calls(a)
}

/// Structural soundness of a builder state: the arena is sound and the
/// cursor points into it.
pub open spec fn state_inv(st: BuildState) -> bool {
    &&& arena_inv(st.arena)
    &&& 0 <= st.cur < st.arena.len()
}

/// Whether a frame's recorded gas bounds are consistent.
pub open spec fn closed_ok(f: FrameModel) -> bool {
    f.gas_end matches Some(e) ==> e >= f.gas_start
}

/// Gas soundness of a builder state after step `i - 1`: every frame started
/// no later than the last processed step, and every closed frame closed no
/// earlier than it started. Holds of traces whose cumulative gas is
/// monotone.
pub open spec fn gas_inv(steps: Seq<Step>, i: int, st: BuildState) -> bool {
    forall|j: int|
        0 <= j < st.arena.len() ==> #[trigger] st.arena[j].gas_start
            <= steps[i - 1].total_gas_used && closed_ok(st.arena[j])
}

/// Monotonicity of the trace's cumulative gas counter, which holds of traces
/// by construction.
pub open spec fn gas_monotone(steps: Seq<Step>) -> bool {
    forall|a: int, b: int|
        0 <= a <= b < steps.len() ==> #[trigger] steps[a].total_gas_used
            <= #[trigger] steps[b].total_gas_used
}

/// Existing frames keep their identity across a state change: only a frame's
/// recorded children and closing gas may change, never its name, title,
/// opening gas, kind or parent.
pub open spec fn frames_kept(a1: Seq<FrameModel>, a2: Seq<FrameModel>) -> bool {
    &&& a1.len() <= a2.len()
    &&& forall|j: int|
        0 <= j < a1.len() ==> {
            &&& (#[trigger] a2[j]).name == a1[j].name
            &&& a2[j].title == a1[j].title
            &&& a2[j].gas_start == a1[j].gas_start
            &&& a2[j].kind == a1[j].kind
            &&& a2[j].parent == a1[j].parent
        }
}

/// Gas bounds of every frame at gas level `g`: each frame started at or
/// below `g`, and each closed frame closed no earlier than it started.
pub open spec fn gas_bounded(st: BuildState, g: u64) -> bool {
    forall|j: int|
        0 <= j < st.arena.len() ==> #[trigger] st.arena[j].gas_start <= g && closed_ok(
            st.arena[j],
        )
}

proof fn lemma_push_frame_inv(st: BuildState, f: FrameModel, make_current: bool)
    requires
        state_inv(st),
        f.parent == Some(st.cur),
        f.calls == Seq::<int>::empty(),
    ensures
        state_inv(push_frame(st, f, make_current)),
        frames_kept(st.arena, push_frame(st, f, make_current).arena),
        push_frame(st, f, make_current).arena.len() == st.arena.len() + 1,
        push_frame(st, f, make_current).arena[st.arena.len() as int] == f,
        push_frame(st, f, make_current).stopped == st.stopped,
{
    reveal(complete_arena);
    reveal(sorted_calls);
    let st2 = push_frame(st, f, make_current);
    let idx = st.arena.len() as int;
    assert forall|j: int, k: int|
        0 <= j < st2.arena.len() && 0 <= k < st2.arena[j].calls.len() implies j
        < #[trigger] st2.arena[j].calls[k] && st2.arena[j].calls[k] < st2.arena.len()
        && st2.arena[st2.arena[j].calls[k]].parent == Some(j) by {
        if j == st.cur {
            if k < st.arena[st.cur].calls.len() {
                assert(st2.arena[j].calls[k] == st.arena[j].calls[k]);
                assert(j < st.arena[j].calls[k] < st.arena.len());
            } else {
                assert(st2.arena[j].calls[k] == idx);
            }
        } else if j < idx {
            assert(st2.arena[j].calls[k] == st.arena[j].calls[k]);
            assert(j < st.arena[j].calls[k] < st.arena.len());
        } else {
            assert(st2.arena[j].calls =~= Seq::<int>::empty());
        }
    };
    assert forall|c: int|
        1 <= c < st2.arena.len() implies ((#[trigger] st2.arena[c].parent) matches Some(p)
        ==> st2.arena[p].calls.contains(c)) by {
        if st2.arena[c].parent is Some {
            let p = st2.arena[c].parent->Some_0;
            if c < idx {
                assert(st.arena[c].parent == st2.arena[c].parent);
                assert(st.arena[p].calls.contains(c));
                let m = choose|m: int|
                    0 <= m < st.arena[p].calls.len() && st.arena[p].calls[m] == c;
                assert(st2.arena[p].calls[m] == c);
                assert(st2.arena[p].calls.contains(c));
            } else {
                assert(st2.arena[c].parent == Some(st.cur));
                assert(st2.arena[st.cur].calls[st.arena[st.cur].calls.len() as int] == idx);
                assert(st2.arena[st.cur].calls.contains(idx));
            }
        }
    };
    assert forall|j: int, k1: int, k2: int|
        0 <= j < st2.arena.len() && 0 <= k1 < k2 < st2.arena[j].calls.len()
        implies st2.arena[j].calls[k1] < st2.arena[j].calls[k2] by {
        if j == st.cur {
            if k2 == st.arena[st.cur].calls.len() {
                assert(st2.arena[j].calls[k1] == st.arena[j].calls[k1]);
                assert(st.arena[j].calls[k1] < st.arena.len());
                assert(st2.arena[j].calls[k2] == idx);
            } else {
                assert(st2.arena[j].calls[k1] == st.arena[j].calls[k1]);
                assert(st2.arena[j].calls[k2] == st.arena[j].calls[k2]);
            }
        } else if j < idx {
            assert(st2.arena[j].calls == st.arena[j].calls);
        } else {
            assert(st2.arena[j].calls =~= Seq::<int>::empty());
        }
    };
}

proof fn lemma_close_inv(st: BuildState, g: u64)
    requires
        state_inv(st),
    ensures
        state_inv(close_current(st, g)),
        frames_kept(st.arena, close_current(st, g).arena),
        close_current(st, g).arena.len() == st.arena.len(),
{
    reveal(complete_arena);
    reveal(sorted_calls);
    let st2 = close_current(st, g);
    assert forall|j: int, k: int|
        0 <= j < st2.arena.len() && 0 <= k < st2.arena[j].calls.len() implies j
        < #[trigger] st2.arena[j].calls[k] && st2.arena[j].calls[k] < st2.arena.len()
        && st2.arena[st2.arena[j].calls[k]].parent == Some(j) by {
        assert(st2.arena[j].calls == st.arena[j].calls);
        assert(j < st.arena[j].calls[k] < st.arena.len());
        assert(st2.arena[st.arena[j].calls[k]].parent == st.arena[st.arena[j].calls[k]].parent);
    };
    assert forall|c: int|
        1 <= c < st2.arena.len() implies ((#[trigger] st2.arena[c].parent) matches Some(p)
        ==> st2.arena[p].calls.contains(c)) by {
        if st2.arena[c].parent is Some {
            let p = st2.arena[c].parent->Some_0;
            assert(st.arena[c].parent == st2.arena[c].parent);
            assert(st.arena[p].calls.contains(c));
            let m = choose|m: int| 0 <= m < st.arena[p].calls.len() && st.arena[p].calls[m] == c;
            assert(st2.arena[p].calls[m] == c);
            assert(st2.arena[p].calls.contains(c));
        }
    };
    assert forall|j: int, k1: int, k2: int|
        0 <= j < st2.arena.len() && 0 <= k1 < k2 < st2.arena[j].calls.len()
        implies st2.arena[j].calls[k1] < st2.arena[j].calls[k2] by {
        assert(st2.arena[j].calls == st.arena[j].calls);
    };
}

pub(crate) proof fn lemma_transition_inv(st: BuildState, steps: Seq<Step>, i: int)
    requires
        state_inv(st),
    ensures
        state_inv(transition(st, steps, i)),
        frames_kept(st.arena, transition(st, steps, i).arena),
        state_inv(t_jump_in(st, steps, i)),
        state_inv(t_call(t_jump_in(st, steps, i), steps, i)),
        state_inv(t_jump_out(t_call(t_jump_in(st, steps, i), steps, i), steps, i)),
{
    let st1 = t_jump_in(st, steps, i);
    if st.stopped is None && steps[i].jump == Jump::In && internal_jump_name(steps, i) is Some {
        let n = internal_jump_name(steps, i)->Some_0;
        lemma_push_frame_inv(
            st,
            FrameModel {
                title: n + " internal jump"@,
                name: n,
                gas_start: steps[i].total_gas_used,
                gas_end: None,
                color: Seq::empty(),
                kind: CallKind::InternalJump,
                calls: Seq::empty(),
                parent: Some(st.cur),
            },
            true,
        );
    }
    assert(state_inv(st1) && frames_kept(st.arena, st1.arena));
    let st2 = t_call(st1, steps, i);
    if st1.stopped is None && is_call_opcode(steps[i].instruction) {
        let next_contract = if i + 1 < steps.len() {
            contract_name_spec(steps[i + 1].source_code@)
        } else {
            None
        };
        match next_contract {
            Some(c) => lemma_push_frame_inv(
                st1,
                FrameModel {
                    title: c + ".fallback"@,
                    name: c,
                    gas_start: steps[i].total_gas_used,
                    gas_end: None,
                    color: Seq::empty(),
                    kind: CallKind::ExternalCall,
                    calls: Seq::empty(),
                    parent: Some(st1.cur),
                },
                true,
            ),
            None => match native_name(steps, i) {
                None => {},
                Some(n) => lemma_push_frame_inv(
                    st1,
                    FrameModel {
                        title: n + " nativecode"@,
                        name: n,
                        gas_start: steps[i].total_gas_used,
                        gas_end: if i + 1 < steps.len() {
                            Some(steps[i + 1].total_gas_used)
                        } else {
                            None
                        },
                        color: Seq::empty(),
                        kind: CallKind::NativeCall,
                        calls: Seq::empty(),
                        parent: Some(st1.cur),
                    },
                    false,
                ),
            },
        }
    }
    assert(state_inv(st2) && frames_kept(st1.arena, st2.arena));
    let st3 = t_jump_out(st2, steps, i);
    if st2.stopped is None && steps[i].jump == Jump::Out {
        lemma_close_inv(st2, steps[i].total_gas_used);
    }
    assert(state_inv(st3) && frames_kept(st2.arena, st3.arena));
    let st4 = t_halt(st3, steps, i);
    if st3.stopped is None && is_halt_opcode(steps[i].instruction) {
        lemma_close_inv(st3, steps[i].total_gas_used);
    }
    assert(state_inv(st4) && frames_kept(st3.arena, st4.arena));
}

/// Structural soundness of every state the builder reaches.
pub proof fn lemma_run_inv(steps: Seq<Step>, i: int)
    requires
        steps.len() >= 1,
        1 <= i,
    ensures
        state_inv(run(steps, i)),
        run(steps, i).arena[0].name == root_name(steps),
        run(steps, i).arena[0].title == root_name(steps) + ".fallback"@,
        run(steps, i).arena[0].gas_start == 0,
        run(steps, i).arena[0].kind == CallKind::ExternalCall,
    decreases i,
{
    if i <= 1 {
        reveal(complete_arena);
        reveal(sorted_calls);
        let st = run(steps, i);
        assert(st.arena.len() == 1);
        assert(st.arena[0] == root_frame(steps));
        assert(st.arena[0].calls =~= Seq::<int>::empty());
    } else {
        lemma_run_inv(steps, i - 1);
        lemma_transition_inv(run(steps, i - 1), steps, i - 1);
    }
}

proof fn lemma_close_gas(st: BuildState, g: u64)
    requires
        state_inv(st),
        gas_bounded(st, g),
    ensures
        gas_bounded(close_current(st, g), g),
{
}

#[verifier::rlimit(50)]
proof fn lemma_transition_gas(st: BuildState, steps: Seq<Step>, i: int)
    requires
        state_inv(st),
        gas_monotone(steps),
        1 <= i < steps.len(),
        gas_bounded(st, steps[i].total_gas_used),
    ensures
        gas_bounded(transition(st, steps, i), steps[i].total_gas_used),
{
    let g = steps[i].total_gas_used;
    let st1 = t_jump_in(st, steps, i);
    lemma_transition_inv(st, steps, i);
    assert(state_inv(st1)) by {
        lemma_t_sub_inv(st, steps, i);
    }
    assert(gas_bounded(st1, g));
    let st2 = t_call(st1, steps, i);
    assert(gas_bounded(st2, g));
    let st3 = t_jump_out(st2, steps, i);
    if st2.stopped is None && steps[i].jump == Jump::Out {
        lemma_close_gas(st2, g);
    }
    assert(gas_bounded(st3, g));
    let st4 = t_halt(st3, steps, i);
    if st3.stopped is None && is_halt_opcode(steps[i].instruction) {
        lemma_close_gas(st3, g);
    }
    assert(gas_bounded(st4, g));
}

/// Structural soundness of the two intermediate states inside one
/// transition.
proof fn lemma_t_sub_inv(st: BuildState, steps: Seq<Step>, i: int)
    requires
        state_inv(st),
    ensures
        state_inv(t_jump_in(st, steps, i)),
        state_inv(t_call(t_jump_in(st, steps, i), steps, i)),
        state_inv(t_jump_out(t_call(t_jump_in(st, steps, i), steps, i), steps, i)),
{
    lemma_transition_inv(st, steps, i);
}

/// Gas soundness of every state the builder reaches on a trace whose
/// cumulative gas is monotone: every frame started no later than the last
/// processed step, and no closed frame closed before it started.
pub proof fn lemma_run_gas(steps: Seq<Step>, i: int)
    requires
        gas_monotone(steps),
        1 <= i <= steps.len(),
    ensures
        gas_inv(steps, i, run(steps, i)),
    decreases i,
{
    if i <= 1 {
        assert(run(steps, i).arena[0].gas_start == 0);
    } else {
        lemma_run_gas(steps, i - 1);
        lemma_run_inv(steps, i - 1);
        let st = run(steps, i - 1);
        assert(steps[i - 2].total_gas_used <= steps[i - 1].total_gas_used);
        assert(gas_bounded(st, steps[i - 1].total_gas_used));
        lemma_transition_gas(st, steps, i - 1);
    }
}

/// Law: tree construction is deterministic. The builder's result is a
/// function of the trace alone, so two runs of the builder on the same trace
/// yield structurally identical trees.
pub proof fn lemma_build_deterministic(steps: Seq<Step>, t1: BuildState, t2: BuildState)
    requires
        t1 == run(steps, steps.len() as int),
        t2 == run(steps, steps.len() as int),
    ensures
        t1 == t2,
{
}

/// What a successfully built tree satisfies: it is the state-machine replay
/// [`run`] of the whole trace (hence a function of the trace alone), its
/// arena is structurally sound, its root is the first step's contract's
/// fallback frame opened at gas 0, and — on traces whose cumulative gas is
/// monotone — every closed frame closes no earlier than it started.
pub open spec fn parse_result_ok(steps: Seq<Step>, tree: RcRefCellFunctionCall) -> bool {
    &&& parse_error_of(steps) is None
    &&& arena_view(tree.arena@) == run(steps, steps.len() as int).arena
    &&& tree.stopped == run(steps, steps.len() as int).stopped
    &&& state_inv(run(steps, steps.len() as int))
    &&& arena_view(tree.arena@)[0].gas_start == 0
    &&& arena_view(tree.arena@)[0].parent is None
    &&& arena_view(tree.arena@)[0].name == root_name(steps)
    &&& arena_view(tree.arena@)[0].title == root_name(steps) + ".fallback"@
    &&& gas_monotone(steps) ==> gas_inv(steps, steps.len() as int, run(steps, steps.len() as int))
}

impl RcRefCellFunctionCall {
    /// Replays the trace and reconstructs the call tree.
    ///
    /// The trace is rejected (and no tree built) exactly when it is empty,
    /// when its first step's cumulative gas is not zero, or when its first
    /// step's snippet resolves no contract name; otherwise the returned tree
    /// satisfies [`parse_result_ok`].
    #[verifier::rlimit(100)]
    pub fn parse_steps(steps: &VecStep) -> (r: Result<RcRefCellFunctionCall, ParseError>)
        ensures
            match r {
                Ok(tree) => parse_result_ok(steps.0@, tree),
                Err(e) => parse_error_of(steps.0@) == Some(e),
            },
    {
        let n = steps.0.len();
        if n == 0 {
            return Err(ParseError::EmptyTrace);
        }
        if steps.0[0].total_gas_used != 0 {
            return Err(ParseError::NonZeroStartGas);
        }
        let contract_name = match steps.0[0].get_contract_name() {
            Some(c) => c,
            None => {
                return Err(ParseError::NoRootContractName);
            },
        };
        let full_name = contract_name.clone().concat(".fallback");
        let root = FunctionCall {
            title: full_name,
            name: contract_name,
            gas_start: 0,
            gas_end: None,
            color: String::new(),
            kind: CallKind::ExternalCall,
            calls: Vec::new(),
            parent: None,
        };
        let mut arena: Vec<FunctionCall> = Vec::new();
        arena.push(root);
        let mut cur: usize = 0;
        let mut stopped: Option<EarlyStop> = None;
        proof {
            assert(arena_view(arena@) =~~= run(steps.0@, 1).arena);
        }
        let mut i: usize = 1;
        while i < n
            invariant
                1 <= i <= n,
                n == steps.0@.len(),
                arena_view(arena@) == run(steps.0@, i as int).arena,
                cur as int == run(steps.0@, i as int).cur,
                stopped == run(steps.0@, i as int).stopped,
            decreases n - i,
        {
            let ghost s = steps.0@;
            let ghost st0 = run(s, i as int);
            proof {
                lemma_run_inv(s, i as int);
                lemma_t_sub_inv(st0, s, i as int);
            }
            let ghost st1 = t_jump_in(st0, s, i as int);
            let ghost st2 = t_call(st1, s, i as int);
            let ghost st3 = t_jump_out(st2, s, i as int);
            let ghost st4 = t_halt(st3, s, i as int);

            // Check 1: internal call open.
            if stopped.is_none() && steps.0[i].jump == Jump::In {
                let name_opt = steps.0[i].get_name();
                let name_opt = match name_opt {
                    Some(x) => Some(x),
                    None => if i + 1 < n {
                        steps.0[i + 1].get_function_name()
                    } else {
                        None
                    },
                };
                match name_opt {
                    Some(nm) => {
                        let new_idx = arena.len();
                        let title = nm.clone().concat(" internal jump");
                        let frame = FunctionCall {
                            title,
                            name: nm,
                            gas_start: steps.0[i].total_gas_used,
                            gas_end: None,
                            color: String::new(),
                            kind: CallKind::InternalJump,
                            calls: Vec::new(),
                            parent: Some(cur),
                        };
                        arena[cur].calls.push(new_idx);
                        arena.push(frame);
                        cur = new_idx;
                    },
                    None => {},
                }
            }
            proof {
                assert(arena_view(arena@) =~~= st1.arena);
                assert(cur as int == st1.cur);
                assert(stopped == st1.stopped);
            }

            // Check 2: CALL or STATICCALL opcode.
            if stopped.is_none() && (steps.0[i].instruction == 0xF1 || steps.0[i].instruction
                == 0xFA) {
                let next_contract = if i + 1 < n {
                    steps.0[i + 1].get_contract_name()
                } else {
                    None
                };
                match next_contract {
                    Some(c) => {
                        let new_idx = arena.len();
                        let full = c.clone().concat(".fallback");
                        let frame = FunctionCall {
                            title: full,
                            name: c,
                            gas_start: steps.0[i].total_gas_used,
                            gas_end: None,
                            color: String::new(),
                            kind: CallKind::ExternalCall,
                            calls: Vec::new(),
                            parent: Some(cur),
                        };
                        arena[cur].calls.push(new_idx);
                        arena.push(frame);
                        cur = new_idx;
                    },
                    None => {
                        let name_opt = get_next(
                            steps.0[i].source_code.as_str(),
                            "",
                            one_breaker('('),
                        );
                        let name_opt = match name_opt {
                            Some(x) => Some(x),
                            None => if i + 1 < n {
                                steps.0[i + 1].get_name()
                            } else {
                                None
                            },
                        };
                        match name_opt {
                            None => {
                                stopped = Some(EarlyStop::NoNativeName);
                            },
                            Some(nm) => {
                                let new_idx = arena.len();
                                let title = nm.clone().concat(" nativecode");
                                let gas_end = if i + 1 < n {
                                    Some(steps.0[i + 1].total_gas_used)
                                } else {
                                    None
                                };
                                let frame = FunctionCall {
                                    title,
                                    name: nm,
                                    gas_start: steps.0[i].total_gas_used,
                                    gas_end,
                                    color: String::new(),
                                    kind: CallKind::NativeCall,
                                    calls: Vec::new(),
                                    parent: Some(cur),
                                };
                                arena[cur].calls.push(new_idx);
                                arena.push(frame);
                            },
                        }
                    },
                }
            }
            proof {
                assert(arena_view(arena@) =~~= st2.arena);
                assert(cur as int == st2.cur);
                assert(stopped == st2.stopped);
            }

            // Check 3: internal call close.
            if stopped.is_none() && steps.0[i].jump == Jump::Out {
                match arena[cur].parent {
                    Some(p) => {
                        arena[cur].gas_end = Some(steps.0[i].total_gas_used);
                        cur = p;
                    },
                    None => {
                        stopped = Some(EarlyStop::NoParentOnClose);
                    },
                }
            }
            proof {
                assert(arena_view(arena@) =~~= st3.arena);
                assert(cur as int == st3.cur);
                assert(stopped == st3.stopped);
            }

            // Check 4: external call close.
            if stopped.is_none() && (steps.0[i].instruction == 0xF3 || steps.0[i].instruction
                == 0xFD || steps.0[i].instruction == 0x00) {
                match arena[cur].parent {
                    Some(p) => {
                        arena[cur].gas_end = Some(steps.0[i].total_gas_used);
                        cur = p;
                    },
                    None => {
                        stopped = Some(EarlyStop::NoParentOnClose);
                    },
                }
            }
            proof {
                assert(arena_view(arena@) =~~= st4.arena);
                assert(cur as int == st4.cur);
                assert(stopped == st4.stopped);
            }

            i += 1;
        }
        proof {
            lemma_run_inv(steps.0@, n as int);
            if gas_monotone(steps.0@) {
                lemma_run_gas(steps.0@, n as int);
            }
        }
        Ok(RcRefCellFunctionCall { arena, stopped })
    }

    /// Reconstructs the call tree from a step trace; identical in behaviour
    /// to [`Self::parse_steps`].
    pub fn from_vec_step(vec_step: &VecStep) -> (r: Result<RcRefCellFunctionCall, ParseError>)
        ensures
            match r {
                Ok(tree) => parse_result_ok(vec_step.0@, tree),
                Err(e) => parse_error_of(vec_step.0@) == Some(e),
            },
    {
        RcRefCellFunctionCall::parse_steps(vec_step)
    }
}

/// Reconstructs the call tree of a recorded step sequence; identical in
/// behaviour to [`RcRefCellFunctionCall::parse_steps`].
pub fn process_acc(acc_arr: Vec<Step>) -> (r: Result<RcRefCellFunctionCall, ParseError>)
    ensures
        match r {
            Ok(tree) => parse_result_ok(acc_arr@, tree),
            Err(e) => parse_error_of(acc_arr@) == Some(e),
        },
{
    RcRefCellFunctionCall::parse_steps(&VecStep(acc_arr))
}

/// The contract name of a step's snippet, as [`Step::get_contract_name`].
pub fn get_contract_name_from_acc(acc: &Step) -> (r: Option<String>)
    ensures
        opt_string_matches(r, contract_name_spec(acc.source_code@)),
{
    acc.get_contract_name()
}

/// The function name of a step's snippet, as [`Step::get_function_name`].
pub fn get_function_name_from_acc(acc: &Step) -> (r: Option<String>)
    ensures
        opt_string_matches(r, function_name_spec(acc.source_code@)),
{
    acc.get_function_name()
}

/// The best-guess name of a step's snippet, as [`Step::get_name`].
pub fn get_name(acc: &Step) -> (r: Option<String>)
    ensures
        opt_string_matches(r, any_name_spec(acc.source_code@)),
{
    acc.get_name()
}

/// `n` spaces.
pub open spec fn spaces(n: nat) -> Seq<char>
    decreases n,
{
    if n == 0 {
        Seq::empty()
    } else {
        spaces((n - 1) as nat) + seq![' ']
    }
}

/// The printed line for one frame at nesting level `depth`: its title and the
/// difference between its closing gas (zero when unclosed) and its opening
/// gas.
pub open spec fn print_line(f: FrameModel, depth: nat) -> Seq<char> {
    spaces(2 * depth) + f.title + " (gas: "@ + dec_int(
        (match f.gas_end {
            Some(e) => e as int,
            None => 0,
        }) - f.gas_start,
    ) + ")\n"@
}

/// The text [`print_call`] appends for the subtree rooted at `idx`.
pub open spec fn print_call_spec(a: Seq<FrameModel>, idx: int, depth: nat) -> Seq<char>
    decreases a.len() - idx, a[idx].calls.len() + 1,
        when wf_arena(a) && 0 <= idx < a.len()
{
    print_line(a[idx], depth) + print_kids(a, idx, 0, depth + 1)
}

/// The text [`print_call`] appends for the children of `idx` from child
/// position `k` on.
pub open spec fn print_kids(a: Seq<FrameModel>, idx: int, k: int, depth: nat) -> Seq<char>
    decreases a.len() - idx, a[idx].calls.len() - k,
        when wf_arena(a) && 0 <= idx < a.len() && 0 <= k
{
    if k >= a[idx].calls.len() {
        Seq::empty()
    } else {
        print_call_spec(a, a[idx].calls[k], depth) + print_kids(a, idx, k + 1, depth)
    }
}

/// Appends `depth` levels of two-space indentation to `out`.
fn indent(out: &mut String, depth: usize)
    ensures
        final(out)@ == old(out)@ + spaces(2 * depth as nat),
{
    let mut k: usize = 0;
    while k < depth
        invariant
            k <= depth,
            out@ == old(out)@ + spaces(2 * k as nat),
        decreases depth - k,
    {
        out.append("  ");
        proof {
            reveal_strlit("  ");
            assert(spaces((2 * k + 1) as nat) == spaces((2 * k) as nat) + seq![' ']);
            assert(spaces((2 * k + 2) as nat) == spaces((2 * k + 1) as nat) + seq![' ']);
            assert(out@ =~= old(out)@ + spaces(2 * (k + 1) as nat));
        }
        k += 1;
    }
}

/// Appends to `out` one line for the frame at `idx` — its title, indented
/// two spaces per nesting level, with the difference between its closing gas
/// (zero when unclosed) and its opening gas — followed by the lines of its
/// descendants, depth first.
pub fn print_call(tree: &RcRefCellFunctionCall, idx: usize, depth: usize, out: &mut String)
    requires
        wf_arena(arena_view(tree.arena@)),
        idx < tree.arena@.len(),
        depth + tree.arena@.len() - idx <= usize::MAX,
    ensures
        final(out)@ == old(out)@ + print_call_spec(
            arena_view(tree.arena@),
            idx as int,
            depth as nat,
        ),
    decreases tree.arena@.len() - idx,
{
    let ghost a = arena_view(tree.arena@);
    indent(out, depth);
    out.append(tree.arena[idx].title.as_str());
    out.append(" (gas: ");
    let gas_end: u64 = match tree.arena[idx].gas_end {
        Some(e) => e,
        None => 0,
    };
    let diff = crate::utils::diff_to_string(gas_end as u128, tree.arena[idx].gas_start as u128);
    out.append(diff.as_str());
    out.append(")\n");
    proof {
        reveal_strlit(" (gas: ");
        reveal_strlit(")\n");
        assert(out@ =~= old(out)@ + print_line(a[idx as int], depth as nat));
    }
    let ghost base = out@;
    let num_kids = tree.arena[idx].calls.len();
    let mut k: usize = 0;
    while k < num_kids
        invariant
            k <= num_kids,
            num_kids == a[idx as int].calls.len(),
            wf_arena(a),
            a == arena_view(tree.arena@),
            idx < tree.arena@.len(),
            depth + tree.arena@.len() - idx <= usize::MAX,
            base == old(out)@ + print_line(a[idx as int], depth as nat),
            out@ + print_kids(a, idx as int, k as int, depth as nat + 1) == base + print_kids(
                a,
                idx as int,
                0,
                depth as nat + 1,
            ),
        decreases num_kids - k,
    {
        let child = tree.arena[idx].calls[k];
        proof {
            assert(a[idx as int].calls[k as int] == child as int);
            assert(idx < child < a.len());
        }
        let ghost before = out@;
        print_call(tree, child, depth + 1, out);
        proof {
            assert(out@ + print_kids(a, idx as int, k + 1, depth as nat + 1) =~= before
                + print_kids(a, idx as int, k as int, depth as nat + 1));
        }
        k += 1;
    }
    proof {
        assert(out@ =~= old(out)@ + print_call_spec(a, idx as int, depth as nat));
    }
}

} // verus!
