//! The atomic unit of a trace: one executed instruction together with the
//! source snippet its program counter maps to and a source-map jump
//! classification.

use vstd::prelude::*;
use vstd::string::*;

use crate::function_call::{parse_error_of, parse_result_ok, ParseError, RcRefCellFunctionCall};
use crate::utils::{
    get_after_dot, get_after_dot_spec, get_next, get_next_spec, opt_string_matches,
};

verus! {

/// Source-map jump classification of one instruction: entering a lexical
/// call, returning from one, or neither.
#[derive(Clone, Copy, PartialEq, Eq, Structural, Debug)]
pub enum Jump {
    In,
    Out,
    Regular,
}

/// One executed instruction: its opcode, program counter, the cumulative gas
/// used up to this point of the run, its jump classification, and the exact
/// substring of the original source text that its program counter maps to
/// (empty when unmapped).
#[derive(Clone, Debug)]
pub struct Step {
    pub instruction: u8,
    pub pc: usize,
    pub total_gas_used: u64,
    pub jump: Jump,
    pub source_code: String,
}

/// `a` if it holds a value, otherwise `b`.
pub open spec fn opt_seq_or(a: Option<Seq<char>>, b: Option<Seq<char>>) -> Option<Seq<char>> {
    if a is Some {
        a
    } else {
        b
    }
}

/// The contract name a snippet resolves to: the identifier after `contract `
/// or `abstract contract `, up to a space or `{`.
pub open spec fn contract_name_spec(s: Seq<char>) -> Option<Seq<char>> {
    opt_seq_or(
        get_next_spec(s, "contract "@, seq![' ', '{']),
        get_next_spec(s, "abstract contract "@, seq![' ', '{']),
    )
}

/// The function name a snippet resolves to: the identifier after
/// `function `, up to a space or `(`.
pub open spec fn function_name_spec(s: Seq<char>) -> Option<Seq<char>> {
    get_next_spec(s, "function "@, seq![' ', '('])
}

/// The first token of a snippet, up to an opening parenthesis.
pub open spec fn bare_name_spec(s: Seq<char>) -> Option<Seq<char>> {
    get_next_spec(s, ""@, seq!['('])
}

/// The best-guess name a snippet resolves to, trying in order: contract name,
/// function name, the text after the last dot, and finally the first token
/// before an opening parenthesis.
pub open spec fn any_name_spec(s: Seq<char>) -> Option<Seq<char>> {
    opt_seq_or(
        contract_name_spec(s),
        opt_seq_or(
            function_name_spec(s),
            opt_seq_or(get_after_dot_spec(s, seq!['(']), bare_name_spec(s)),
        ),
    )
}

/// A one-element breaker list.
pub fn one_breaker(a: char) -> (r: Vec<char>)
    ensures
        r@ == seq![a],
{
    let mut v: Vec<char> = Vec::new();
    v.push(a);
    proof {
        assert(v@ =~= seq![a]);
    }
    v
}

/// A two-element breaker list.
pub fn two_breakers(a: char, b: char) -> (r: Vec<char>)
    ensures
        r@ == seq![a, b],
{
    let mut v: Vec<char> = Vec::new();
    v.push(a);
    v.push(b);
    proof {
        assert(v@ =~= seq![a, b]);
    }
    v
}

impl Step {
    /// The contract name of this step's snippet, when it is a contract
    /// declaration.
    pub fn get_contract_name(&self) -> (r: Option<String>)
        ensures
            opt_string_matches(r, contract_name_spec(self.source_code@)),
    {
        let first = get_next(self.source_code.as_str(), "contract ", two_breakers(' ', '{'));
        match first {
            Some(name) => Some(name),
            None => get_next(self.source_code.as_str(), "abstract contract ", two_breakers(' ', '{')),
        }
    }

    /// The function name of this step's snippet, when it is a function
    /// declaration.
    pub fn get_function_name(&self) -> (r: Option<String>)
        ensures
            opt_string_matches(r, function_name_spec(self.source_code@)),
    {
        get_next(self.source_code.as_str(), "function ", two_breakers(' ', '('))
    }

    /// The best-guess name of this step's snippet, per [`any_name_spec`].
    pub fn get_name(&self) -> (r: Option<String>)
        ensures
            opt_string_matches(r, any_name_spec(self.source_code@)),
    {
        let src = self.source_code.as_str();
        let r = get_next(src, "contract ", two_breakers(' ', '{'));
        let r = match r {
            Some(name) => Some(name),
            None => get_next(src, "abstract contract ", two_breakers(' ', '{')),
        };
        let r = match r {
            Some(name) => Some(name),
            None => get_next(src, "function ", two_breakers(' ', '(')),
        };
        let r = match r {
            Some(name) => Some(name),
            None => get_after_dot(src, one_breaker('(')),
        };
        match r {
            Some(name) => Some(name),
            None => get_next(src, "", one_breaker('(')),
        }
    }

    /// The snippet truncated to its first `len` characters.
    pub fn get_source_code_stripped(&self, len: usize) -> (r: String)
        ensures
            r@ == if self.source_code@.len() > len {
                self.source_code@.subrange(0, len as int)
            } else {
                self.source_code@
            },
    {
        let n = self.source_code.as_str().unicode_len();
        if n > len {
            self.source_code.as_str().substring_char(0, len).to_owned()
        } else {
            self.source_code.clone()
        }
    }
}

/// The ordered sequence of steps of one trace, in strict execution order.
#[derive(Debug)]
pub struct VecStep(pub Vec<Step>);

impl Default for VecStep {
    /// An empty trace.
    fn default() -> (r: Self)
        ensures
            r.0@.len() == 0,
    {
        VecStep(Vec::new())
    }
}

impl VecStep {
    /// Reconstructs the call tree of this trace, as
    /// [`RcRefCellFunctionCall::parse_steps`] does.
    pub fn parse(&self) -> (r: Result<RcRefCellFunctionCall, ParseError>)
        ensures
            match r {
                Ok(tree) => parse_result_ok(self.0@, tree),
                Err(e) => parse_error_of(self.0@) == Some(e),
            },
    {
        RcRefCellFunctionCall::parse_steps(self)
    }

    /// Appends one step at the end of the trace.
    pub fn push(&mut self, step: Step)
        ensures
            final(self).0@ == old(self).0@.push(step),
    {
        self.0.push(step);
    }
}

} // verus!
