//! Heuristic name extraction from source-code snippets.
//!
//! These scanners recover a best-guess identifier (a contract name, a
//! function name, or a call-target name) from a snippet of source text that
//! was sliced at arbitrary positions. They are deliberately tolerant: absence
//! of a match is always `None`, never an error.

use vstd::prelude::*;
use vstd::string::*;

verus! {

/// True when `p` is a character-wise prefix of `s`.
pub open spec fn prefix_matches(s: Seq<char>, p: Seq<char>) -> bool {
    p.len() <= s.len() && s.subrange(0, p.len() as int) == p
}

/// Position of the first character of `s` at index `i` or later that occurs
/// in `brk`, or `None` when no such character exists.
pub open spec fn find_breaker(s: Seq<char>, brk: Seq<char>, i: int) -> Option<int>
    decreases s.len() - i,
{
    if i < 0 || i >= s.len() {
        None
    } else if brk.contains(s[i]) {
        Some(i)
    } else {
        find_breaker(s, brk, i + 1)
    }
}

/// What [`get_next`] returns, over character sequences: when `p` is a prefix
/// of `s`, the characters between the end of the prefix and the first
/// following stop character; `None` when the prefix does not match or when no
/// stop character is ever reached (an unterminated scan yields no partial
/// result).
pub open spec fn get_next_spec(s: Seq<char>, p: Seq<char>, brk: Seq<char>) -> Option<Seq<char>> {
    if prefix_matches(s, p) {
        match find_breaker(s, brk, p.len() as int) {
            Some(e) => Some(s.subrange(p.len() as int, e)),
            None => None,
        }
    } else {
        None
    }
}

/// Relates an executable optional string to its character-sequence model.
pub open spec fn opt_string_matches(r: Option<String>, m: Option<Seq<char>>) -> bool {
    match r {
        Some(x) => m == Some(x@),
        None => m is None,
    }
}

/// Whether `c` occurs in `v`.
fn contains_char(v: &Vec<char>, c: char) -> (r: bool)
    ensures
        r == v@.contains(c),
{
    let mut i: usize = 0;
    while i < v.len()
        invariant
            i <= v@.len(),
            forall|j: int| 0 <= j < i ==> v@[j] != c,
        decreases v@.len() - i,
    {
        if v[i] == c {
            proof {
                assert(v@[i as int] == c);
            }
            return true;
        }
        i += 1;
    }
    false
}

/// Whether `p` is a prefix of `s`, counted in characters.
fn starts_with_prefix(s: &str, p: &str) -> (r: bool)
    ensures
        r == prefix_matches(s@, p@),
{
    let n = p.unicode_len();
    if n > s.unicode_len() {
        return false;
    }
    let mut i: usize = 0;
    while i < n
        invariant
            i <= n,
            n == p@.len(),
            n <= s@.len(),
            forall|j: int| 0 <= j < i ==> s@[j] == p@[j],
        decreases n - i,
    {
        if s.get_char(i) != p.get_char(i) {
            proof {
                assert(!prefix_matches(s@, p@)) by {
                    if prefix_matches(s@, p@) {
                        assert(s@.subrange(0, p@.len() as int)[i as int] == s@[i as int]);
                    }
                }
            }
            return false;
        }
        i += 1;
    }
    proof {
        assert(s@.subrange(0, p@.len() as int) =~= p@);
    }
    true
}

/// Scans `s` from position `start` for the first character in `breakers`.
fn find_breaker_from(s: &str, breakers: &Vec<char>, start: usize) -> (r: Option<usize>)
    requires
        start <= s@.len(),
    ensures
        match r {
            Some(e) => find_breaker(s@, breakers@, start as int) == Some(e as int) && start <= e
                < s@.len(),
            None => find_breaker(s@, breakers@, start as int) is None,
        },
{
    let n = s.unicode_len();
    let mut end = start;
    while end < n
        invariant
            start <= end <= n,
            n == s@.len(),
            find_breaker(s@, breakers@, start as int) == find_breaker(s@, breakers@, end as int),
        decreases n - end,
    {
        let c = s.get_char(end);
        if contains_char(breakers, c) {
            return Some(end);
        }
        proof {
            assert(find_breaker(s@, breakers@, end as int) == find_breaker(
                s@,
                breakers@,
                end + 1,
            ));
        }
        end += 1;
    }
    None
}

/// One step short of [`get_after_dot_spec`]: scanning from position `i` with
/// `start` just past the last dot seen so far (`dot_found` records whether one
/// was seen), the positions `(start, end)` of the text that the scan returns,
/// or `None` when the snippet ends before a stop character follows a dot.
pub open spec fn dot_scan(
    s: Seq<char>,
    brk: Seq<char>,
    i: int,
    start: int,
    dot_found: bool,
) -> Option<(int, int)>
    decreases s.len() - i,
{
    if i < 0 || i >= s.len() {
        None
    } else {
        let start2 = if s[i] == '.' {
            i + 1
        } else {
            start
        };
        let dot2 = dot_found || s[i] == '.';
        if dot2 && brk.contains(s[i]) {
            Some((start2, i))
        } else {
            dot_scan(s, brk, i + 1, start2, dot2)
        }
    }
}

/// What [`get_after_dot`] returns, over character sequences: the text between
/// the last `.` preceding the first stop character that follows any dot, and
/// that stop character; `None` when no dot occurs or no stop character
/// follows one.
pub open spec fn get_after_dot_spec(s: Seq<char>, brk: Seq<char>) -> Option<Seq<char>> {
    match dot_scan(s, brk, 0, 0, false) {
        Some((st, e)) => Some(
            if st <= e {
                s.subrange(st, e)
            } else {
                Seq::empty()
            },
        ),
        None => None,
    }
}

/// Finds the last `.` in `s` that is followed by a run of text reaching a
/// character in `breakers`, and returns that run; `None` when no dot exists
/// or no stop character follows one. Recovers a call-target method name from
/// snippets such as `a.b.method(arg)` (giving `method`).
pub fn get_after_dot(s: &str, breakers: Vec<char>) -> (r: Option<String>)
    ensures
        opt_string_matches(r, get_after_dot_spec(s@, breakers@)),
{
    let n = s.unicode_len();
    let mut i: usize = 0;
    let mut start: usize = 0;
    let mut dot_found = false;
    while i < n
        invariant
            i <= n,
            start <= i,
            n == s@.len(),
            dot_scan(s@, breakers@, 0, 0, false) == dot_scan(
                s@,
                breakers@,
                i as int,
                start as int,
                dot_found,
            ),
        decreases n - i,
    {
        let c = s.get_char(i);
        let (start2, dot2) = if c == '.' {
            (i + 1, true)
        } else {
            (start, dot_found)
        };
        if dot2 && contains_char(&breakers, c) {
            if start2 <= i {
                let sub = s.substring_char(start2, i);
                return Some(sub.to_owned());
            } else {
                return Some(String::new());
            }
        }
        proof {
            assert(dot_scan(s@, breakers@, i as int, start as int, dot_found) == dot_scan(
                s@,
                breakers@,
                i + 1,
                start2 as int,
                dot2,
            ));
        }
        start = start2;
        dot_found = dot2;
        i += 1;
    }
    None
}

/// The decimal digit character for `d` (interpreted modulo nothing; values
/// ten and above all map to `'9'`, which no caller relies on).
pub open spec fn digit_char(d: nat) -> char {
    if d == 0 {
        '0'
    } else if d == 1 {
        '1'
    } else if d == 2 {
        '2'
    } else if d == 3 {
        '3'
    } else if d == 4 {
        '4'
    } else if d == 5 {
        '5'
    } else if d == 6 {
        '6'
    } else if d == 7 {
        '7'
    } else if d == 8 {
        '8'
    } else {
        '9'
    }
}

/// The decimal representation of `n`, most significant digit first, with no
/// leading zeroes (`0` itself is `"0"`).
pub open spec fn dec_digits(n: nat) -> Seq<char>
    decreases n,
{
    if n < 10 {
        seq![digit_char(n)]
    } else {
        dec_digits(n / 10).push(digit_char(n % 10))
    }
}

/// The decimal representation of `v`, with a leading `-` when negative.
pub open spec fn dec_int(v: int) -> Seq<char> {
    if v < 0 {
        seq!['-'] + dec_digits((-v) as nat)
    } else {
        dec_digits(v as nat)
    }
}

/// The single-character string for the decimal digit `d`.
fn digit_str(d: u128) -> (r: &'static str)
    requires
        d < 10,
    ensures
        r@ == seq![digit_char(d as nat)],
{
    if d == 0 {
        proof {
            reveal_strlit("0");
            assert("0"@ =~= seq![digit_char(0)]);
        }
        "0"
    } else if d == 1 {
        proof {
            reveal_strlit("1");
            assert("1"@ =~= seq![digit_char(1)]);
        }
        "1"
    } else if d == 2 {
        proof {
            reveal_strlit("2");
            assert("2"@ =~= seq![digit_char(2)]);
        }
        "2"
    } else if d == 3 {
        proof {
            reveal_strlit("3");
            assert("3"@ =~= seq![digit_char(3)]);
        }
        "3"
    } else if d == 4 {
        proof {
            reveal_strlit("4");
            assert("4"@ =~= seq![digit_char(4)]);
        }
        "4"
    } else if d == 5 {
        proof {
            reveal_strlit("5");
            assert("5"@ =~= seq![digit_char(5)]);
        }
        "5"
    } else if d == 6 {
        proof {
            reveal_strlit("6");
            assert("6"@ =~= seq![digit_char(6)]);
        }
        "6"
    } else if d == 7 {
        proof {
            reveal_strlit("7");
            assert("7"@ =~= seq![digit_char(7)]);
        }
        "7"
    } else if d == 8 {
        proof {
            reveal_strlit("8");
            assert("8"@ =~= seq![digit_char(8)]);
        }
        "8"
    } else {
        proof {
            reveal_strlit("9");
            assert("9"@ =~= seq![digit_char(9)]);
        }
        "9"
    }
}

/// Formats `n` in decimal.
pub fn u128_to_string(n: u128) -> (r: String)
    ensures
        r@ == dec_digits(n as nat),
    decreases n,
{
    if n < 10 {
        digit_str(n).to_owned()
    } else {
        let q = u128_to_string(n / 10);
        let r = q.concat(digit_str(n % 10));
        proof {
            assert(r@ =~= dec_digits(n as nat));
        }
        r
    }
}

/// Formats the (possibly negative) difference `a - b` in decimal.
pub fn diff_to_string(a: u128, b: u128) -> (r: String)
    ensures
        r@ == dec_int(a - b),
{
    if a >= b {
        u128_to_string(a - b)
    } else {
        let m = u128_to_string(b - a);
        let r = String::from_str("-").concat(m.as_str());
        proof {
            reveal_strlit("-");
            assert(r@ =~= dec_int(a as int - b as int));
        }
        r
    }
}

/// If `s` starts with `prepend`, returns the text between the end of that
/// prefix and the first following character that occurs in `breakers`;
/// returns `None` when the prefix does not match or no stop character is
/// found before the end of the snippet.
pub fn get_next(s: &str, prepend: &str, breakers: Vec<char>) -> (r: Option<String>)
    ensures
        opt_string_matches(r, get_next_spec(s@, prepend@, breakers@)),
{
    if starts_with_prefix(s, prepend) {
        let start = prepend.unicode_len();
        match find_breaker_from(s, &breakers, start) {
            Some(end) => {
                let sub = s.substring_char(start, end);
                Some(sub.to_owned())
            },
            None => None,
        }
    } else {
        None
    }
}

} // verus!
