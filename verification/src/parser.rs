//! The grammar and parser.
//!
//! The grammar, lowest to highest binding power:
//!
//! ```text
//! expression  := iff
//! iff         := implication ( "<->" implication )*
//! implication := or ( "->" or )*
//! or          := xor ( "|" xor )*
//! xor         := and ( "^" and )*
//! and         := negation ( "&" negation )*
//! negation    := "!"* primary
//! primary     := atom | "(" expression ")" | "[" expression "]" | "{" expression "}"
//! atom        := identifier | "true" | "false"
//! ```
//!
//! A run of two or more operands at one tier collapses into a single n-ary
//! `Binary` node.  Whitespace (space, tab, carriage return) between tokens is
//! insignificant.  A file is a sequence of lines; blank lines and lines whose
//! first non-whitespace characters are `//` are skipped, and every other line
//! must parse as one complete expression.
//!
//! The parser is specified first as a total recursive function over byte
//! sequences (`parse_level`, `parse_neg`, `parse_primary`, `parse_more`);
//! the executable parser is proved to return exactly what the specification
//! returns.  Parsing is pure: a given input always produces the same tree or
//! the same refusal, and a refusal never yields a partial tree.

use vstd::prelude::*;

use crate::ast::{
    atom_text_ok, close_delim_of, is_ident_char, is_ident_start, is_open_delim, is_ws,
    lemma_view_expr_seq_index, lemma_view_expr_seq_push, lemma_view_expr_seq_singleton, level_op,
    op_token, view_expr, view_expr_seq, wf_seq_v, wf_v, Expr, ExprV, Op, B_AMP, B_BANG, B_CARET,
    B_CR, B_DASH, B_DIGIT_0, B_DIGIT_9, B_GT, B_LBRACE, B_LBRACK, B_LOWER_A, B_LOWER_Z, B_LPAREN,
    B_LT, B_NL, B_PIPE, B_RBRACE, B_RBRACK, B_RPAREN, B_SLASH, B_SPACE, B_TAB, B_UNDERSCORE,
    B_UPPER_A, B_UPPER_Z,
};
use vstd::slice::{slice_subrange, slice_to_vec};

verus! {

/// Position after the run of whitespace that starts at `i`.
pub open spec fn ws_run(s: Seq<u8>, i: int) -> int
    decreases s.len() - i,
{
    if 0 <= i && i < s.len() && is_ws(s[i]) {
        ws_run(s, i + 1)
    } else {
        i
    }
}

/// Position after the run of identifier characters that starts at `i`.
pub open spec fn ident_run(s: Seq<u8>, i: int) -> int
    decreases s.len() - i,
{
    if 0 <= i && i < s.len() && is_ident_char(s[i]) {
        ident_run(s, i + 1)
    } else {
        i
    }
}

/// The token `t` occurs in `s` at position `i`.
pub open spec fn token_at(s: Seq<u8>, i: int, t: Seq<u8>) -> bool {
    0 <= i && i + t.len() <= s.len() && s.subrange(i, i + t.len() as int) == t
}

/// Rank used by the termination measure of the mutually recursive tiers.
pub open spec fn lvl_rank(lvl: int) -> int {
    if lvl < 4 {
        7 - lvl
    } else {
        3
    }
}

/// `primary := atom | "(" expression ")" | "[" expression "]" | "{" expression "}"`
pub open spec fn parse_primary_at(s: Seq<u8>, i: int) -> Option<(ExprV, int)>
    decreases s.len() - i, 0int, 0int,
{
    let k = ws_run(s, i);
    if !(0 <= i && i <= k && k <= s.len()) {
        None
    } else if k < s.len() && is_ident_start(s[k]) {
        Some((ExprV::Atom(s.subrange(k, ident_run(s, k))), ident_run(s, k)))
    } else if k < s.len() && is_open_delim(s[k]) {
        match parse_level(s, k + 1, 0) {
            Some((inner, j)) => {
                let k2 = ws_run(s, j);
                if 0 <= j && j <= s.len() && k2 < s.len() && s[k2] == close_delim_of(s[k]) {
                    Some((ExprV::Group(Box::new(inner)), k2 + 1))
                } else {
                    None
                }
            },
            None => None,
        }
    } else {
        None
    }
}

/// `negation := "!"* primary`
pub open spec fn parse_neg(s: Seq<u8>, i: int) -> Option<(ExprV, int)>
    decreases s.len() - i, 1int, 0int,
{
    let k = ws_run(s, i);
    if 0 <= i && i <= k && k < s.len() && s[k] == crate::ast::B_BANG {
        match parse_neg(s, k + 1) {
            Some((inner, j)) => Some((ExprV::Not(Box::new(inner)), j)),
            None => None,
        }
    } else {
        parse_primary_at(s, i)
    }
}

/// One binary tier: parse an operand of the next-tighter tier, then any
/// number of `token operand` continuations, collapsed into one n-ary node.
pub open spec fn parse_level(s: Seq<u8>, i: int, lvl: int) -> Option<(ExprV, int)>
    decreases s.len() - i, lvl_rank(lvl), 1int,
{
    let first = if lvl >= 4 {
        parse_neg(s, i)
    } else {
        parse_level(s, i, lvl + 1)
    };
    match first {
        Some((e, j)) => {
            if 0 <= i && i <= j && j <= s.len() {
                parse_more(s, j, lvl, seq![e])
            } else {
                None
            }
        },
        None => None,
    }
}

/// The continuation loop of one binary tier, accumulating operands.
pub open spec fn parse_more(s: Seq<u8>, i: int, lvl: int, acc: Seq<ExprV>) -> Option<(ExprV, int)>
    decreases s.len() - i, lvl_rank(lvl), 0int,
{
    let k = ws_run(s, i);
    let t = op_token(level_op(lvl));
    if 0 <= i && i <= k && token_at(s, k, t) {
        let m = k + t.len() as int;
        let next = if lvl >= 4 {
            parse_neg(s, m)
        } else {
            parse_level(s, m, lvl + 1)
        };
        match next {
            Some((e, j)) => {
                if i < j && j <= s.len() {
                    parse_more(s, j, lvl, acc.push(e))
                } else {
                    None
                }
            },
            None => None,
        }
    } else if acc.len() == 1 {
        Some((acc[0], i))
    } else if acc.len() >= 2 {
        Some((ExprV::Binary(level_op(lvl), acc), i))
    } else {
        None
    }
}

/// `atom := identifier | "true" | "false"`, parsed on its own.
pub open spec fn parse_atom_at(s: Seq<u8>, i: int) -> Option<(ExprV, int)> {
    let k = ws_run(s, i);
    if 0 <= i && i <= k && k < s.len() && is_ident_start(s[k]) {
        Some((ExprV::Atom(s.subrange(k, ident_run(s, k))), ident_run(s, k)))
    } else {
        None
    }
}

/// All input from `j` on is trailing whitespace.
pub open spec fn parsed_all(s: Seq<u8>, j: int) -> bool {
    ws_run(s, j) == s.len()
}

/// A whole input parsed as one construct of tier `lvl`, with nothing left.
pub open spec fn spec_parse_tier(s: Seq<u8>, lvl: int) -> Option<ExprV> {
    match parse_level(s, 0, lvl) {
        Some((e, j)) => if parsed_all(s, j) {
            Some(e)
        } else {
            None
        },
        None => None,
    }
}

/// A whole input parsed as one expression (the `iff` tier), nothing left.
pub open spec fn spec_parse_expression(s: Seq<u8>) -> Option<ExprV> {
    spec_parse_tier(s, 0)
}

/// A whole input parsed as one `negation`, nothing left.
pub open spec fn spec_parse_negation(s: Seq<u8>) -> Option<ExprV> {
    match parse_neg(s, 0) {
        Some((e, j)) => if parsed_all(s, j) {
            Some(e)
        } else {
            None
        },
        None => None,
    }
}

/// A whole input parsed as one `primary`, nothing left.
pub open spec fn spec_parse_primary(s: Seq<u8>) -> Option<ExprV> {
    match parse_primary_at(s, 0) {
        Some((e, j)) => if parsed_all(s, j) {
            Some(e)
        } else {
            None
        },
        None => None,
    }
}

/// A whole input parsed as one `atom`, nothing left.
pub open spec fn spec_parse_atom(s: Seq<u8>) -> Option<ExprV> {
    match parse_atom_at(s, 0) {
        Some((e, j)) => if parsed_all(s, j) {
            Some(e)
        } else {
            None
        },
        None => None,
    }
}

/// Position of the next newline at or after `i`, or the end of the input.
pub open spec fn line_end(s: Seq<u8>, i: int) -> int
    decreases s.len() - i,
{
    if 0 <= i && i < s.len() && s[i] != B_NL {
        line_end(s, i + 1)
    } else {
        i
    }
}

/// A line that the file parser skips: blank, or a `//` comment line.
pub open spec fn line_skippable(s: Seq<u8>, i: int) -> bool {
    let k = ws_run(s, i);
    k == line_end(s, i) || (k + 1 < s.len() && s[k] == B_SLASH && s[k + 1] == B_SLASH)
}

/// File parsing from position `i` (always a start of line): skippable lines
/// are dropped, every other line must hold exactly one expression, and the
/// first failing line refuses the whole file.
pub open spec fn parse_file_from(s: Seq<u8>, i: int) -> Option<Seq<ExprV>>
    decreases s.len() - i,
{
    if !(0 <= i && i <= s.len()) {
        None
    } else if i == s.len() {
        Some(Seq::empty())
    } else {
        let e_end = line_end(s, i);
        if line_skippable(s, i) {
            if i <= e_end && e_end < s.len() {
                parse_file_from(s, e_end + 1)
            } else {
                Some(Seq::empty())
            }
        } else {
            match parse_level(s, i, 0) {
                Some((e, j)) => {
                    if ws_run(s, j) == e_end {
                        if i <= e_end && e_end < s.len() {
                            match parse_file_from(s, e_end + 1) {
                                Some(rest) => Some(seq![e] + rest),
                                None => None,
                            }
                        } else {
                            Some(seq![e])
                        }
                    } else {
                        None
                    }
                },
                None => None,
            }
        }
    }
}

/// A whole input parsed as a file.
pub open spec fn spec_parse_file(s: Seq<u8>) -> Option<Seq<ExprV>> {
    parse_file_from(s, 0)
}

pub proof fn lemma_ws_run(s: Seq<u8>, i: int)
    requires
        0 <= i <= s.len(),
    ensures
        i <= ws_run(s, i) <= s.len(),
        ws_run(s, i) < s.len() ==> !is_ws(s[ws_run(s, i)]),
        forall|n: int| i <= n < ws_run(s, i) ==> is_ws(#[trigger] s[n]),
        ws_run(s, ws_run(s, i)) == ws_run(s, i),
    decreases s.len() - i,
{
    if i < s.len() && is_ws(s[i]) {
        lemma_ws_run(s, i + 1);
    }
}

pub proof fn lemma_ident_run(s: Seq<u8>, i: int)
    requires
        0 <= i <= s.len(),
    ensures
        i <= ident_run(s, i) <= s.len(),
        ident_run(s, i) < s.len() ==> !is_ident_char(s[ident_run(s, i)]),
        forall|n: int| i <= n < ident_run(s, i) ==> is_ident_char(#[trigger] s[n]),
    decreases s.len() - i,
{
    if i < s.len() && is_ident_char(s[i]) {
        lemma_ident_run(s, i + 1);
    }
}

/// The identifier run is the unique maximal run: if every character of
/// `[i, j)` is an identifier character and `j` stops the run, the run ends
/// exactly at `j`.
pub proof fn lemma_ident_run_exact(s: Seq<u8>, i: int, j: int)
    requires
        0 <= i <= j <= s.len(),
        forall|n: int| i <= n < j ==> is_ident_char(#[trigger] s[n]),
        j == s.len() || !is_ident_char(s[j]),
    ensures
        ident_run(s, i) == j,
    decreases j - i,
{
    if i < j {
        lemma_ident_run_exact(s, i + 1, j);
    }
}

/// A run of whitespace ends exactly at the first non-whitespace position.
pub proof fn lemma_ws_run_exact(s: Seq<u8>, i: int, j: int)
    requires
        0 <= i <= j <= s.len(),
        forall|n: int| i <= n < j ==> is_ws(#[trigger] s[n]),
        j == s.len() || !is_ws(s[j]),
    ensures
        ws_run(s, i) == j,
    decreases j - i,
{
    if i < j {
        lemma_ws_run_exact(s, i + 1, j);
    }
}

/// Soundness of `parse_primary_at`: on success the position advances, stays in
/// bounds, and the tree is well formed.
pub proof fn lemma_parse_primary_at_ok(s: Seq<u8>, i: int)
    requires
        0 <= i <= s.len(),
    ensures
        match parse_primary_at(s, i) {
            Some((e, j)) => i < j <= s.len() && wf_v(e),
            None => true,
        },
    decreases s.len() - i, 0int, 0int,
{
    lemma_ws_run(s, i);
    let k = ws_run(s, i);
    if k < s.len() && is_ident_start(s[k]) {
        lemma_ident_run(s, k);
        let r = ident_run(s, k);
        assert(is_ident_char(s[k]));
        assert(r > k);
        let t = s.subrange(k, r);
        assert(t.len() == r - k);
        assert(t[0] == s[k]);
        assert(forall|n: int| 0 <= n < t.len() ==> t[n] == s[k + n]);
        assert(atom_text_ok(t));
    } else if k < s.len() && is_open_delim(s[k]) {
        lemma_parse_level_ok(s, k + 1, 0);
        match parse_level(s, k + 1, 0) {
            Some((inner, j)) => {
                lemma_ws_run(s, j);
            },
            None => {},
        }
    }
}

/// Soundness of `parse_neg`.
pub proof fn lemma_parse_neg_ok(s: Seq<u8>, i: int)
    requires
        0 <= i <= s.len(),
    ensures
        match parse_neg(s, i) {
            Some((e, j)) => i < j <= s.len() && wf_v(e),
            None => true,
        },
    decreases s.len() - i, 1int, 0int,
{
    lemma_ws_run(s, i);
    let k = ws_run(s, i);
    if k < s.len() && s[k] == crate::ast::B_BANG {
        lemma_parse_neg_ok(s, k + 1);
    } else {
        lemma_parse_primary_at_ok(s, i);
    }
}

/// Soundness of `parse_level`.
pub proof fn lemma_parse_level_ok(s: Seq<u8>, i: int, lvl: int)
    requires
        0 <= i <= s.len(),
    ensures
        match parse_level(s, i, lvl) {
            Some((e, j)) => i < j <= s.len() && wf_v(e),
            None => true,
        },
    decreases s.len() - i, lvl_rank(lvl), 1int,
{
    if lvl >= 4 {
        lemma_parse_neg_ok(s, i);
    } else {
        lemma_parse_level_ok(s, i, lvl + 1);
    }
    let first = if lvl >= 4 {
        parse_neg(s, i)
    } else {
        parse_level(s, i, lvl + 1)
    };
    match first {
        Some((e, j)) => {
            crate::ast::lemma_wf_seq_singleton(e);
            lemma_parse_more_ok(s, j, lvl, seq![e]);
        },
        None => {},
    }
}

/// Soundness of `parse_more`.
pub proof fn lemma_parse_more_ok(s: Seq<u8>, i: int, lvl: int, acc: Seq<ExprV>)
    requires
        0 <= i <= s.len(),
        acc.len() >= 1,
        wf_seq_v(acc),
    ensures
        match parse_more(s, i, lvl, acc) {
            Some((e, j)) => i <= j <= s.len() && wf_v(e),
            None => true,
        },
    decreases s.len() - i, lvl_rank(lvl), 0int,
{
    lemma_ws_run(s, i);
    let k = ws_run(s, i);
    let t = op_token(level_op(lvl));
    if token_at(s, k, t) {
        let m = k + t.len() as int;
        if lvl >= 4 {
            lemma_parse_neg_ok(s, m);
        } else {
            lemma_parse_level_ok(s, m, lvl + 1);
        }
        let next = if lvl >= 4 {
            parse_neg(s, m)
        } else {
            parse_level(s, m, lvl + 1)
        };
        match next {
            Some((e, j)) => {
                crate::ast::lemma_wf_seq_push(acc, e);
                lemma_parse_more_ok(s, j, lvl, acc.push(e));
            },
            None => {},
        }
    }
}

/// Soundness of the whole-input entry points: a parsed tree is well formed.
pub proof fn lemma_spec_parse_tier_wf(s: Seq<u8>, lvl: int)
    ensures
        match spec_parse_tier(s, lvl) {
            Some(e) => wf_v(e),
            None => true,
        },
{
    lemma_parse_level_ok(s, 0, lvl);
}

/// Every tree of a parsed file is well formed.
pub proof fn lemma_parse_file_wf(s: Seq<u8>, i: int)
    requires
        0 <= i <= s.len(),
    ensures
        match parse_file_from(s, i) {
            Some(es) => forall|q: int| 0 <= q < es.len() ==> wf_v(#[trigger] es[q]),
            None => true,
        },
    decreases s.len() - i,
{
    if i < s.len() {
        let e_end = line_end(s, i);
        lemma_line_end(s, i);
        if line_skippable(s, i) {
            if e_end < s.len() {
                lemma_parse_file_wf(s, e_end + 1);
            }
        } else {
            lemma_parse_level_ok(s, i, 0);
            match parse_level(s, i, 0) {
                Some((e, j)) => {
                    if ws_run(s, j) == e_end && e_end < s.len() {
                        lemma_parse_file_wf(s, e_end + 1);
                        match parse_file_from(s, e_end + 1) {
                            Some(rest) => {
                                let whole = seq![e] + rest;
                                assert(whole[0] == e);
                                assert(forall|q: int|
                                    1 <= q < whole.len() ==> whole[q] == rest[q - 1]);
                            },
                            None => {},
                        }
                    }
                },
                None => {},
            }
        }
    }
}

/// What the parser looked for at the position a syntax error reports.
#[derive(Clone, Copy, Debug, PartialEq, Eq, Structural)]
pub enum Expected {
    Operand,
    CloseParen,
    CloseSquare,
    CloseCurly,
    EndOfLine,
}

/// A structured parse failure: the line and column (both counted from 1)
/// where parsing stopped, and what was expected there.  Parsing never
/// yields a partial tree beside an error.
#[derive(Clone, Copy, Debug, PartialEq, Eq, Structural)]
pub struct SyntaxError {
    pub line: usize,
    pub col: usize,
    pub expected: Expected,
}

/// Number of newlines strictly before position `p`.
pub open spec fn count_newlines(s: Seq<u8>, p: int) -> int
    decreases p,
{
    if p <= 0 {
        0
    } else {
        count_newlines(s, p - 1) + if 0 <= p - 1 < s.len() && s[p - 1] == B_NL {
            1int
        } else {
            0int
        }
    }
}

/// Start position of the line that holds position `p`.
pub open spec fn line_start(s: Seq<u8>, p: int) -> int
    decreases p,
{
    if p <= 0 {
        0
    } else if 0 <= p - 1 < s.len() && s[p - 1] == B_NL {
        p
    } else {
        line_start(s, p - 1)
    }
}

pub proof fn lemma_line_col_bounds(s: Seq<u8>, p: int)
    requires
        0 <= p,
    ensures
        0 <= count_newlines(s, p) <= p,
        0 <= line_start(s, p) <= p,
    decreases p,
{
    if p > 0 {
        lemma_line_col_bounds(s, p - 1);
    }
}

/// The 1-based line and column of a byte position, capped at the largest
/// machine value.
#[verifier::loop_isolation(false)]
pub fn line_col_of(s: &[u8], p: usize) -> (lc: (usize, usize))
    requires
        p as int <= s@.len(),
    ensures
        lc.0 as int == if 1 + count_newlines(s@, p as int) <= usize::MAX as int {
            1 + count_newlines(s@, p as int)
        } else {
            usize::MAX as int
        },
        lc.1 as int == if 1 + p - line_start(s@, p as int) <= usize::MAX as int {
            1 + p - line_start(s@, p as int)
        } else {
            usize::MAX as int
        },
{
    let mut line: usize = 1;
    let mut start: usize = 0;
    let mut i: usize = 0;
    while i < p
        invariant
            0 <= i <= p,
            start as int == line_start(s@, i as int),
            line as int == if 1 + count_newlines(s@, i as int) <= usize::MAX as int {
                1 + count_newlines(s@, i as int)
            } else {
                usize::MAX as int
            },
        decreases p - i,
    {
        proof {
            lemma_line_col_bounds(s@, i as int);
        }
        if s[i] == B_NL {
            if line < usize::MAX {
                line = line + 1;
            }
            start = i + 1;
        }
        i = i + 1;
    }
    proof {
        lemma_line_col_bounds(s@, p as int);
    }
    let col = if p - start < usize::MAX {
        p - start + 1
    } else {
        usize::MAX
    };
    (line, col)
}

fn is_ws_x(b: u8) -> (r: bool)
    ensures
        r == is_ws(b),
{
    b == B_SPACE || b == B_TAB || b == B_CR
}

fn is_ident_start_x(b: u8) -> (r: bool)
    ensures
        r == is_ident_start(b),
{
    (B_UPPER_A <= b && b <= B_UPPER_Z) || (B_LOWER_A <= b && b <= B_LOWER_Z) || b == B_UNDERSCORE
}

fn is_ident_char_x(b: u8) -> (r: bool)
    ensures
        r == is_ident_char(b),
{
    is_ident_start_x(b) || (B_DIGIT_0 <= b && b <= B_DIGIT_9)
}

#[verifier::loop_isolation(false)]
fn ws_scan(s: &[u8], i: usize) -> (k: usize)
    requires
        i as int <= s@.len(),
    ensures
        k as int == ws_run(s@, i as int),
        i <= k,
        k as int <= s@.len(),
{
    let mut k = i;
    while k < s.len() && is_ws_x(s[k])
        invariant
            i <= k,
            k as int <= s@.len(),
            ws_run(s@, i as int) == ws_run(s@, k as int),
        decreases s@.len() - k,
    {
        k = k + 1;
    }
    k
}

#[verifier::loop_isolation(false)]
fn ident_scan(s: &[u8], i: usize) -> (k: usize)
    requires
        i as int <= s@.len(),
    ensures
        k as int == ident_run(s@, i as int),
        i <= k,
        k as int <= s@.len(),
{
    let mut k = i;
    while k < s.len() && is_ident_char_x(s[k])
        invariant
            i <= k,
            k as int <= s@.len(),
            ident_run(s@, i as int) == ident_run(s@, k as int),
        decreases s@.len() - k,
    {
        k = k + 1;
    }
    k
}

#[verifier::loop_isolation(false)]
fn line_end_scan(s: &[u8], i: usize) -> (k: usize)
    requires
        i as int <= s@.len(),
    ensures
        k as int == line_end(s@, i as int),
        i <= k,
        k as int <= s@.len(),
{
    let mut k = i;
    while k < s.len() && s[k] != B_NL
        invariant
            i <= k,
            k as int <= s@.len(),
            line_end(s@, i as int) == line_end(s@, k as int),
        decreases s@.len() - k,
    {
        k = k + 1;
    }
    k
}

pub proof fn lemma_token_at_chars(s: Seq<u8>, k: int, t: Seq<u8>)
    requires
        0 <= k,
    ensures
        token_at(s, k, t) <==> (k + t.len() <= s.len() && forall|n: int|
            0 <= n < t.len() ==> s[k + n] == #[trigger] t[n]),
{
    if k + t.len() <= s.len() {
        let sub = s.subrange(k, k + t.len() as int);
        if sub == t {
            assert(forall|n: int| 0 <= n < t.len() ==> s[k + n] == sub[n]);
        }
        if forall|n: int| 0 <= n < t.len() ==> s[k + n] == #[trigger] t[n] {
            assert(sub =~= t);
        }
    }
}

/// Does the operator token of tier `lvl` stand at position `k`?
fn token_check(s: &[u8], k: usize, lvl: u8) -> (b: bool)
    requires
        k as int <= s@.len(),
        lvl <= 4,
    ensures
        b == token_at(s@, k as int, op_token(level_op(lvl as int))),
{
    let n = s.len();
    let ghost t = op_token(level_op(lvl as int));
    proof {
        lemma_token_at_chars(s@, k as int, t);
    }
    if lvl == 0 {
        let b = n - k >= 3 && s[k] == B_LT && s[k + 1] == B_DASH && s[k + 2] == B_GT;
        proof {
            assert(t == seq![B_LT, B_DASH, B_GT]);
            assert(t[0] == B_LT && t[1] == B_DASH && t[2] == B_GT);
            if b {
                assert forall|q: int| 0 <= q < t.len() implies s@[k as int + q] == #[trigger] t[q] by {
                    assert(s@[k as int + 0] == B_LT);
                    assert(s@[k as int + 1] == B_DASH);
                    assert(s@[k as int + 2] == B_GT);
                }
            } else if token_at(s@, k as int, t) {
                assert(s@[k as int + 0] == t[0]);
                assert(s@[k as int + 1] == t[1]);
                assert(s@[k as int + 2] == t[2]);
                assert(false);
            }
        }
        b
    } else if lvl == 1 {
        let b = n - k >= 2 && s[k] == B_DASH && s[k + 1] == B_GT;
        proof {
            assert(t == seq![B_DASH, B_GT]);
            assert(t[0] == B_DASH && t[1] == B_GT);
            if b {
                assert forall|q: int| 0 <= q < t.len() implies s@[k as int + q] == #[trigger] t[q] by {
                    assert(s@[k as int + 0] == B_DASH);
                    assert(s@[k as int + 1] == B_GT);
                }
            } else if token_at(s@, k as int, t) {
                assert(s@[k as int + 0] == t[0]);
                assert(s@[k as int + 1] == t[1]);
                assert(false);
            }
        }
        b
    } else {
        let c = if lvl == 2 {
            B_PIPE
        } else if lvl == 3 {
            B_CARET
        } else {
            B_AMP
        };
        let b = n - k >= 1 && s[k] == c;
        proof {
            assert(t == seq![c]);
            assert(t[0] == c);
            if b {
                assert forall|q: int| 0 <= q < t.len() implies s@[k as int + q] == #[trigger] t[q] by {
                    assert(s@[k as int + 0] == c);
                }
            } else if token_at(s@, k as int, t) {
                assert(s@[k as int + 0] == t[0]);
                assert(false);
            }
        }
        b
    }
}

/// Length of the operator token of tier `lvl`.
fn token_len(lvl: u8) -> (n: usize)
    requires
        lvl <= 4,
    ensures
        n as int == op_token(level_op(lvl as int)).len(),
{
    if lvl == 0 {
        3
    } else if lvl == 1 {
        2
    } else {
        1
    }
}

/// The operator of tier `lvl`.
fn tier_op(lvl: u8) -> (op: Op)
    requires
        lvl <= 4,
    ensures
        op == level_op(lvl as int),
{
    if lvl == 0 {
        Op::Iff
    } else if lvl == 1 {
        Op::Implies
    } else if lvl == 2 {
        Op::Or
    } else if lvl == 3 {
        Op::Xor
    } else {
        Op::And
    }
}

/// Executable result against specified outcome: success returns exactly the
/// specified tree and end position; failure happens exactly when the
/// specification refuses.
pub open spec fn res_rel(r: Result<(Expr, usize), (usize, Expected)>, sp: Option<(ExprV, int)>) -> bool {
    match r {
        Ok(p) => sp == Some((view_expr(p.0), p.1 as int)),
        Err(_) => sp is None,
    }
}

fn run_primary(s: &[u8], i: usize) -> (r: Result<(Expr, usize), (usize, Expected)>)
    requires
        i as int <= s@.len(),
    ensures
        res_rel(r, parse_primary_at(s@, i as int)),
    decreases s@.len() - i as int, 0int, 0int,
{
    proof {
        lemma_ws_run(s@, i as int);
    }
    let k = ws_scan(s, i);
    if k < s.len() && is_ident_start_x(s[k]) {
        proof {
            lemma_ident_run(s@, k as int);
        }
        let end = ident_scan(s, k);
        let t = slice_to_vec(slice_subrange(s, k, end));
        Ok((Expr::Atom(t), end))
    } else if k < s.len() && (s[k] == B_LPAREN || s[k] == B_LBRACK || s[k] == B_LBRACE) {
        let open = s[k];
        match run_level(s, k + 1, 0) {
            Ok((inner, j)) => {
                proof {
                    lemma_parse_level_ok(s@, k as int + 1, 0);
                }
                let k2 = ws_scan(s, j);
                let close = if open == B_LPAREN {
                    B_RPAREN
                } else if open == B_LBRACK {
                    B_RBRACK
                } else {
                    B_RBRACE
                };
                if k2 < s.len() && s[k2] == close {
                    Ok((Expr::Group(Box::new(inner)), k2 + 1))
                } else {
                    let exp = if open == B_LPAREN {
                        Expected::CloseParen
                    } else if open == B_LBRACK {
                        Expected::CloseSquare
                    } else {
                        Expected::CloseCurly
                    };
                    Err((k2, exp))
                }
            },
            Err(er) => Err(er),
        }
    } else {
        Err((k, Expected::Operand))
    }
}

fn run_neg(s: &[u8], i: usize) -> (r: Result<(Expr, usize), (usize, Expected)>)
    requires
        i as int <= s@.len(),
    ensures
        res_rel(r, parse_neg(s@, i as int)),
    decreases s@.len() - i as int, 1int, 0int,
{
    proof {
        lemma_ws_run(s@, i as int);
    }
    let k = ws_scan(s, i);
    if k < s.len() && s[k] == B_BANG {
        match run_neg(s, k + 1) {
            Ok((inner, j)) => Ok((Expr::Not(Box::new(inner)), j)),
            Err(er) => Err(er),
        }
    } else {
        run_primary(s, i)
    }
}

fn run_level(s: &[u8], i: usize, lvl: u8) -> (r: Result<(Expr, usize), (usize, Expected)>)
    requires
        i as int <= s@.len(),
        lvl <= 4,
    ensures
        res_rel(r, parse_level(s@, i as int, lvl as int)),
    decreases s@.len() - i as int, lvl_rank(lvl as int), 1int,
{
    let first = if lvl >= 4 {
        run_neg(s, i)
    } else {
        run_level(s, i, lvl + 1)
    };
    match first {
        Ok((e, j)) => {
            proof {
                if lvl >= 4 {
                    lemma_parse_neg_ok(s@, i as int);
                } else {
                    lemma_parse_level_ok(s@, i as int, lvl as int + 1);
                }
                lemma_view_expr_seq_singleton(e);
            }
            let mut acc: Vec<Expr> = Vec::new();
            acc.push(e);
            assert(acc@ =~= seq![e]);
            run_more(s, j, lvl, acc)
        },
        Err(er) => Err(er),
    }
}

fn run_more(s: &[u8], i: usize, lvl: u8, acc: Vec<Expr>) -> (r: Result<(Expr, usize), (usize, Expected)>)
    requires
        i as int <= s@.len(),
        lvl <= 4,
        acc@.len() >= 1,
    ensures
        res_rel(r, parse_more(s@, i as int, lvl as int, view_expr_seq(acc@))),
    decreases s@.len() - i as int, lvl_rank(lvl as int), 0int,
{
    proof {
        lemma_ws_run(s@, i as int);
        lemma_view_expr_seq_index(acc@);
    }
    let k = ws_scan(s, i);
    if token_check(s, k, lvl) {
        let tl = token_len(lvl);
        let n = s.len();
        assert(k as int + tl as int <= n as int);
        let m = k + tl;
        let next = if lvl >= 4 {
            run_neg(s, m)
        } else {
            run_level(s, m, lvl + 1)
        };
        match next {
            Ok((e, j)) => {
                proof {
                    if lvl >= 4 {
                        lemma_parse_neg_ok(s@, m as int);
                    } else {
                        lemma_parse_level_ok(s@, m as int, lvl as int + 1);
                    }
                    lemma_view_expr_seq_push(acc@, e);
                }
                let mut acc2 = acc;
                acc2.push(e);
                run_more(s, j, lvl, acc2)
            },
            Err(er) => Err(er),
        }
    } else if acc.len() == 1 {
        let mut acc2 = acc;
        match acc2.pop() {
            Some(e) => Ok((e, i)),
            None => Err((i, Expected::Operand)),
        }
    } else {
        let op = tier_op(lvl);
        Ok((Expr::Binary(op, acc), i))
    }
}

pub proof fn lemma_line_end(s: Seq<u8>, i: int)
    requires
        0 <= i <= s.len(),
    ensures
        i <= line_end(s, i) <= s.len(),
        line_end(s, i) < s.len() ==> s[line_end(s, i)] == B_NL,
        forall|n: int| i <= n < line_end(s, i) ==> #[trigger] s[n] != B_NL,
    decreases s.len() - i,
{
    if i < s.len() && s[i] != B_NL {
        lemma_line_end(s, i + 1);
    }
}

/// Builds a syntax error for a failure at byte position `pos`.
fn build_error(src: &[u8], pos: usize, expected: Expected) -> (e: SyntaxError)
    ensures
        e.expected == expected,
{
    let p = if pos <= src.len() {
        pos
    } else {
        src.len()
    };
    let lc = line_col_of(src, p);
    SyntaxError { line: lc.0, col: lc.1, expected }
}

fn run_tier_complete(src: &[u8], lvl: u8) -> (r: Result<Expr, SyntaxError>)
    requires
        lvl <= 4,
    ensures
        r matches Ok(e) ==> spec_parse_tier(src@, lvl as int) == Some(view_expr(e)),
        r matches Ok(e) ==> wf_v(view_expr(e)),
        r is Err ==> spec_parse_tier(src@, lvl as int) is None,
{
    proof {
        lemma_spec_parse_tier_wf(src@, lvl as int);
    }
    match run_level(src, 0, lvl) {
        Ok((e, j)) => {
            proof {
                lemma_parse_level_ok(src@, 0, lvl as int);
            }
            let k = ws_scan(src, j);
            if k == src.len() {
                Ok(e)
            } else {
                Err(build_error(src, k, Expected::EndOfLine))
            }
        },
        Err(pe) => Err(build_error(src, pe.0, pe.1)),
    }
}

/// Parses a whole input as one expression: the full precedence chain from
/// `<->` down.  Succeeds, returning the specified tree, exactly when the
/// grammar accepts the whole input; otherwise reports a syntax error and
/// no tree at all.
pub fn parse_expression(src: &[u8]) -> (r: Result<Expr, SyntaxError>)
    ensures
        r matches Ok(e) ==> spec_parse_expression(src@) == Some(view_expr(e)),
        r matches Ok(e) ==> wf_v(view_expr(e)),
        r is Err ==> spec_parse_expression(src@) is None,
{
    run_tier_complete(src, 0)
}

/// Parses a whole input at the `implication` tier (`->` and tighter).
pub fn parse_implication(src: &[u8]) -> (r: Result<Expr, SyntaxError>)
    ensures
        r matches Ok(e) ==> spec_parse_tier(src@, 1) == Some(view_expr(e)),
        r matches Ok(e) ==> wf_v(view_expr(e)),
        r is Err ==> spec_parse_tier(src@, 1) is None,
{
    run_tier_complete(src, 1)
}

/// Parses a whole input at the `or` tier (`|` and tighter).
pub fn parse_or(src: &[u8]) -> (r: Result<Expr, SyntaxError>)
    ensures
        r matches Ok(e) ==> spec_parse_tier(src@, 2) == Some(view_expr(e)),
        r matches Ok(e) ==> wf_v(view_expr(e)),
        r is Err ==> spec_parse_tier(src@, 2) is None,
{
    run_tier_complete(src, 2)
}

/// Parses a whole input at the `xor` tier (`^` and tighter).
pub fn parse_xor(src: &[u8]) -> (r: Result<Expr, SyntaxError>)
    ensures
        r matches Ok(e) ==> spec_parse_tier(src@, 3) == Some(view_expr(e)),
        r matches Ok(e) ==> wf_v(view_expr(e)),
        r is Err ==> spec_parse_tier(src@, 3) is None,
{
    run_tier_complete(src, 3)
}

/// Parses a whole input at the `and` tier (`&` and tighter).
pub fn parse_and(src: &[u8]) -> (r: Result<Expr, SyntaxError>)
    ensures
        r matches Ok(e) ==> spec_parse_tier(src@, 4) == Some(view_expr(e)),
        r matches Ok(e) ==> wf_v(view_expr(e)),
        r is Err ==> spec_parse_tier(src@, 4) is None,
{
    run_tier_complete(src, 4)
}

/// Parses a whole input as a `negation` (`!`-stacked primary).
pub fn parse_negation(src: &[u8]) -> (r: Result<Expr, SyntaxError>)
    ensures
        r matches Ok(e) ==> spec_parse_negation(src@) == Some(view_expr(e)),
        r matches Ok(e) ==> wf_v(view_expr(e)),
        r is Err ==> spec_parse_negation(src@) is None,
{
    match run_neg(src, 0) {
        Ok((e, j)) => {
            proof {
                lemma_parse_neg_ok(src@, 0);
            }
            let k = ws_scan(src, j);
            if k == src.len() {
                Ok(e)
            } else {
                Err(build_error(src, k, Expected::EndOfLine))
            }
        },
        Err(pe) => Err(build_error(src, pe.0, pe.1)),
    }
}

/// Parses a whole input as one `primary`: an atom or a bracketed group.
pub fn parse_primary(src: &[u8]) -> (r: Result<Expr, SyntaxError>)
    ensures
        r matches Ok(e) ==> spec_parse_primary(src@) == Some(view_expr(e)),
        r matches Ok(e) ==> wf_v(view_expr(e)),
        r is Err ==> spec_parse_primary(src@) is None,
{
    match run_primary(src, 0) {
        Ok((e, j)) => {
            proof {
                lemma_parse_primary_at_ok(src@, 0);
            }
            let k = ws_scan(src, j);
            if k == src.len() {
                Ok(e)
            } else {
                Err(build_error(src, k, Expected::EndOfLine))
            }
        },
        Err(pe) => Err(build_error(src, pe.0, pe.1)),
    }
}

/// Parses a whole input as one `atom`: an identifier or `true`/`false`.
pub fn parse_atom(src: &[u8]) -> (r: Result<Expr, SyntaxError>)
    ensures
        r matches Ok(e) ==> spec_parse_atom(src@) == Some(view_expr(e)),
        r matches Ok(e) ==> wf_v(view_expr(e)),
        r is Err ==> spec_parse_atom(src@) is None,
{
    proof {
        lemma_ws_run(src@, 0);
    }
    let k = ws_scan(src, 0);
    if k < src.len() && is_ident_start_x(src[k]) {
        proof {
            lemma_ident_run(src@, k as int);
        }
        let end = ident_scan(src, k);
        let t = slice_to_vec(slice_subrange(src, k, end));
        let k2 = ws_scan(src, end);
        if k2 == src.len() {
            Ok(Expr::Atom(t))
        } else {
            Err(build_error(src, k2, Expected::EndOfLine))
        }
    } else {
        Err(build_error(src, k, Expected::Operand))
    }
}

fn run_file_from(s: &[u8], i: usize) -> (r: Result<Vec<Expr>, (usize, Expected)>)
    requires
        i as int <= s@.len(),
    ensures
        r matches Ok(es) ==> parse_file_from(s@, i as int) == Some(view_expr_seq(es@)),
        r is Err ==> parse_file_from(s@, i as int) is None,
    decreases s@.len() - i as int,
{
    let n = s.len();
    if i == n {
        let v: Vec<Expr> = Vec::new();
        assert(view_expr_seq(v@) =~= Seq::<ExprV>::empty());
        Ok(v)
    } else {
        proof {
            lemma_line_end(s@, i as int);
            lemma_ws_run(s@, i as int);
        }
        let e_end = line_end_scan(s, i);
        let k = ws_scan(s, i);
        let skip = k == e_end || (n - k >= 2 && s[k] == B_SLASH && s[k + 1] == B_SLASH);
        assert(skip == line_skippable(s@, i as int));
        if skip {
            if e_end < n {
                run_file_from(s, e_end + 1)
            } else {
                let v: Vec<Expr> = Vec::new();
                assert(view_expr_seq(v@) =~= Seq::<ExprV>::empty());
                Ok(v)
            }
        } else {
            match run_level(s, i, 0) {
                Ok((e, j)) => {
                    proof {
                        lemma_parse_level_ok(s@, i as int, 0);
                    }
                    let k2 = ws_scan(s, j);
                    if k2 == e_end {
                        if e_end < n {
                            match run_file_from(s, e_end + 1) {
                                Ok(rest) => {
                                    let ghost rest0 = rest@;
                                    let mut v = rest;
                                    v.insert(0, e);
                                    proof {
                                        assert(v@ =~= seq![e] + rest0);
                                        lemma_view_expr_seq_index(v@);
                                        lemma_view_expr_seq_index(rest0);
                                        let lhs = view_expr_seq(v@);
                                        let rhs = seq![view_expr(e)] + view_expr_seq(rest0);
                                        assert forall|q: int| 0 <= q < lhs.len() implies lhs[q]
                                            == rhs[q] by {
                                            assert(lhs[q] == view_expr(v@[q]));
                                            if q == 0 {
                                                assert(v@[0] == e);
                                            } else {
                                                assert(v@[q] == rest0[q - 1]);
                                                assert(view_expr_seq(rest0)[q - 1] == view_expr(
                                                    rest0[q - 1],
                                                ));
                                                assert(rhs[q] == view_expr_seq(rest0)[q - 1]);
                                            }
                                        }
                                        assert(lhs =~= rhs);
                                    }
                                    Ok(v)
                                },
                                Err(er) => Err(er),
                            }
                        } else {
                            let mut v: Vec<Expr> = Vec::new();
                            v.push(e);
                            proof {
                                lemma_view_expr_seq_singleton(e);
                                assert(v@ =~= seq![e]);
                            }
                            Ok(v)
                        }
                    } else {
                        Err((k2, Expected::EndOfLine))
                    }
                },
                Err(er) => Err(er),
            }
        }
    }
}

/// Parses multi-line input as a file: one expression per line, in source
/// order; blank and `//` comment lines are skipped.  The first failing
/// line refuses the whole file with a syntax error carrying its position.
pub fn parse_file(src: &[u8]) -> (r: Result<Vec<Expr>, SyntaxError>)
    ensures
        r matches Ok(es) ==> spec_parse_file(src@) == Some(view_expr_seq(es@)),
        r matches Ok(es) ==> forall|q: int|
            0 <= q < es@.len() ==> wf_v(#[trigger] view_expr_seq(es@)[q]),
        r is Err ==> spec_parse_file(src@) is None,
{
    match run_file_from(src, 0) {
        Ok(v) => {
            proof {
                lemma_parse_file_wf(src@, 0);
                lemma_view_expr_seq_index(v@);
                assert(parse_file_from(src@, 0) == Some(view_expr_seq(v@)));
                let es2 = view_expr_seq(v@);
                assert forall|q: int| 0 <= q < es2.len() implies wf_v(#[trigger] es2[q]) by {
                    match parse_file_from(src@, 0) {
                        Some(es) => {
                            assert(wf_v(es[q]));
                            assert(es == es2);
                        },
                        None => {
                            assert(false);
                        },
                    }
                }
            }
            Ok(v)
        },
        Err(pe) => Err(build_error(src, pe.0, pe.1)),
    }
}

} // verus!
