//! The library's laws, stated and proved over the specification model.
//!
//! The central results: parsing the canonical rendering of any well-formed
//! tree succeeds and consumes the whole string; the re-parsed tree carries
//! the same left-to-right atom sequence; and canonicalizing it again gives
//! the identical string.

use vstd::prelude::*;

use crate::ast::{
    atom_seq_list, atom_seq_v, atom_text_ok, close_delim_of, is_ident_char, is_ident_start,
    is_open_delim, is_ws, lemma_wf_seq_index, lemma_wf_seq_parts, level_op, op_first, op_level,
    op_token, wf_seq_v, wf_v, ExprV, Op, B_BANG, B_LPAREN, B_RPAREN, B_SPACE,
};
use crate::parser::{
    lemma_ident_run_exact, lemma_parse_level_ok, lemma_parse_neg_ok, lemma_token_at_chars,
    lemma_ws_run, lemma_ws_run_exact, parse_level, parse_more, parse_neg, parse_primary_at,
    parsed_all, spec_parse_atom, spec_parse_expression, token_at, ws_run,
};
use crate::render::{spec_canon, spec_canon_list};

verus! {

/// The tree that re-parsing a canonical rendering produces: groups vanish
/// and re-grow around each explicit parenthesis pair, so an n-ary node
/// re-appears as a left-nested chain of two-operand nodes.
pub open spec fn reparse_of(e: ExprV) -> ExprV
    decreases e, 0int,
{
    match e {
        ExprV::Atom(t) => ExprV::Atom(t),
        ExprV::Not(x) => ExprV::Not(Box::new(reparse_of(*x))),
        ExprV::Group(x) => reparse_of(*x),
        ExprV::Binary(op, es) => reparse_list(op, es),
    }
}

pub open spec fn reparse_list(op: Op, es: Seq<ExprV>) -> ExprV
    decreases es, 1int,
{
    if es.len() == 0 {
        ExprV::Atom(Seq::empty())
    } else if es.len() == 1 {
        reparse_of(es[0])
    } else {
        ExprV::Group(
            Box::new(
                ExprV::Binary(
                    op,
                    seq![reparse_list(op, es.drop_last()), reparse_of(es.last())],
                ),
            ),
        )
    }
}

/// Re-parsing the canonical form preserves the atom sequence.
pub proof fn lemma_reparse_atoms(e: ExprV)
    requires
        wf_v(e),
    ensures
        atom_seq_v(reparse_of(e)) == atom_seq_v(e),
    decreases e, 0int,
{
    match e {
        ExprV::Atom(t) => {},
        ExprV::Not(x) => {
            lemma_reparse_atoms(*x);
        },
        ExprV::Group(x) => {
            lemma_reparse_atoms(*x);
        },
        ExprV::Binary(op, es) => {
            lemma_reparse_list_atoms(op, es);
        },
    }
}

pub proof fn lemma_reparse_list_atoms(op: Op, es: Seq<ExprV>)
    requires
        es.len() >= 1,
        wf_seq_v(es),
    ensures
        atom_seq_v(reparse_list(op, es)) == atom_seq_list(es),
    decreases es, 1int,
{
    lemma_wf_seq_parts(es);
    if es.len() == 1 {
        lemma_reparse_atoms(es[0]);
        assert(es.last() == es[0]);
        assert(es.drop_last() =~= Seq::<ExprV>::empty());
        assert(atom_seq_list(es) == atom_seq_list(es.drop_last()) + atom_seq_v(es.last()));
        assert(atom_seq_list(Seq::<ExprV>::empty()) =~= Seq::<Seq<u8>>::empty());
        assert(atom_seq_list(es) =~= atom_seq_v(es[0]));
    } else {
        lemma_reparse_list_atoms(op, es.drop_last());
        lemma_reparse_atoms(es.last());
        let a = reparse_list(op, es.drop_last());
        let b = reparse_of(es.last());
        let pair = seq![a, b];
        assert(pair.drop_last() =~= seq![a]);
        assert(pair.last() == b);
        assert(seq![a].drop_last() =~= Seq::<ExprV>::empty());
        assert(seq![a].last() == a);
        assert(atom_seq_list(Seq::<ExprV>::empty()) =~= Seq::<Seq<u8>>::empty());
        assert(atom_seq_list(seq![a]) =~= atom_seq_v(a));
        let binv = ExprV::Binary(op, pair);
        assert(reparse_list(op, es) == ExprV::Group(Box::new(binv)));
        assert(atom_seq_v(binv) == atom_seq_list(pair));
        assert(atom_seq_v(reparse_list(op, es)) == atom_seq_v(binv));
        assert(atom_seq_list(pair) =~= atom_seq_v(a) + atom_seq_v(b));
        assert(atom_seq_v(a) + atom_seq_v(b) =~= atom_seq_list(es));
    }
}

/// Re-parsing the canonical form preserves the canonical rendering itself.
pub proof fn lemma_reparse_canon(e: ExprV)
    requires
        wf_v(e),
    ensures
        spec_canon(reparse_of(e)) == spec_canon(e),
    decreases e, 0int,
{
    match e {
        ExprV::Atom(t) => {},
        ExprV::Not(x) => {
            lemma_reparse_canon(*x);
        },
        ExprV::Group(x) => {
            lemma_reparse_canon(*x);
        },
        ExprV::Binary(op, es) => {
            lemma_reparse_list_canon(op, es);
        },
    }
}

pub proof fn lemma_reparse_list_canon(op: Op, es: Seq<ExprV>)
    requires
        es.len() >= 1,
        wf_seq_v(es),
    ensures
        spec_canon(reparse_list(op, es)) == spec_canon_list(op, es),
    decreases es, 1int,
{
    lemma_wf_seq_parts(es);
    if es.len() == 1 {
        lemma_reparse_canon(es[0]);
        assert(es.last() == es[0]);
    } else {
        lemma_reparse_list_canon(op, es.drop_last());
        lemma_reparse_canon(es.last());
        let a = reparse_list(op, es.drop_last());
        let b = reparse_of(es.last());
        let pair = seq![a, b];
        assert(pair.drop_last() =~= seq![a]);
        assert(pair.last() == b);
        assert(seq![a].len() == 1 && seq![a][0] == a);
        assert(spec_canon_list(op, seq![a]) == spec_canon(a));
        let binv = ExprV::Binary(op, pair);
        assert(reparse_list(op, es) == ExprV::Group(Box::new(binv)));
        assert(spec_canon(binv) == spec_canon_list(op, pair));
        assert(spec_canon(reparse_list(op, es)) == spec_canon(binv));
    }
}

/// Well-formed atom text parses, on its own, to exactly that atom.
pub proof fn lemma_atom_round_trip(t: Seq<u8>)
    requires
        atom_text_ok(t),
    ensures
        spec_parse_atom(t) == Some(ExprV::Atom(t)),
{
    assert(!is_ws(t[0]));
    lemma_ws_run_exact(t, 0, 0);
    lemma_ident_run_exact(t, 0, t.len() as int);
    assert(t.subrange(0, t.len() as int) =~= t);
    lemma_ws_run_exact(t, t.len() as int, t.len() as int);
}

/// The text `t` stands in `s` at position `i`.
pub open spec fn sub_at(s: Seq<u8>, i: int, t: Seq<u8>) -> bool {
    &&& 0 <= i
    &&& i + t.len() <= s.len()
    &&& forall|n: int| 0 <= n < t.len() ==> s[i + n] == #[trigger] t[n]
}

/// Position `j` cannot extend an atom: end of input or a non-identifier byte.
pub open spec fn atom_stop(s: Seq<u8>, j: int) -> bool {
    j == s.len() || !is_ident_char(s[j])
}

/// After `j`, no operator token of tier `lvl` or any tighter tier starts.
pub open spec fn no_tier_token(s: Seq<u8>, j: int, lvl: int) -> bool {
    ws_run(s, j) == s.len() || (forall|l: int|
        lvl <= l <= 4 ==> s[ws_run(s, j)] != op_first(#[trigger] level_op(l)))
}

pub proof fn lemma_sub_split(s: Seq<u8>, i: int, t1: Seq<u8>, t2: Seq<u8>)
    requires
        sub_at(s, i, t1 + t2),
    ensures
        sub_at(s, i, t1),
        sub_at(s, i + t1.len(), t2),
{
    let t = t1 + t2;
    assert forall|n: int| 0 <= n < t1.len() implies s[i + n] == #[trigger] t1[n] by {
        assert(t[n] == t1[n]);
        assert(s[i + n] == t[n]);
    }
    assert forall|n: int| 0 <= n < t2.len() implies s[i + t1.len() + n] == #[trigger] t2[n] by {
        assert(t[t1.len() + n] == t2[n]);
        assert(s[i + (t1.len() + n)] == t[t1.len() + n]);
    }
}

/// The canonical rendering of a well-formed tree is non-empty and starts
/// with an identifier character, `!`, or `(` -- never with whitespace.
pub proof fn lemma_canon_shape(e: ExprV)
    requires
        wf_v(e),
    ensures
        spec_canon(e).len() >= 1,
        is_ident_start(spec_canon(e)[0]) || spec_canon(e)[0] == B_BANG || spec_canon(e)[0]
            == B_LPAREN,
        !is_ws(spec_canon(e)[0]),
        spec_canon(e)[0] != B_BANG && spec_canon(e)[0] != B_LPAREN ==> is_ident_start(
            spec_canon(e)[0],
        ),
    decreases e, 0int,
{
    match e {
        ExprV::Atom(t) => {},
        ExprV::Not(x) => {
            lemma_canon_shape(*x);
            assert((seq![B_BANG] + spec_canon(*x))[0] == B_BANG);
        },
        ExprV::Group(x) => {
            lemma_canon_shape(*x);
        },
        ExprV::Binary(op, es) => {
            lemma_canon_list_shape(op, es);
        },
    }
}

pub proof fn lemma_canon_list_shape(op: Op, es: Seq<ExprV>)
    requires
        es.len() >= 1,
        wf_seq_v(es),
    ensures
        spec_canon_list(op, es).len() >= 1,
        is_ident_start(spec_canon_list(op, es)[0]) || spec_canon_list(op, es)[0] == B_BANG
            || spec_canon_list(op, es)[0] == B_LPAREN,
        !is_ws(spec_canon_list(op, es)[0]),
    decreases es, 1int,
{
    lemma_wf_seq_parts(es);
    if es.len() == 1 {
        assert(es[0] == es.last());
        lemma_canon_shape(es[0]);
    } else {
        let rest = spec_canon_list(op, es.drop_last()) + seq![B_SPACE] + op_token(op)
            + seq![B_SPACE] + spec_canon(es.last()) + seq![B_RPAREN];
        assert(spec_canon_list(op, es) == seq![B_LPAREN] + rest);
        assert((seq![B_LPAREN] + rest)[0] == B_LPAREN);
    }
}

/// The inner text of a parenthesized combination step: left part, the
/// operator token with one space either side, right operand.
pub open spec fn inner_text(op: Op, es: Seq<ExprV>) -> Seq<u8> {
    spec_canon_list(op, es.drop_last()) + seq![B_SPACE] + op_token(op) + seq![B_SPACE]
        + spec_canon(es.last())
}

pub proof fn lemma_canon_list_unfold(op: Op, es: Seq<ExprV>)
    requires
        es.len() >= 2,
    ensures
        spec_canon_list(op, es) == seq![B_LPAREN] + inner_text(op, es) + seq![B_RPAREN],
{
    assert(spec_canon_list(op, es) =~= seq![B_LPAREN] + inner_text(op, es) + seq![B_RPAREN]);
}

/// A continuation loop that sees no operator token of its own tier stops
/// and returns its accumulated operands.
pub proof fn lemma_more_stops(s: Seq<u8>, j: int, lvl: int, acc: Seq<ExprV>)
    requires
        0 <= j <= s.len(),
        acc.len() >= 1,
        ws_run(s, j) == s.len() || s[ws_run(s, j)] != op_first(level_op(lvl)),
    ensures
        parse_more(s, j, lvl, acc) == if acc.len() == 1 {
            Some((acc[0], j))
        } else {
            Some((ExprV::Binary(level_op(lvl), acc), j))
        },
{
    lemma_ws_run(s, j);
    let k = ws_run(s, j);
    let t = op_token(level_op(lvl));
    assert(t[0] == op_first(level_op(lvl)));
    if token_at(s, k, t) {
        lemma_token_at_chars(s, k, t);
        assert(s[k + 0] == t[0]);
        assert(t.len() >= 1);
        assert(k < s.len());
        assert(false);
    }
}

/// Leading whitespace is transparent to the primary parser.
pub proof fn lemma_primary_ws_shift(s: Seq<u8>, a: int, b: int)
    requires
        0 <= a <= s.len(),
        0 <= b <= s.len(),
        ws_run(s, a) == ws_run(s, b),
    ensures
        parse_primary_at(s, a) == parse_primary_at(s, b),
{
    lemma_ws_run(s, a);
    lemma_ws_run(s, b);
}

/// Leading whitespace is transparent to the negation parser.
pub proof fn lemma_neg_ws_shift(s: Seq<u8>, a: int, b: int)
    requires
        0 <= a <= s.len(),
        0 <= b <= s.len(),
        ws_run(s, a) == ws_run(s, b),
    ensures
        parse_neg(s, a) == parse_neg(s, b),
{
    lemma_ws_run(s, a);
    lemma_ws_run(s, b);
    lemma_primary_ws_shift(s, a, b);
}

/// A parsed negation passes unchanged through every looser binary tier
/// when no operator token of those tiers follows it.
pub proof fn lemma_lift(s: Seq<u8>, i: int, lvl: int, e: ExprV, j: int)
    requires
        0 <= i <= s.len(),
        0 <= lvl <= 4,
        0 <= j <= s.len(),
        parse_neg(s, i) == Some((e, j)),
        no_tier_token(s, j, lvl),
    ensures
        parse_level(s, i, lvl) == Some((e, j)),
    decreases 4 - lvl,
{
    lemma_parse_neg_ok(s, i);
    lemma_ws_run(s, j);
    assert(ws_run(s, j) == s.len() || s[ws_run(s, j)] != op_first(level_op(lvl)));
    lemma_more_stops(s, j, lvl, seq![e]);
    assert(seq![e][0] == e);
    if lvl == 4 {
        assert(parse_level(s, i, lvl) == Some((e, j)));
    } else {
        lemma_lift(s, i, lvl + 1, e, j);
        assert(parse_level(s, i, lvl) == Some((e, j)));
    }
}

/// Parsing a canonical rendering at the `negation` tier succeeds, consumes
/// exactly the rendering, and yields its re-parse tree.
pub proof fn lemma_canon_parses_neg(e: ExprV, s: Seq<u8>, i: int)
    requires
        wf_v(e),
        sub_at(s, i, spec_canon(e)),
        atom_stop(s, i + spec_canon(e).len()),
    ensures
        parse_neg(s, i) == Some((reparse_of(e), i + spec_canon(e).len())),
    decreases e, 0int,
{
    lemma_canon_shape(e);
    let c = spec_canon(e);
    let j = i + c.len() as int;
    assert(s[i + 0] == c[0]);
    assert(!is_ws(s[i]));
    lemma_ws_run_exact(s, i, i);
    match e {
        ExprV::Atom(t) => {
            assert(c == t);
            assert(is_ident_start(s[i]));
            assert(s[i] != B_BANG);
            assert forall|n: int| i <= n < j implies is_ident_char(#[trigger] s[n]) by {
                assert(s[i + (n - i)] == t[n - i]);
            }
            lemma_ident_run_exact(s, i, j);
            assert(s.subrange(i, j) =~= t);
            assert(parse_primary_at(s, i) == Some((ExprV::Atom(t), j)));
            assert(parse_neg(s, i) == Some((ExprV::Atom(t), j)));
        },
        ExprV::Not(x) => {
            assert(c == seq![B_BANG] + spec_canon(*x));
            assert(c[0] == B_BANG);
            lemma_sub_split(s, i, seq![B_BANG], spec_canon(*x));
            lemma_canon_parses_neg(*x, s, i + 1);
            assert(parse_neg(s, i + 1) == Some((reparse_of(*x), j)));
            assert(parse_neg(s, i) == Some((ExprV::Not(Box::new(reparse_of(*x))), j)));
        },
        ExprV::Group(x) => {
            lemma_canon_parses_neg(*x, s, i);
        },
        ExprV::Binary(op, es) => {
            lemma_canon_list_unfold(op, es);
            let itx = inner_text(op, es);
            assert(c == seq![B_LPAREN] + itx + seq![B_RPAREN]);
            lemma_sub_split(s, i, seq![B_LPAREN] + itx, seq![B_RPAREN]);
            lemma_sub_split(s, i, seq![B_LPAREN], itx);
            let jm = i + 1 + itx.len() as int;
            assert(s[i + 0] == (seq![B_LPAREN] + itx)[0]);
            assert(s[i] == B_LPAREN);
            assert(s[jm + 0] == seq![B_RPAREN][0]);
            assert(s[jm] == B_RPAREN);
            assert(jm + 1 == j);
            lemma_canon_list_parses(op, es, s, i + 1, 0);
            let bin = ExprV::Binary(
                op,
                seq![reparse_list(op, es.drop_last()), reparse_of(es.last())],
            );
            assert(parse_level(s, i + 1, 0) == Some((bin, jm)));
            assert(!is_ws(B_RPAREN));
            lemma_ws_run_exact(s, jm, jm);
            assert(s[i] != B_BANG);
            assert(is_open_delim(s[i]));
            assert(close_delim_of(s[i]) == B_RPAREN);
            assert(parse_primary_at(s, i) == Some((ExprV::Group(Box::new(bin)), j)));
            assert(reparse_of(e) == reparse_list(op, es));
            assert(reparse_list(op, es) == ExprV::Group(Box::new(bin)));
            assert(parse_neg(s, i) == Some((reparse_of(e), j)));
        },
    }
}

/// Parsing the inner text of a combination step at any tier from `lvl`
/// down to the operator's own tier yields the two-operand node.
pub proof fn lemma_canon_list_parses(op: Op, es: Seq<ExprV>, s: Seq<u8>, i: int, lvl: int)
    requires
        es.len() >= 2,
        wf_seq_v(es),
        0 <= lvl <= op_level(op),
        sub_at(s, i, inner_text(op, es)),
        i + inner_text(op, es).len() < s.len(),
        s[i + inner_text(op, es).len()] == B_RPAREN,
    ensures
        parse_level(s, i, lvl) == Some((
            ExprV::Binary(op, seq![reparse_list(op, es.drop_last()), reparse_of(es.last())]),
            i + inner_text(op, es).len(),
        )),
    decreases es, op_level(op) - lvl,
{
    let itx = inner_text(op, es);
    let jin = i + itx.len() as int;
    let front = es.drop_last();
    let last = es.last();
    lemma_wf_seq_parts(es);
    lemma_wf_seq_index(es);
    let ftext = spec_canon_list(op, front);
    let tok = op_token(op);
    let tl = tok.len() as int;
    let p = i + ftext.len() as int;
    let m1 = p + 2 + tl;
    lemma_sub_split(s, i, ftext + seq![B_SPACE] + tok + seq![B_SPACE], spec_canon(last));
    lemma_sub_split(s, i, ftext + seq![B_SPACE] + tok, seq![B_SPACE]);
    lemma_sub_split(s, i, ftext + seq![B_SPACE], tok);
    lemma_sub_split(s, i, ftext, seq![B_SPACE]);
    assert(sub_at(s, p, seq![B_SPACE]));
    assert(sub_at(s, p + 1, tok));
    assert(sub_at(s, p + 1 + tl, seq![B_SPACE]));
    assert(sub_at(s, m1, spec_canon(last)));
    assert(s[p + 0] == seq![B_SPACE][0]);
    assert(s[p] == B_SPACE);
    assert(s[p + 1 + tl + 0] == seq![B_SPACE][0]);
    assert(s[p + 1 + tl] == B_SPACE);
    assert(jin == m1 + spec_canon(last).len());

    lemma_canon_list_shape(op, front);
    lemma_canon_shape(last);

    // First operand: the left part parses as a negation to `fe`.
    let fe = reparse_list(op, front);
    if front.len() == 1 {
        assert(front[0] == es[0]);
        assert(wf_v(es[0]));
        assert(ftext == spec_canon(front[0]));
        assert(fe == reparse_of(front[0]));
        assert(s[p] == B_SPACE);
        assert(!is_ident_char(B_SPACE));
        assert(atom_stop(s, i + spec_canon(front[0]).len()));
        lemma_canon_parses_neg(front[0], s, i);
        assert(parse_neg(s, i) == Some((fe, p)));
    } else {
        lemma_canon_list_unfold(op, front);
        let itf = inner_text(op, front);
        assert(ftext == seq![B_LPAREN] + itf + seq![B_RPAREN]);
        lemma_sub_split(s, i, seq![B_LPAREN] + itf, seq![B_RPAREN]);
        lemma_sub_split(s, i, seq![B_LPAREN], itf);
        let pm = i + 1 + itf.len() as int;
        assert(pm + 1 == p);
        assert(s[i + 0] == (seq![B_LPAREN] + itf)[0]);
        assert(s[i] == B_LPAREN);
        assert(s[pm + 0] == seq![B_RPAREN][0]);
        assert(s[pm] == B_RPAREN);
        lemma_canon_list_parses(op, front, s, i + 1, 0);
        let binf = ExprV::Binary(
            op,
            seq![reparse_list(op, front.drop_last()), reparse_of(front.last())],
        );
        assert(parse_level(s, i + 1, 0) == Some((binf, pm)));
        assert(!is_ws(B_LPAREN));
        lemma_ws_run_exact(s, i, i);
        assert(!is_ws(B_RPAREN));
        lemma_ws_run_exact(s, pm, pm);
        assert(s[i] != B_BANG);
        assert(is_open_delim(s[i]));
        assert(close_delim_of(s[i]) == B_RPAREN);
        assert(parse_primary_at(s, i) == Some((ExprV::Group(Box::new(binf)), p)));
        assert(fe == ExprV::Group(Box::new(binf)));
        assert(parse_neg(s, i) == Some((fe, p)));
    }

    // Whitespace and token layout around the operator.
    assert(s[p + 1 + 0] == tok[0]);
    assert(tok[0] == op_first(op));
    assert(!is_ws(op_first(op)));
    lemma_ws_run_exact(s, p, p + 1);
    assert(s[m1 + 0] == spec_canon(last)[0]);
    assert(!is_ws(s[m1]));
    lemma_ws_run_exact(s, p + 1 + tl, m1);
    lemma_ws_run_exact(s, m1, m1);
    assert(!is_ws(B_RPAREN));
    lemma_ws_run_exact(s, jin, jin);

    if lvl == op_level(op) {
        assert(level_op(lvl) == op);
        if lvl < 4 {
            assert(no_tier_token(s, p, lvl + 1)) by {
                assert(ws_run(s, p) == p + 1);
                assert forall|l: int|
                    lvl + 1 <= l <= 4 implies s[p + 1] != op_first(#[trigger] level_op(l)) by {
                    assert(op_level(level_op(l)) == l);
                    assert(level_op(l) != op);
                }
            }
            lemma_lift(s, i, lvl + 1, fe, p);
        }
        assert(parse_neg(s, i) == Some((fe, p)));
        let first = if lvl >= 4 {
            parse_neg(s, i)
        } else {
            parse_level(s, i, lvl + 1)
        };
        assert(first == Some((fe, p)));
        // The continuation sees the operator token and the right operand.
        lemma_token_at_chars(s, p + 1, tok);
        assert(token_at(s, p + 1, tok));
        assert(s[jin] == B_RPAREN);
        assert(!is_ident_char(B_RPAREN));
        assert(atom_stop(s, m1 + spec_canon(last).len()));
        lemma_canon_parses_neg(last, s, m1);
        let le = reparse_of(last);
        assert(parse_neg(s, m1) == Some((le, jin)));
        assert(ws_run(s, m1 - 1) == m1);
        assert(ws_run(s, m1) == m1);
        lemma_neg_ws_shift(s, m1 - 1, m1);
        assert(parse_neg(s, m1 - 1) == Some((le, jin)));
        if lvl < 4 {
            assert(no_tier_token(s, jin, lvl + 1)) by {
                assert(ws_run(s, jin) == jin);
                assert forall|l: int|
                    lvl + 1 <= l <= 4 implies s[jin] != op_first(#[trigger] level_op(l)) by {}
            }
            lemma_lift(s, m1 - 1, lvl + 1, le, jin);
        }
        let next = if lvl >= 4 {
            parse_neg(s, m1 - 1)
        } else {
            parse_level(s, m1 - 1, lvl + 1)
        };
        assert(next == Some((le, jin)));
        assert(ws_run(s, jin) == jin);
        assert(s[jin] != op_first(level_op(lvl)));
        lemma_more_stops(s, jin, lvl, seq![fe].push(le));
        assert(seq![fe].push(le) =~= seq![fe, le]);
        assert(seq![fe, le].len() == 2);
        assert(parse_more(s, jin, lvl, seq![fe].push(le)) == Some((
            ExprV::Binary(op, seq![fe, le]),
            jin,
        )));
        // Walk the continuation: token at `p + 1`, operand ends at `jin`.
        assert(ws_run(s, p) == p + 1);
        assert(parse_more(s, p, lvl, seq![fe]) == Some((ExprV::Binary(op, seq![fe, le]), jin)));
        assert(parse_level(s, i, lvl) == Some((ExprV::Binary(op, seq![fe, le]), jin)));
    } else {
        lemma_canon_list_parses(op, es, s, i, lvl + 1);
        let bin = ExprV::Binary(op, seq![reparse_list(op, front), reparse_of(last)]);
        assert(parse_level(s, i, lvl + 1) == Some((bin, jin)));
        assert(ws_run(s, jin) == jin);
        assert(s[jin] != op_first(level_op(lvl)));
        lemma_more_stops(s, jin, lvl, seq![bin]);
        assert(seq![bin][0] == bin);
        assert(parse_more(s, jin, lvl, seq![bin]) == Some((bin, jin)));
        assert(parse_level(s, i, lvl) == Some((bin, jin)));
    }
}

/// The canonical rendering of any well-formed tree re-parses in full, as a
/// complete expression, to the re-parse tree.
pub proof fn lemma_canon_reparses(e: ExprV)
    requires
        wf_v(e),
    ensures
        spec_parse_expression(spec_canon(e)) == Some(reparse_of(e)),
{
    let s = spec_canon(e);
    lemma_canon_shape(e);
    assert(sub_at(s, 0, s));
    assert(atom_stop(s, s.len() as int));
    lemma_canon_parses_neg(e, s, 0);
    assert(ws_run(s, s.len() as int) == s.len());
    assert(no_tier_token(s, s.len() as int, 0));
    lemma_lift(s, 0, 0, reparse_of(e), s.len() as int);
    assert(parsed_all(s, s.len() as int));
}

/// Round trip: for every well-formed tree, canonicalizing and re-parsing
/// yields a tree with the identical left-to-right atom sequence.
pub proof fn lemma_round_trip_atoms(e: ExprV)
    requires
        wf_v(e),
    ensures
        spec_parse_expression(spec_canon(e)) matches Some(e2) && atom_seq_v(e2) == atom_seq_v(e),
{
    lemma_canon_reparses(e);
    lemma_reparse_atoms(e);
}

/// Idempotence: canonicalizing the re-parse of a canonical rendering gives
/// the identical string again.
pub proof fn lemma_canon_idempotent(e: ExprV)
    requires
        wf_v(e),
    ensures
        spec_parse_expression(spec_canon(e)) matches Some(e2) && spec_canon(e2) == spec_canon(e),
{
    lemma_canon_reparses(e);
    lemma_reparse_canon(e);
}

} // verus!
