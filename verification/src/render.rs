//! The canonicalizer: renders a parse tree as a fully parenthesized string.
//!
//! An atom renders as its own text, `!` stacks before its operand, a source
//! group is transparent, and an n-ary binary node is folded left-to-right
//! into exactly two-operand parenthesized steps:
//! `[e1, e2, ..., ek]` becomes `((...(e1 OP e2) OP e3 ...) OP ek)`.

use vstd::prelude::*;

use crate::ast::{
    lemma_view_expr_seq_index, op_token, view_expr, view_expr_seq, Expr, ExprV, Op, B_AMP, B_BANG,
    B_CARET, B_DASH, B_GT, B_LPAREN, B_LT, B_PIPE, B_RPAREN, B_SPACE,
};

verus! {

/// The canonical rendering of a tree: every binary combination step is
/// wrapped in its own parenthesis pair, so no precedence inference is ever
/// needed to re-read the output.
pub open spec fn spec_canon(e: ExprV) -> Seq<u8>
    decreases e,
{
    match e {
        ExprV::Atom(t) => t,
        ExprV::Not(x) => seq![B_BANG] + spec_canon(*x),
        ExprV::Group(x) => spec_canon(*x),
        ExprV::Binary(op, es) => spec_canon_list(op, es),
    }
}

/// Left fold of an operand list: one parenthesis pair per combination step.
pub open spec fn spec_canon_list(op: Op, es: Seq<ExprV>) -> Seq<u8>
    decreases es,
{
    if es.len() == 0 {
        Seq::empty()
    } else if es.len() == 1 {
        spec_canon(es[0])
    } else {
        seq![B_LPAREN] + spec_canon_list(op, es.drop_last()) + seq![B_SPACE] + op_token(op)
            + seq![B_SPACE] + spec_canon(es.last()) + seq![B_RPAREN]
    }
}

/// `n` opening parentheses.
pub open spec fn open_parens(n: nat) -> Seq<u8>
    decreases n,
{
    if n == 0 {
        Seq::empty()
    } else {
        open_parens((n - 1) as nat) + seq![B_LPAREN]
    }
}

/// Appends the token of `op`.
fn push_op_token(op: Op, out: &mut Vec<u8>)
    ensures
        final(out)@ == old(out)@ + op_token(op),
{
    match op {
        Op::Iff => {
            out.push(B_LT);
            out.push(B_DASH);
            out.push(B_GT);
        },
        Op::Implies => {
            out.push(B_DASH);
            out.push(B_GT);
        },
        Op::Or => {
            out.push(B_PIPE);
        },
        Op::Xor => {
            out.push(B_CARET);
        },
        Op::And => {
            out.push(B_AMP);
        },
    }
    assert(final(out)@ =~= old(out)@ + op_token(op));
}

/// Renders one expression node as its fully parenthesized canonical string.
/// Canonicalization is total: it succeeds on every tree.
pub fn make_parantecies(e: &Expr) -> (out: Vec<u8>)
    ensures
        out@ == spec_canon(e@),
{
    let mut out: Vec<u8> = Vec::new();
    canon_into(e, &mut out);
    assert(out@ =~= spec_canon(view_expr(*e)));
    out
}

#[verifier::loop_isolation(false)]
fn canon_into(e: &Expr, out: &mut Vec<u8>)
    ensures
        final(out)@ == old(out)@ + spec_canon(view_expr(*e)),
    decreases *e,
{
    match e {
        Expr::Atom(t) => {
            let n = t.len();
            let mut i: usize = 0;
            while i < n
                invariant
                    i <= n,
                    out@ == old(out)@ + t@.take(i as int),
                decreases n - i,
            {
                out.push(t[i]);
                assert(out@ =~= old(out)@ + t@.take(i + 1));
                i = i + 1;
            }
            assert(t@.take(n as int) =~= t@);
        },
        Expr::Not(x) => {
            out.push(B_BANG);
            canon_into(x, out);
            assert(final(out)@ =~= old(out)@ + spec_canon(view_expr(*e)));
        },
        Expr::Group(x) => {
            canon_into(x, out);
        },
        Expr::Binary(op, es) => {
            proof {
                assert(decreases_to!(*e => (*e)->Binary_1));
                assert((*e)->Binary_1 == *es);
                assert(decreases_to!(*es => es@));
                lemma_view_expr_seq_index(es@);
            }
            let ghost vs = view_expr_seq(es@);
            let k = es.len();
            if k == 0 {
                assert(spec_canon_list(*op, vs) =~= Seq::<u8>::empty());
            } else if k == 1 {
                proof {
                    assert(decreases_to!(es@ => es@[0]));
                }
                canon_into(&es[0], out);
                assert(spec_canon_list(*op, vs) == spec_canon(vs[0]));
            } else {
                let mut i: usize = 1;
                while i < k
                    invariant
                        1 <= i <= k,
                        out@ == old(out)@ + open_parens((i - 1) as nat),
                    decreases k - i,
                {
                    out.push(B_LPAREN);
                    assert(out@ =~= old(out)@ + open_parens(i as nat));
                    i = i + 1;
                }
                proof {
                    assert(decreases_to!(es@ => es@[0]));
                    assert(vs.take(1).len() == 1);
                    assert(vs.take(1)[0] == vs[0]);
                }
                canon_into(&es[0], out);
                assert(out@ == old(out)@ + open_parens((k - 1) as nat) + spec_canon_list(
                    *op,
                    vs.take(1),
                ));
                let mut i: usize = 1;
                while i < k
                    invariant
                        1 <= i <= k,
                        out@ == old(out)@ + open_parens((k - i) as nat) + spec_canon_list(
                            *op,
                            vs.take(i as int),
                        ),
                    decreases k - i,
                {
                    out.push(B_SPACE);
                    push_op_token(*op, out);
                    out.push(B_SPACE);
                    proof {
                        assert(decreases_to!(es@ => es@[i as int]));
                    }
                    canon_into(&es[i], out);
                    out.push(B_RPAREN);
                    proof {
                        let pre = vs.take(i as int);
                        let cur = vs.take(i + 1);
                        assert(cur.drop_last() =~= pre);
                        assert(cur.last() == vs[i as int]);
                        assert(cur.len() == i + 1 >= 2);
                        assert(spec_canon_list(*op, cur) == seq![B_LPAREN] + spec_canon_list(
                            *op,
                            pre,
                        ) + seq![B_SPACE] + op_token(*op) + seq![B_SPACE] + spec_canon(
                            vs[i as int],
                        ) + seq![B_RPAREN]);
                        assert(open_parens((k - i) as nat) == open_parens((k - i - 1) as nat)
                            + seq![B_LPAREN]);
                        assert(out@ =~= old(out)@ + open_parens((k - (i + 1)) as nat)
                            + spec_canon_list(*op, cur));
                    }
                    i = i + 1;
                }
                proof {
                    assert(vs.take(k as int) =~= vs);
                    assert(open_parens(0) =~= Seq::<u8>::empty());
                    assert(final(out)@ =~= old(out)@ + spec_canon_list(*op, vs));
                }
            }
        },
    }
}

} // verus!
