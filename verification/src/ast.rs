//! Parse-tree data model: expression nodes, their mathematical view, and
//! the character classes and operator tokens of the grammar.

use vstd::prelude::*;

verus! {

/// Binary operator tiers, listed loosest-binding first.  `Iff` (`<->`)
/// binds loosest, `And` (`&`) binds tightest.
#[derive(Clone, Copy, Debug, PartialEq, Eq, Structural)]
pub enum Op {
    Iff,
    Implies,
    Or,
    Xor,
    And,
}

/// Parse tree of one propositional-logic expression.
///
/// A `Binary` node is n-ary: a run of the same operator at one precedence
/// tier collapses into a single node holding the ordered operand list
/// (two or more operands), so associativity is structural.
#[derive(Debug)]
pub enum Expr {
    Atom(Vec<u8>),
    Not(Box<Expr>),
    Group(Box<Expr>),
    Binary(Op, Vec<Expr>),
}

/// Mathematical model of a parse tree, used by all specifications.
pub enum ExprV {
    Atom(Seq<u8>),
    Not(Box<ExprV>),
    Group(Box<ExprV>),
    Binary(Op, Seq<ExprV>),
}

/// The model of an executable tree: same shape, atom text as a sequence.
pub open spec fn view_expr(e: Expr) -> ExprV
    decreases e,
{
    match e {
        Expr::Atom(t) => ExprV::Atom(t@),
        Expr::Not(x) => ExprV::Not(Box::new(view_expr(*x))),
        Expr::Group(x) => ExprV::Group(Box::new(view_expr(*x))),
        Expr::Binary(op, es) => ExprV::Binary(op, view_expr_seq(es@)),
    }
}

pub open spec fn view_expr_seq(es: Seq<Expr>) -> Seq<ExprV>
    decreases es,
{
    if es.len() == 0 {
        Seq::empty()
    } else {
        view_expr_seq(es.drop_last()).push(view_expr(es.last()))
    }
}

impl View for Expr {
    type V = ExprV;

    open spec fn view(&self) -> ExprV {
        view_expr(*self)
    }
}

pub proof fn lemma_view_expr_seq_index(es: Seq<Expr>)
    ensures
        view_expr_seq(es).len() == es.len(),
        forall|i: int| 0 <= i < es.len() ==> view_expr_seq(es)[i] == view_expr(#[trigger] es[i]),
    decreases es,
{
    if es.len() > 0 {
        lemma_view_expr_seq_index(es.drop_last());
        assert(forall|i: int| 0 <= i < es.len() - 1 ==> es.drop_last()[i] == es[i]);
        assert(view_expr_seq(es)[es.len() - 1] == view_expr(es[es.len() - 1]));
    }
}


pub proof fn lemma_view_expr_seq_push(es: Seq<Expr>, x: Expr)
    ensures
        view_expr_seq(es.push(x)) == view_expr_seq(es).push(view_expr(x)),
{
    assert(es.push(x).drop_last() =~= es);
    assert(es.push(x).last() == x);
}

pub proof fn lemma_view_expr_seq_singleton(x: Expr)
    ensures
        view_expr_seq(seq![x]) == seq![view_expr(x)],
{
    assert(seq![x].drop_last() =~= Seq::<Expr>::empty());
    assert(seq![x].last() == x);
    assert(view_expr_seq(Seq::<Expr>::empty()) =~= Seq::<ExprV>::empty());
    assert(view_expr_seq(seq![x]) =~= seq![view_expr(x)]);
}

/// Byte values of the grammar's fixed characters.
pub const B_SPACE: u8 = 32;

pub const B_TAB: u8 = 9;

pub const B_CR: u8 = 13;

pub const B_NL: u8 = 10;

pub const B_BANG: u8 = 33;

pub const B_LPAREN: u8 = 40;

pub const B_RPAREN: u8 = 41;

pub const B_LBRACK: u8 = 91;

pub const B_RBRACK: u8 = 93;

pub const B_LBRACE: u8 = 123;

pub const B_RBRACE: u8 = 125;

pub const B_AMP: u8 = 38;

pub const B_CARET: u8 = 94;

pub const B_PIPE: u8 = 124;

pub const B_DASH: u8 = 45;

pub const B_GT: u8 = 62;

pub const B_LT: u8 = 60;

pub const B_SLASH: u8 = 47;

pub const B_UNDERSCORE: u8 = 95;

pub const B_UPPER_A: u8 = 65;

pub const B_UPPER_Z: u8 = 90;

pub const B_LOWER_A: u8 = 97;

pub const B_LOWER_Z: u8 = 122;

pub const B_DIGIT_0: u8 = 48;

pub const B_DIGIT_9: u8 = 57;

/// Whitespace that may stand between tokens: space, tab, carriage return.
/// A newline is not token whitespace; it separates the expressions of a file.
pub open spec fn is_ws(b: u8) -> bool {
    b == B_SPACE || b == B_TAB || b == B_CR
}

/// First character of an identifier: a letter or an underscore.
pub open spec fn is_ident_start(b: u8) -> bool {
    (B_UPPER_A <= b && b <= B_UPPER_Z) || (B_LOWER_A <= b && b <= B_LOWER_Z) || b == B_UNDERSCORE
}

/// Any character of an identifier: a letter, a digit, or an underscore.
pub open spec fn is_ident_char(b: u8) -> bool {
    is_ident_start(b) || (B_DIGIT_0 <= b && b <= B_DIGIT_9)
}

/// Valid atom text: non-empty, starts with a letter or underscore, and
/// every character is a letter, digit or underscore.  The literals `true`
/// and `false` match this pattern and are ordinary atoms.
pub open spec fn atom_text_ok(t: Seq<u8>) -> bool {
    &&& t.len() > 0
    &&& is_ident_start(t[0])
    &&& forall|i: int| 0 <= i < t.len() ==> is_ident_char(#[trigger] t[i])
}

/// Well-formed tree: every atom matches the atom pattern and every binary
/// node holds at least two operands.
pub open spec fn wf_v(e: ExprV) -> bool
    decreases e,
{
    match e {
        ExprV::Atom(t) => atom_text_ok(t),
        ExprV::Not(x) => wf_v(*x),
        ExprV::Group(x) => wf_v(*x),
        ExprV::Binary(op, es) => es.len() >= 2 && wf_seq_v(es),
    }
}

pub open spec fn wf_seq_v(es: Seq<ExprV>) -> bool
    decreases es,
{
    if es.len() == 0 {
        true
    } else {
        wf_seq_v(es.drop_last()) && wf_v(es.last())
    }
}

pub proof fn lemma_wf_seq_index(es: Seq<ExprV>)
    requires
        wf_seq_v(es),
    ensures
        forall|i: int| 0 <= i < es.len() ==> wf_v(#[trigger] es[i]),
    decreases es,
{
    if es.len() > 0 {
        lemma_wf_seq_index(es.drop_last());
        assert(forall|i: int| 0 <= i < es.len() - 1 ==> es.drop_last()[i] == es[i]);
    }
}

pub proof fn lemma_wf_seq_parts(es: Seq<ExprV>)
    requires
        es.len() >= 1,
        wf_seq_v(es),
    ensures
        wf_seq_v(es.drop_last()),
        wf_v(es.last()),
{
}

pub proof fn lemma_wf_seq_singleton(e: ExprV)
    requires
        wf_v(e),
    ensures
        wf_seq_v(seq![e]),
{
    let es = seq![e];
    assert(es.len() == 1);
    assert(es.drop_last() =~= Seq::<ExprV>::empty());
    assert(wf_seq_v(es.drop_last()));
    assert(es.last() == e);
}

pub proof fn lemma_wf_seq_push(es: Seq<ExprV>, e: ExprV)
    requires
        wf_seq_v(es),
        wf_v(e),
    ensures
        wf_seq_v(es.push(e)),
{
    assert(es.push(e).drop_last() =~= es);
    assert(es.push(e).last() == e);
}

/// The left-to-right sequence of atom texts of a tree.
pub open spec fn atom_seq_v(e: ExprV) -> Seq<Seq<u8>>
    decreases e,
{
    match e {
        ExprV::Atom(t) => seq![t],
        ExprV::Not(x) => atom_seq_v(*x),
        ExprV::Group(x) => atom_seq_v(*x),
        ExprV::Binary(op, es) => atom_seq_list(es),
    }
}

pub open spec fn atom_seq_list(es: Seq<ExprV>) -> Seq<Seq<u8>>
    decreases es,
{
    if es.len() == 0 {
        Seq::empty()
    } else {
        atom_seq_list(es.drop_last()) + atom_seq_v(es.last())
    }
}

/// The token of a binary operator.
pub open spec fn op_token(op: Op) -> Seq<u8> {
    match op {
        Op::Iff => seq![B_LT, B_DASH, B_GT],
        Op::Implies => seq![B_DASH, B_GT],
        Op::Or => seq![B_PIPE],
        Op::Xor => seq![B_CARET],
        Op::And => seq![B_AMP],
    }
}

/// The operator parsed at a precedence level, 0 (loosest) to 4 (tightest).
pub open spec fn level_op(lvl: int) -> Op {
    if lvl <= 0 {
        Op::Iff
    } else if lvl == 1 {
        Op::Implies
    } else if lvl == 2 {
        Op::Or
    } else if lvl == 3 {
        Op::Xor
    } else {
        Op::And
    }
}

/// The precedence level of an operator.
pub open spec fn op_level(op: Op) -> int {
    match op {
        Op::Iff => 0,
        Op::Implies => 1,
        Op::Or => 2,
        Op::Xor => 3,
        Op::And => 4,
    }
}

/// First character of an operator token; the five are pairwise distinct.
pub open spec fn op_first(op: Op) -> u8 {
    match op {
        Op::Iff => B_LT,
        Op::Implies => B_DASH,
        Op::Or => B_PIPE,
        Op::Xor => B_CARET,
        Op::And => B_AMP,
    }
}

/// An opening group delimiter.
pub open spec fn is_open_delim(b: u8) -> bool {
    b == B_LPAREN || b == B_LBRACK || b == B_LBRACE
}

/// The closing delimiter that pairs with an opening one.
pub open spec fn close_delim_of(b: u8) -> u8 {
    if b == B_LPAREN {
        B_RPAREN
    } else if b == B_LBRACK {
        B_RBRACK
    } else {
        B_RBRACE
    }
}

/// The rows of a byte-vector list, as sequences.
pub open spec fn rows_view(r: Seq<Vec<u8>>) -> Seq<Seq<u8>> {
    r.map_values(|v: Vec<u8>| v@)
}

/// Collects the atoms of a tree, left to right.
pub fn atom_list(e: &Expr) -> (r: Vec<Vec<u8>>)
    ensures
        rows_view(r@) == atom_seq_v(e@),
{
    let mut r: Vec<Vec<u8>> = Vec::new();
    assert(rows_view(r@) =~= Seq::<Seq<u8>>::empty());
    collect_atoms_into(e, &mut r);
    assert(rows_view(r@) =~= atom_seq_v(view_expr(*e)));
    r
}

#[verifier::loop_isolation(false)]
fn collect_atoms_into(e: &Expr, out: &mut Vec<Vec<u8>>)
    ensures
        rows_view(final(out)@) == rows_view(old(out)@) + atom_seq_v(view_expr(*e)),
    decreases *e,
{
    match e {
        Expr::Atom(t) => {
            let t2 = t.clone();
            assert(t2@ == t@);
            out.push(t2);
            assert(rows_view(out@) =~= rows_view(old(out)@) + atom_seq_v(view_expr(*e)));
        },
        Expr::Not(x) => {
            collect_atoms_into(x, out);
        },
        Expr::Group(x) => {
            collect_atoms_into(x, out);
        },
        Expr::Binary(op, es) => {
            let ghost pre = out@;
            let n = es.len();
            let mut i: usize = 0;
            proof {
                lemma_view_expr_seq_index(es@);
                assert(view_expr_seq(es@.take(0)) =~= Seq::<ExprV>::empty());
                assert(atom_seq_list(view_expr_seq(es@.take(0))) =~= Seq::<Seq<u8>>::empty());
                assert(rows_view(out@) =~= rows_view(pre) + atom_seq_list(view_expr_seq(es@.take(0))));
            }
            while i < n
                invariant
                    n == es.len(),
                    i <= n,
                    rows_view(out@) == rows_view(pre) + atom_seq_list(view_expr_seq(es@.take(i as int))),
                decreases n - i,
            {
                proof {
                    assert(decreases_to!(*e => (*e)->Binary_1));
                    assert((*e)->Binary_1 == *es);

                    assert(decreases_to!(*es => es@));
                    assert(decreases_to!(es@ => es@[i as int]));
                }
                collect_atoms_into(&es[i], out);
                proof {
                    lemma_view_expr_seq_index(es@);
                    let vs = view_expr_seq(es@.take(i + 1));
                    assert(es@.take(i + 1).drop_last() =~= es@.take(i as int));
                    assert(es@.take(i + 1).last() == es@[i as int]);
                    assert(vs == view_expr_seq(es@.take(i as int)).push(view_expr(es@[i as int])));
                    assert(vs.drop_last() =~= view_expr_seq(es@.take(i as int)));
                    assert(vs.last() == view_expr(es@[i as int]));
                    assert(atom_seq_list(vs) == atom_seq_list(view_expr_seq(es@.take(i as int)))
                        + atom_seq_v(view_expr(es@[i as int])));
                    assert(rows_view(out@) =~= rows_view(pre)
                        + atom_seq_list(view_expr_seq(es@.take(i + 1))));
                }
                i = i + 1;
            }
            proof {
                assert(es@.take(n as int) =~= es@);
                assert(atom_seq_v(view_expr(*e)) == atom_seq_list(view_expr_seq(es@)));
            }
        },
    }
}

} // verus!
