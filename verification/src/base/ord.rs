//! Canonical total order over expressions: numbers first, then symbols,
//! then constants, then compound forms. Same-shape compounds compare
//! structurally;
//! associative nodes compare by their reversed child sequences, so that the
//! highest-order terms dominate; a bare term compared against a power-pair is
//! treated as paired with exponent 1, and against an associative node as an
//! infinitely repeated singleton sequence.

use vstd::prelude::*;

use crate::base::sq::SqOp;
use crate::base::{
    lemma_sizes_index, lemma_sizes_last, lemma_sizev_pos, lemma_views_of, sizes, sizev, view_of,
    views_of, Algebra, Constant, Expr, ExprV, Function, Number, SymV, Symbol,
};

verus! {

broadcast use vstd::seq::group_seq_axioms, vstd::std_specs::vec::group_vec_axioms, lemma_sizev_pos;

/// Outcome of a comparison.
#[derive(Debug, Clone, Copy, PartialEq, Eq, Structural)]
pub enum Rel {
    Less,
    Equal,
    Greater,
}

/// The opposite outcome.
pub open spec fn flip(r: Rel) -> Rel {
    match r {
        Rel::Less => Rel::Greater,
        Rel::Equal => Rel::Equal,
        Rel::Greater => Rel::Less,
    }
}

/// Lexicographic combination: the first outcome unless it is `Equal`.
pub open spec fn then_r(a: Rel, b: Rel) -> Rel {
    if a is Equal {
        b
    } else {
        a
    }
}

/// Order of two integers.
pub open spec fn cmp_int(a: int, b: int) -> Rel {
    if a < b {
        Rel::Less
    } else if a == b {
        Rel::Equal
    } else {
        Rel::Greater
    }
}

/// Lexicographic order of two character sequences.
pub open spec fn cmp_chars(a: Seq<char>, b: Seq<char>) -> Rel
    decreases a.len(),
{
    if a.len() == 0 && b.len() == 0 {
        Rel::Equal
    } else if a.len() == 0 {
        Rel::Less
    } else if b.len() == 0 {
        Rel::Greater
    } else if (a[0] as int) < (b[0] as int) {
        Rel::Less
    } else if (a[0] as int) > (b[0] as int) {
        Rel::Greater
    } else {
        cmp_chars(a.drop_first(), b.drop_first())
    }
}

/// Structural order of two symbols: name first, then domain.
pub open spec fn cmp_sym(a: SymV, b: SymV) -> Rel {
    then_r(cmp_chars(a.name, b.name), cmp_int(a.dom.rank(), b.dom.rank()))
}

/// The implicit exponent of a bare term.
pub open spec fn onev() -> ExprV {
    ExprV::Num(1)
}

/// Structural order of the special constants, by declaration.
pub open spec fn cte_rank(c: Constant) -> int {
    match c {
        Constant::Pi => 0,
        Constant::E => 1,
        Constant::I => 2,
    }
}

/// Structural order of the sequence operators, by declaration.
pub open spec fn sq_op_rank(q: SqOp) -> int {
    match q {
        SqOp::Sum => 0,
        SqOp::Prod => 1,
    }
}

/// Order of the node shapes the directional arms do not separate: unary
/// nodes, then function applications, then sequences.
pub open spec fn shape_rank(e: ExprV) -> int {
    match e {
        ExprV::Num(_) => 0,
        ExprV::Sym(_) => 1,
        ExprV::Cte(_) => 2,
        ExprV::UExpr(_, _) => 3,
        ExprV::MapExpr(_, _) => 4,
        ExprV::SqExpr(_, _, _, _, _) => 5,
        ExprV::BExpr(_, _, _) => 6,
        ExprV::AssocExpr(_, _) => 7,
    }
}

/// Canonical order of two expression values. (Opaque: proofs that need the
/// case analysis reveal it.)
#[verifier::opaque]
pub open spec fn cmp_v(a: ExprV, b: ExprV) -> Rel
    decreases sizev(a) + sizev(b), 0int,
{
    match (a, b) {
        (ExprV::Sym(l), ExprV::Sym(r)) => cmp_sym(l, r),
        (ExprV::Num(l), ExprV::Num(r)) => cmp_int(l, r),
        (ExprV::Cte(l), ExprV::Cte(r)) => cmp_int(cte_rank(l), cte_rank(r)),
        (ExprV::UExpr(_, la), ExprV::UExpr(_, ra)) => cmp_v(*la, *ra),
        (ExprV::BExpr(_, lb, le), ExprV::BExpr(_, rb, re)) => then_r(
            cmp_v(*lb, *rb),
            cmp_v(*le, *re),
        ),
        (ExprV::AssocExpr(_, ls), ExprV::AssocExpr(_, rs)) => cmp_rev(ls, rs),
        (ExprV::MapExpr(ln, la), ExprV::MapExpr(rn, ra)) => then_r(
            cmp_chars(ln, rn),
            cmp_seq(la, ra),
        ),
        (ExprV::SqExpr(lq, li, llo, lup, la), ExprV::SqExpr(rq, ri, rlo, rup, ra)) => then_r(
            cmp_int(sq_op_rank(lq), sq_op_rank(rq)),
            then_r(
                cmp_sym(li, ri),
                then_r(cmp_v(*llo, *rlo), then_r(cmp_v(*lup, *rup), cmp_v(*la, *ra))),
            ),
        ),
        (ExprV::BExpr(_, lb, le), r) => then_r(cmp_v(*lb, r), cmp_v(*le, onev())),
        (l, ExprV::BExpr(_, rb, re)) => then_r(cmp_v(l, *rb), cmp_v(onev(), *re)),
        (ExprV::AssocExpr(_, ls), r) => cmp_rev_rep(ls, r),
        (l, ExprV::AssocExpr(_, rs)) => cmp_rep_rev(l, rs),
        (ExprV::Num(_), _) => Rel::Less,
        (_, ExprV::Num(_)) => Rel::Greater,
        (ExprV::Sym(_), _) => Rel::Less,
        (_, ExprV::Sym(_)) => Rel::Greater,
        (ExprV::Cte(_), _) => Rel::Less,
        (_, ExprV::Cte(_)) => Rel::Greater,
        _ => cmp_int(shape_rank(a), shape_rank(b)),
    }
}

/// Lexicographic order of two child sequences, first children first, the
/// shorter sequence first when one is a prefix of the other.
pub open spec fn cmp_seq(ls: Seq<ExprV>, rs: Seq<ExprV>) -> Rel
    decreases sizes(ls) + sizes(rs), ls.len() + rs.len(),
{
    if ls.len() == 0 && rs.len() == 0 {
        Rel::Equal
    } else if ls.len() == 0 {
        Rel::Less
    } else if rs.len() == 0 {
        Rel::Greater
    } else {
        then_r(cmp_v(ls[0], rs[0]), cmp_seq(ls.drop_first(), rs.drop_first()))
    }
}

/// Lexicographic order of two reversed child sequences: last children first,
/// the shorter sequence first when one is a suffix of the other.
pub open spec fn cmp_rev(ls: Seq<ExprV>, rs: Seq<ExprV>) -> Rel
    decreases sizes(ls) + sizes(rs), ls.len() + rs.len(),
        via cmp_rev_decreases
{
    if ls.len() == 0 && rs.len() == 0 {
        Rel::Equal
    } else if ls.len() == 0 {
        Rel::Less
    } else if rs.len() == 0 {
        Rel::Greater
    } else {
        then_r(cmp_v(ls.last(), rs.last()), cmp_rev(ls.drop_last(), rs.drop_last()))
    }
}

/// Reversed child sequence against an infinitely repeated bare term: the
/// finite sequence comes first when every child is order-equivalent.
pub open spec fn cmp_rev_rep(ls: Seq<ExprV>, r: ExprV) -> Rel
    decreases sizes(ls) + sizev(r), ls.len(),
        via cmp_rev_rep_decreases
{
    if ls.len() == 0 {
        Rel::Less
    } else {
        then_r(cmp_v(ls.last(), r), cmp_rev_rep(ls.drop_last(), r))
    }
}

/// Infinitely repeated bare term against a reversed child sequence.
pub open spec fn cmp_rep_rev(l: ExprV, rs: Seq<ExprV>) -> Rel
    decreases sizev(l) + sizes(rs), rs.len(),
        via cmp_rep_rev_decreases
{
    if rs.len() == 0 {
        Rel::Greater
    } else {
        then_r(cmp_v(l, rs.last()), cmp_rep_rev(l, rs.drop_last()))
    }
}

/// Numbers come before symbols, symbols before constants, and constants
/// before the compound forms that are not themselves compared through a
/// power-pair or associative rule: `Number < Symbol < Constant < compound`.
/// (A power-pair operand compares through its base with implicit exponent 1,
/// and an associative operand as an infinitely repeated singleton, as the
/// data model asks.)
pub proof fn lemma_leaf_order(a: ExprV, b: ExprV)
    ensures
        a is Num && (b is Sym || b is Cte || b is UExpr || b is MapExpr || b is SqExpr)
            ==> cmp_v(a, b) is Less,
        a is Sym && (b is Cte || b is UExpr || b is MapExpr || b is SqExpr) ==> cmp_v(a, b)
            is Less,
        a is Cte && (b is UExpr || b is MapExpr || b is SqExpr) ==> cmp_v(a, b) is Less,
{
    reveal(cmp_v);
}

/// Swapping the operands of the character order swaps the outcome.
pub proof fn lemma_cmp_chars_flip(a: Seq<char>, b: Seq<char>)
    ensures
        cmp_chars(b, a) == flip(cmp_chars(a, b)),
    decreases a.len(),
{
    if a.len() > 0 && b.len() > 0 {
        lemma_cmp_chars_flip(a.drop_first(), b.drop_first());
    }
}

/// Swapping the operands of the canonical order swaps the outcome.
pub proof fn lemma_cmp_flip(a: ExprV, b: ExprV)
    ensures
        cmp_v(b, a) == flip(cmp_v(a, b)),
    decreases sizev(a) + sizev(b), 0int,
{
    reveal(cmp_v);
    match (a, b) {
        (ExprV::Sym(l), ExprV::Sym(r)) => {
            lemma_cmp_chars_flip(l.name, r.name);
        },
        (ExprV::Num(_), ExprV::Num(_)) => {},
        (ExprV::UExpr(_, la), ExprV::UExpr(_, ra)) => {
            lemma_cmp_flip(*la, *ra);
        },
        (ExprV::BExpr(_, lb, le), ExprV::BExpr(_, rb, re)) => {
            lemma_cmp_flip(*lb, *rb);
            lemma_cmp_flip(*le, *re);
        },
        (ExprV::AssocExpr(_, ls), ExprV::AssocExpr(_, rs)) => {
            lemma_cmp_rev_flip(ls, rs);
        },
        (ExprV::MapExpr(ln, la), ExprV::MapExpr(rn, ra)) => {
            lemma_cmp_chars_flip(ln, rn);
            lemma_cmp_seq_flip(la, ra);
        },
        (ExprV::SqExpr(lq, li, llo, lup, la), ExprV::SqExpr(rq, ri, rlo, rup, ra)) => {
            lemma_cmp_chars_flip(li.name, ri.name);
            lemma_cmp_flip(*llo, *rlo);
            lemma_cmp_flip(*lup, *rup);
            lemma_cmp_flip(*la, *ra);
        },
        (ExprV::BExpr(_, lb, le), r) => {
            lemma_cmp_flip(*lb, r);
            lemma_cmp_flip(*le, onev());
        },
        (l, ExprV::BExpr(_, rb, re)) => {
            lemma_cmp_flip(l, *rb);
            lemma_cmp_flip(onev(), *re);
        },
        (ExprV::AssocExpr(_, ls), r) => {
            lemma_cmp_rep_flip(ls, r);
        },
        (l, ExprV::AssocExpr(_, rs)) => {
            lemma_cmp_rep_flip(rs, l);
        },
        _ => {},
    }
}

/// Swapping the operands of the reversed-sequence order swaps the outcome.
pub proof fn lemma_cmp_rev_flip(ls: Seq<ExprV>, rs: Seq<ExprV>)
    ensures
        cmp_rev(rs, ls) == flip(cmp_rev(ls, rs)),
    decreases sizes(ls) + sizes(rs), ls.len() + rs.len(),
{
    reveal(cmp_v);
    if ls.len() > 0 && rs.len() > 0 {
        lemma_sizes_last(ls);
        lemma_sizes_last(rs);
        lemma_cmp_flip(ls.last(), rs.last());
        lemma_cmp_rev_flip(ls.drop_last(), rs.drop_last());
    }
}

/// Swapping the operands of the forward-sequence order swaps the outcome.
pub proof fn lemma_cmp_seq_flip(ls: Seq<ExprV>, rs: Seq<ExprV>)
    ensures
        cmp_seq(rs, ls) == flip(cmp_seq(ls, rs)),
    decreases sizes(ls) + sizes(rs), ls.len() + rs.len(),
{
    reveal(cmp_v);
    if ls.len() > 0 && rs.len() > 0 {
        lemma_cmp_flip(ls[0], rs[0]);
        lemma_cmp_seq_flip(ls.drop_first(), rs.drop_first());
    }
}

/// Swapping a reversed sequence with a repeated bare term swaps the outcome.
pub proof fn lemma_cmp_rep_flip(ls: Seq<ExprV>, r: ExprV)
    ensures
        cmp_rep_rev(r, ls) == flip(cmp_rev_rep(ls, r)),
    decreases sizes(ls) + sizev(r), ls.len(),
{
    reveal(cmp_v);
    if ls.len() > 0 {
        lemma_sizes_last(ls);
        lemma_cmp_flip(ls.last(), r);
        lemma_cmp_rep_flip(ls.drop_last(), r);
    }
}

/// The canonical order is total: for every pair of expression values
/// exactly one of `a` before `b`, order-equivalent, `b` before `a` holds.
/// (Order-equivalence is coarser than structural equality: distinct special
/// constants, and compound shapes the order does not separate, compare as
/// `Equal`.)
pub proof fn lemma_order_trichotomy(a: ExprV, b: ExprV)
    ensures
        cmp_v(b, a) == flip(cmp_v(a, b)),
        (cmp_v(a, b) is Less) || (cmp_v(a, b) is Equal) || (cmp_v(b, a) is Less),
        cmp_v(a, b) is Less ==> !(cmp_v(a, b) is Equal) && !(cmp_v(b, a) is Less),
        cmp_v(a, b) is Equal ==> !(cmp_v(a, b) is Less) && !(cmp_v(b, a) is Less),
        cmp_v(b, a) is Less ==> !(cmp_v(a, b) is Less) && !(cmp_v(a, b) is Equal),
{
    lemma_cmp_flip(a, b);
}

/// Order of two machine integers.
fn cmp_i128(l: i128, r: i128) -> (c: Rel)
    ensures
        c == cmp_int(l as int, r as int),
{
    if l < r {
        Rel::Less
    } else if l == r {
        Rel::Equal
    } else {
        Rel::Greater
    }
}

/// Lexicographic order of two character vectors.
fn cmp_chars_ex(a: &Vec<char>, b: &Vec<char>) -> (c: Rel)
    ensures
        c == cmp_chars(a@, b@),
{
    let mut i: usize = 0;
    proof {
        assert(a@.skip(0) =~= a@);
        assert(b@.skip(0) =~= b@);
    }
    loop
        invariant
            0 <= i <= a@.len(),
            0 <= i <= b@.len(),
            cmp_chars(a@, b@) == cmp_chars(a@.skip(i as int), b@.skip(i as int)),
        decreases a@.len() - i,
    {
        proof {
            assert(a@.skip(i as int).len() == a@.len() - i);
            assert(b@.skip(i as int).len() == b@.len() - i);
            if i < a@.len() && i < b@.len() {
                assert(a@.skip(i as int).drop_first() =~= a@.skip(i + 1));
                assert(b@.skip(i as int).drop_first() =~= b@.skip(i + 1));
                assert(a@.skip(i as int)[0] == a@[i as int]);
                assert(b@.skip(i as int)[0] == b@[i as int]);
            }
        }
        if i == a.len() && i == b.len() {
            return Rel::Equal;
        } else if i == a.len() {
            return Rel::Less;
        } else if i == b.len() {
            return Rel::Greater;
        } else if a[i] < b[i] {
            return Rel::Less;
        } else if a[i] > b[i] {
            return Rel::Greater;
        }
        i += 1;
    }
}

/// Structural order of two symbols.
fn cmp_sym_ex(a: &Symbol, b: &Symbol) -> (c: Rel)
    ensures
        c == cmp_sym(a@, b@),
{
    let n = cmp_chars_ex(&a.name, &b.name);
    match n {
        Rel::Equal => cmp_i128(a.dom.rank_ex() as i128, b.dom.rank_ex() as i128),
        _ => n,
    }
}

impl Expr {
    /// Canonical order of two expression trees; a single comparison used
    /// uniformly for sorting associative children and for term matching.
    #[verifier::spinoff_prover]
    #[verifier::rlimit(100)]
    pub fn cmp(&self, o: &Expr) -> (c: Rel)
        ensures
            c == cmp_v(self@, o@),
        decreases sizev(self@) + sizev(o@), 0int,
    {
        proof {
            reveal(cmp_v);
        }
        match (self, o) {
            (Expr::Sym(l), Expr::Sym(r)) => cmp_sym_ex(l, r),
            (Expr::Num(Number::Z(l)), Expr::Num(Number::Z(r))) => cmp_i128(*l, *r),
            (Expr::Cte(l), Expr::Cte(r)) => cmp_i128(cte_rank_ex(*l) as i128, cte_rank_ex(*r) as i128),
            (
                Expr::Alg(Algebra::UExpr { map: _, arg: la }),
                Expr::Alg(Algebra::UExpr { map: _, arg: ra }),
            ) => la.cmp(ra),
            (
                Expr::Alg(Algebra::BExpr { map: _, arg: la }),
                Expr::Alg(Algebra::BExpr { map: _, arg: ra }),
            ) => {
                let c = la.0.cmp(&ra.0);
                match c {
                    Rel::Equal => la.1.cmp(&ra.1),
                    _ => c,
                }
            },
            (
                Expr::Alg(Algebra::AssocExpr { map: _, arg: la }),
                Expr::Alg(Algebra::AssocExpr { map: _, arg: ra }),
            ) => cmp_rev_vec(la, ra),
            (
                Expr::Fun(Function::MapExpr { map: ln, arg: la }),
                Expr::Fun(Function::MapExpr { map: rn, arg: ra }),
            ) => {
                let c = cmp_chars_ex(ln, rn);
                match c {
                    Rel::Equal => cmp_seq_vec(la, ra),
                    _ => c,
                }
            },
            (Expr::Sq(l), Expr::Sq(r)) => {
                let c = cmp_i128(sq_op_rank_ex(l.map) as i128, sq_op_rank_ex(r.map) as i128);
                match c {
                    Rel::Equal => {
                        let c2 = cmp_sym_ex(&l.idx, &r.idx);
                        match c2 {
                            Rel::Equal => {
                                let c3 = l.lo.cmp(&r.lo);
                                match c3 {
                                    Rel::Equal => {
                                        let c4 = l.up.cmp(&r.up);
                                        match c4 {
                                            Rel::Equal => l.arg.cmp(&r.arg),
                                            _ => c4,
                                        }
                                    },
                                    _ => c3,
                                }
                            },
                            _ => c2,
                        }
                    },
                    _ => c,
                }
            },
            (Expr::Alg(Algebra::BExpr { map: _, arg: la }), _) => {
                let c = la.0.cmp(o);
                match c {
                    Rel::Equal => {
                        let one = Expr::Num(Number::Z(1));
                        la.1.cmp(&one)
                    },
                    _ => c,
                }
            },
            (_, Expr::Alg(Algebra::BExpr { map: _, arg: ra })) => {
                let c = self.cmp(&ra.0);
                match c {
                    Rel::Equal => {
                        let one = Expr::Num(Number::Z(1));
                        one.cmp(&ra.1)
                    },
                    _ => c,
                }
            },
            (Expr::Alg(Algebra::AssocExpr { map: _, arg: la }), _) => cmp_rev_rep_vec(la, o),
            (_, Expr::Alg(Algebra::AssocExpr { map: _, arg: ra })) => cmp_rep_rev_vec(self, ra),
            (Expr::Num(_), _) => Rel::Less,
            (_, Expr::Num(_)) => Rel::Greater,
            (Expr::Sym(_), _) => Rel::Less,
            (_, Expr::Sym(_)) => Rel::Greater,
            (Expr::Cte(_), _) => Rel::Less,
            (_, Expr::Cte(_)) => Rel::Greater,
            _ => cmp_i128(shape_rank_ex(self) as i128, shape_rank_ex(o) as i128),
        }
    }
}

/// Executable counterpart of [`cte_rank`].
fn cte_rank_ex(c: Constant) -> (r: u8)
    ensures
        r as int == cte_rank(c),
{
    match c {
        Constant::Pi => 0,
        Constant::E => 1,
        Constant::I => 2,
    }
}

/// Executable counterpart of [`sq_op_rank`].
fn sq_op_rank_ex(q: SqOp) -> (r: u8)
    ensures
        r as int == sq_op_rank(q),
{
    match q {
        SqOp::Sum => 0,
        SqOp::Prod => 1,
    }
}

/// Executable counterpart of [`shape_rank`].
fn shape_rank_ex(e: &Expr) -> (r: u8)
    ensures
        r as int == shape_rank(e@),
{
    match e {
        Expr::Num(_) => 0,
        Expr::Sym(_) => 1,
        Expr::Cte(_) => 2,
        Expr::Alg(Algebra::UExpr { map: _, arg: _ }) => 3,
        Expr::Fun(_) => 4,
        Expr::Sq(_) => 5,
        Expr::Alg(Algebra::BExpr { map: _, arg: _ }) => 6,
        Expr::Alg(Algebra::AssocExpr { map: _, arg: _ }) => 7,
    }
}

/// Order of two child vectors, first children first.
fn cmp_seq_vec(ls: &Vec<Expr>, rs: &Vec<Expr>) -> (c: Rel)
    ensures
        c == cmp_seq(views_of(ls@), views_of(rs@)),
    decreases sizes(views_of(ls@)) + sizes(views_of(rs@)), ls@.len() + rs@.len(),
{
    proof {
        reveal(cmp_v);
        lemma_views_of(ls@);
        lemma_views_of(rs@);
    }
    let ghost vl = views_of(ls@);
    let ghost vr = views_of(rs@);
    let mut i: usize = 0;
    proof {
        assert(vl.skip(0) =~= vl);
        assert(vr.skip(0) =~= vr);
    }
    loop
        invariant
            0 <= i <= ls@.len(),
            0 <= i <= rs@.len(),
            vl == views_of(ls@),
            vr == views_of(rs@),
            vl.len() == ls@.len(),
            vr.len() == rs@.len(),
            forall|k: int| 0 <= k < ls@.len() ==> vl[k] == view_of(#[trigger] ls@[k]),
            forall|k: int| 0 <= k < rs@.len() ==> vr[k] == view_of(#[trigger] rs@[k]),
            cmp_seq(vl, vr) == cmp_seq(vl.skip(i as int), vr.skip(i as int)),
        decreases ls@.len() - i,
    {
        proof {
            reveal(cmp_v);
            assert(vl.skip(i as int).len() == vl.len() - i);
            assert(vr.skip(i as int).len() == vr.len() - i);
            if i < vl.len() && i < vr.len() {
                assert(vl.skip(i as int).drop_first() =~= vl.skip(i + 1));
                assert(vr.skip(i as int).drop_first() =~= vr.skip(i + 1));
                assert(vl.skip(i as int)[0] == vl[i as int]);
                assert(vr.skip(i as int)[0] == vr[i as int]);
            }
        }
        if i == ls.len() && i == rs.len() {
            return Rel::Equal;
        } else if i == ls.len() {
            return Rel::Less;
        } else if i == rs.len() {
            return Rel::Greater;
        }
        proof {
            lemma_sizes_index(vl, i as int);
            lemma_sizes_index(vr, i as int);
        }
        let c = ls[i].cmp(&rs[i]);
        match c {
            Rel::Equal => {
                i += 1;
            },
            _ => {
                return c;
            },
        }
    }
}

/// Order of two reversed child vectors.
fn cmp_rev_vec(ls: &Vec<Expr>, rs: &Vec<Expr>) -> (c: Rel)
    ensures
        c == cmp_rev(views_of(ls@), views_of(rs@)),
    decreases sizes(views_of(ls@)) + sizes(views_of(rs@)), ls@.len() + rs@.len(),
{
    proof {
        reveal(cmp_v);
        lemma_views_of(ls@);
        lemma_views_of(rs@);
    }
    let ghost vl = views_of(ls@);
    let ghost vr = views_of(rs@);
    let mut i: usize = ls.len();
    let mut j: usize = rs.len();
    proof {
        assert(vl.take(i as int) =~= vl);
        assert(vr.take(j as int) =~= vr);
    }
    loop
        invariant
            0 <= i <= ls@.len(),
            0 <= j <= rs@.len(),
            vl == views_of(ls@),
            vr == views_of(rs@),
            vl.len() == ls@.len(),
            vr.len() == rs@.len(),
            forall|k: int| 0 <= k < ls@.len() ==> vl[k] == view_of(#[trigger] ls@[k]),
            forall|k: int| 0 <= k < rs@.len() ==> vr[k] == view_of(#[trigger] rs@[k]),
            cmp_rev(vl, vr) == cmp_rev(vl.take(i as int), vr.take(j as int)),
        decreases i + j,
    {
        if i == 0 && j == 0 {
            proof {
                assert(vl.take(0) =~= Seq::<ExprV>::empty());
                assert(vr.take(0) =~= Seq::<ExprV>::empty());
            }
            return Rel::Equal;
        } else if i == 0 {
            proof {
                assert(vl.take(0) =~= Seq::<ExprV>::empty());
            }
            return Rel::Less;
        } else if j == 0 {
            proof {
                assert(vr.take(0) =~= Seq::<ExprV>::empty());
            }
            return Rel::Greater;
        }
        proof {
            reveal(cmp_v);
            lemma_sizes_index(vl, i - 1);
            lemma_sizes_index(vr, j - 1);
            assert(vl.take(i as int).last() == vl[i - 1]);
            assert(vr.take(j as int).last() == vr[j - 1]);
            assert(vl.take(i as int).drop_last() =~= vl.take(i - 1));
            assert(vr.take(j as int).drop_last() =~= vr.take(j - 1));
        }
        let c = ls[i - 1].cmp(&rs[j - 1]);
        match c {
            Rel::Equal => {
                i -= 1;
                j -= 1;
            },
            _ => {
                return c;
            },
        }
    }
}

/// Order of a reversed child vector against a repeated bare term.
fn cmp_rev_rep_vec(ls: &Vec<Expr>, r: &Expr) -> (c: Rel)
    ensures
        c == cmp_rev_rep(views_of(ls@), r@),
    decreases sizes(views_of(ls@)) + sizev(r@), ls@.len(),
{
    proof {
        reveal(cmp_v);
        lemma_views_of(ls@);
    }
    let ghost vl = views_of(ls@);
    let mut i: usize = ls.len();
    proof {
        assert(vl.take(i as int) =~= vl);
    }
    loop
        invariant
            0 <= i <= ls@.len(),
            vl == views_of(ls@),
            vl.len() == ls@.len(),
            forall|k: int| 0 <= k < ls@.len() ==> vl[k] == view_of(#[trigger] ls@[k]),
            cmp_rev_rep(vl, r@) == cmp_rev_rep(vl.take(i as int), r@),
        decreases i,
    {
        if i == 0 {
            proof {
                assert(vl.take(0) =~= Seq::<ExprV>::empty());
            }
            return Rel::Less;
        }
        proof {
            reveal(cmp_v);
            lemma_sizes_index(vl, i - 1);
            assert(vl.take(i as int).last() == vl[i - 1]);
            assert(vl.take(i as int).drop_last() =~= vl.take(i - 1));
        }
        let c = ls[i - 1].cmp(r);
        match c {
            Rel::Equal => {
                i -= 1;
            },
            _ => {
                return c;
            },
        }
    }
}

/// Order of a repeated bare term against a reversed child vector.
fn cmp_rep_rev_vec(l: &Expr, rs: &Vec<Expr>) -> (c: Rel)
    ensures
        c == cmp_rep_rev(l@, views_of(rs@)),
    decreases sizev(l@) + sizes(views_of(rs@)), rs@.len(),
{
    proof {
        reveal(cmp_v);
        lemma_views_of(rs@);
    }
    let ghost vr = views_of(rs@);
    let mut j: usize = rs.len();
    proof {
        assert(vr.take(j as int) =~= vr);
    }
    loop
        invariant
            0 <= j <= rs@.len(),
            vr == views_of(rs@),
            vr.len() == rs@.len(),
            forall|k: int| 0 <= k < rs@.len() ==> vr[k] == view_of(#[trigger] rs@[k]),
            cmp_rep_rev(l@, vr) == cmp_rep_rev(l@, vr.take(j as int)),
        decreases j,
    {
        if j == 0 {
            proof {
                assert(vr.take(0) =~= Seq::<ExprV>::empty());
            }
            return Rel::Greater;
        }
        proof {
            reveal(cmp_v);
            lemma_sizes_index(vr, j - 1);
            assert(vr.take(j as int).last() == vr[j - 1]);
            assert(vr.take(j as int).drop_last() =~= vr.take(j - 1));
        }
        let c = l.cmp(&rs[j - 1]);
        match c {
            Rel::Equal => {
                j -= 1;
            },
            _ => {
                return c;
            },
        }
    }
}

#[via_fn]
proof fn cmp_rev_decreases(ls: Seq<ExprV>, rs: Seq<ExprV>) {
    if ls.len() > 0 && rs.len() > 0 {
        lemma_sizes_last(ls);
        lemma_sizes_last(rs);
    }
}

#[via_fn]
proof fn cmp_rev_rep_decreases(ls: Seq<ExprV>, r: ExprV) {
    if ls.len() > 0 {
        lemma_sizes_last(ls);
    }
}

#[via_fn]
proof fn cmp_rep_rev_decreases(l: ExprV, rs: Seq<ExprV>) {
    if rs.len() > 0 {
        lemma_sizes_last(rs);
    }
}

} // verus!
