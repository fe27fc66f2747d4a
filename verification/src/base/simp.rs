//! Normalization of algebraic nodes: numeric folding over exact integers
//! and canonical sorting of associative children. Deeper algebraic
//! simplification laws (combination of like terms and the like) are outside
//! this layer.

use vstd::prelude::*;

use crate::base::ord::{cmp_v, lemma_cmp_flip, Rel};
use crate::base::{
    is_leaf, lemma_sizes_index, lemma_sizev_pos, lemma_views_of, lemma_views_push, sizes, sizev,
    view_of, views_of, AOp, Algebra, BOp, Expr, ExprV, Form, Function, Number, SymbolicResult, UOp,
};

verus! {

broadcast use vstd::seq::group_seq_axioms, vstd::std_specs::vec::group_vec_axioms, lemma_sizev_pos;

/// Adjacent pairs of the sequence are in non-decreasing canonical order.
pub open spec fn sorted_r(s: Seq<ExprV>) -> bool {
    forall|i: int| 0 <= i < s.len() - 1 ==> !(cmp_v(#[trigger] s[i], s[i + 1]) is Greater)
}

/// Every associative node anywhere in the value keeps its children in
/// non-decreasing canonical order.
pub open spec fn norm_sorted(e: ExprV) -> bool
    decreases e,
{
    match e {
        ExprV::Sym(_) => true,
        ExprV::Cte(_) => true,
        ExprV::Num(_) => true,
        ExprV::UExpr(_, a) => norm_sorted(*a),
        ExprV::BExpr(_, b, x) => norm_sorted(*b) && norm_sorted(*x),
        ExprV::AssocExpr(_, s) => sorted_r(s) && all_norm(s),
        ExprV::MapExpr(_, s) => all_norm(s),
        ExprV::SqExpr(_, _, lo, up, a) => norm_sorted(*lo) && norm_sorted(*up) && norm_sorted(*a),
    }
}

/// Every element of the sequence is normalized-sorted.
pub open spec fn all_norm(s: Seq<ExprV>) -> bool
    decreases s,
{
    if s.len() == 0 {
        true
    } else {
        norm_sorted(s[0]) && all_norm(s.drop_first())
    }
}

/// `all_norm` holds exactly when every element is normalized-sorted.
pub proof fn lemma_all_norm(s: Seq<ExprV>)
    ensures
        all_norm(s) <==> (forall|i: int| 0 <= i < s.len() ==> norm_sorted(#[trigger] s[i])),
    decreases s,
{
    if s.len() > 0 {
        lemma_all_norm(s.drop_first());
        assert(forall|i: int| 1 <= i < s.len() ==> #[trigger] s[i] == s.drop_first()[i - 1]);
    }
}

/// The larger of two naturals.
pub open spec fn nmax(a: nat, b: nat) -> nat {
    if a >= b {
        a
    } else {
        b
    }
}

/// Nesting depth of sequence nodes inside the value.
pub open spec fn sqd(e: ExprV) -> nat
    decreases e,
{
    match e {
        ExprV::Sym(_) => 0,
        ExprV::Cte(_) => 0,
        ExprV::Num(_) => 0,
        ExprV::UExpr(_, a) => sqd(*a),
        ExprV::BExpr(_, b, x) => nmax(sqd(*b), sqd(*x)),
        ExprV::AssocExpr(_, s) => sqd_seq(s),
        ExprV::MapExpr(_, s) => sqd_seq(s),
        ExprV::SqExpr(_, _, lo, up, a) => 1 + nmax(sqd(*lo), nmax(sqd(*up), sqd(*a))),
    }
}

/// Largest sequence-nesting depth over the elements.
pub open spec fn sqd_seq(s: Seq<ExprV>) -> nat
    decreases s,
{
    if s.len() == 0 {
        0
    } else {
        nmax(sqd(s[0]), sqd_seq(s.drop_first()))
    }
}

/// No element nests sequences deeper than the whole sequence.
pub proof fn lemma_sqd_seq_index(s: Seq<ExprV>, i: int)
    requires
        0 <= i < s.len(),
    ensures
        sqd(s[i]) <= sqd_seq(s),
    decreases s,
{
    if i > 0 {
        lemma_sqd_seq_index(s.drop_first(), i - 1);
    }
}

/// Substitution nests sequences no deeper than the nesting of the tree
/// plus that of the replacement.
pub proof fn lemma_sqd_subs(e: ExprV, m: ExprV, r: ExprV)
    ensures
        sqd(crate::base::subsv(e, m, r)) <= sqd(e) + sqd(r),
    decreases e,
{
    if e == m {
    } else if crate::base::freev(e, m) {
    } else {
        match e {
            ExprV::Sym(_) => {},
            ExprV::Cte(_) => {},
            ExprV::Num(_) => {},
            ExprV::UExpr(_, a) => {
                lemma_sqd_subs(*a, m, r);
            },
            ExprV::BExpr(_, b, x) => {
                lemma_sqd_subs(*b, m, r);
                lemma_sqd_subs(*x, m, r);
            },
            ExprV::AssocExpr(_, c) => {
                lemma_sqd_subs_seq(c, m, r);
            },
            ExprV::MapExpr(_, c) => {
                lemma_sqd_subs_seq(c, m, r);
            },
            ExprV::SqExpr(_, _, lo, up, a) => {
                lemma_sqd_subs(*lo, m, r);
                lemma_sqd_subs(*up, m, r);
                lemma_sqd_subs(*a, m, r);
            },
        }
    }
}

/// Elementwise form of [`lemma_sqd_subs`].
pub proof fn lemma_sqd_subs_seq(c: Seq<ExprV>, m: ExprV, r: ExprV)
    ensures
        sqd_seq(crate::base::subs_seq(c, m, r)) <= sqd_seq(c) + sqd(r),
    decreases c,
{
    if c.len() > 0 {
        lemma_sqd_subs(c[0], m, r);
        lemma_sqd_subs_seq(c.drop_first(), m, r);
        assert(crate::base::subs_seq(c, m, r).drop_first() =~= crate::base::subs_seq(
            c.drop_first(),
            m,
            r,
        ));
        assert(crate::base::subs_seq(c, m, r)[0] == crate::base::subsv(c[0], m, r));
    }
}

/// Inside the machine range of exact integers.
pub open spec fn in_i128(x: int) -> bool {
    i128::MIN <= x <= i128::MAX
}

/// Result of a normalization step, over values.
pub open spec fn res_view(r: SymbolicResult<Expr>) -> Result<ExprV, Form> {
    match r {
        Ok(e) => Ok(e@),
        Err(f) => Err(f),
    }
}

/// Exact factorial.
pub open spec fn fact_s(n: nat) -> nat
    decreases n,
{
    if n == 0 {
        1
    } else {
        fact_s((n - 1) as nat) * n
    }
}

/// Exact integer power.
pub open spec fn pow_s(b: int, e: nat) -> int
    decreases e,
{
    if e == 0 {
        1
    } else {
        pow_s(b, (e - 1) as nat) * b
    }
}

/// Every intermediate value of the left power fold stays in the range.
pub open spec fn pow_steps_ok(b: int, e: nat) -> bool
    decreases e,
{
    if e == 0 {
        true
    } else {
        pow_steps_ok(b, (e - 1) as nat) && in_i128(pow_s(b, e))
    }
}

/// A prefix of an in-range power fold is in range.
pub proof fn lemma_pow_steps_prefix(b: int, k: nat, e: nat)
    requires
        k <= e,
        pow_steps_ok(b, e),
    ensures
        pow_steps_ok(b, k),
    decreases e,
{
    if k < e {
        lemma_pow_steps_prefix(b, k, (e - 1) as nat);
    }
}

/// Integer power: the value of the exact power when every step of the left
/// fold stays in the machine range, and nothing otherwise.
fn pow_i128(b: i128, e: i128) -> (r: Option<i128>)
    requires
        0 <= e,
    ensures
        r is Some <==> pow_steps_ok(b as int, e as nat),
        r is Some ==> r.unwrap() as int == pow_s(b as int, e as nat),
{
    let mut acc: i128 = 1;
    let mut k: i128 = 0;
    proof {
        assert(pow_s(b as int, 0) == 1);
    }
    while k < e
        invariant
            0 <= k <= e,
            pow_steps_ok(b as int, k as nat),
            acc as int == pow_s(b as int, k as nat),
        decreases e - k,
    {
        proof {
            assert(pow_s(b as int, (k + 1) as nat) == pow_s(b as int, k as nat) * b);
        }
        acc = match acc.checked_mul(b) {
            Some(v) => v,
            None => {
                proof {
                    assert(!pow_steps_ok(b as int, (k + 1) as nat));
                    if pow_steps_ok(b as int, e as nat) {
                        lemma_pow_steps_prefix(b as int, (k + 1) as nat, e as nat);
                    }
                }
                return None;
            },
        };
        k += 1;
    }
    Some(acc)
}

/// Every intermediate value of the factorial fold stays in the range.
pub open spec fn fact_steps_ok(n: nat) -> bool
    decreases n,
{
    if n == 0 {
        true
    } else {
        fact_steps_ok((n - 1) as nat) && fact_s(n) <= i128::MAX
    }
}

/// A prefix of an in-range factorial fold is in range.
pub proof fn lemma_fact_steps_prefix(k: nat, n: nat)
    requires
        k <= n,
        fact_steps_ok(n),
    ensures
        fact_steps_ok(k),
    decreases n,
{
    if k < n {
        lemma_fact_steps_prefix(k, (n - 1) as nat);
    }
}

/// Integer factorial: the exact factorial when every step of the fold stays
/// in the machine range, and nothing otherwise.
fn fact_i128(n: i128) -> (r: Option<i128>)
    requires
        0 <= n,
    ensures
        r is Some <==> fact_steps_ok(n as nat),
        r is Some ==> r.unwrap() as int == fact_s(n as nat),
{
    let mut acc: i128 = 1;
    let mut k: i128 = 0;
    proof {
        assert(fact_s(0) == 1);
    }
    while k < n
        invariant
            0 <= k <= n,
            fact_steps_ok(k as nat),
            acc as int == fact_s(k as nat),
        decreases n - k,
    {
        proof {
            assert(fact_s((k + 1) as nat) == fact_s(k as nat) * (k + 1));
        }
        acc = match acc.checked_mul(k + 1) {
            Some(v) => v,
            None => {
                proof {
                    assert(!fact_steps_ok((k + 1) as nat));
                    if fact_steps_ok(n as nat) {
                        lemma_fact_steps_prefix((k + 1) as nat, n as nat);
                    }
                }
                return None;
            },
        };
        k += 1;
    }
    Some(acc)
}

/// Insertion of a tree into a sorted sequence: before the first child that
/// comes after it in the canonical order.
pub open spec fn insert_v(s: Seq<ExprV>, x: ExprV) -> Seq<ExprV>
    decreases s.len(),
{
    if s.len() == 0 {
        seq![x]
    } else if cmp_v(s[0], x) is Greater {
        seq![x] + s
    } else {
        seq![s[0]] + insert_v(s.drop_first(), x)
    }
}

/// Insertion sort of a child sequence, element by element in order.
pub open spec fn sort_v(s: Seq<ExprV>) -> Seq<ExprV>
    decreases s.len(),
{
    if s.len() == 0 {
        Seq::empty()
    } else {
        insert_v(sort_v(s.drop_last()), s.last())
    }
}

/// One level of flattening: a child that is an associative node of the same
/// operator contributes its own children in place.
pub open spec fn flat_v(op: AOp, s: Seq<ExprV>) -> Seq<ExprV>
    decreases s.len(),
{
    if s.len() == 0 {
        Seq::empty()
    } else {
        flat_one(op, s[0]) + flat_v(op, s.drop_first())
    }
}

/// The contribution of one child to the flattening.
pub open spec fn flat_one(op: AOp, e: ExprV) -> Seq<ExprV> {
    match e {
        ExprV::AssocExpr(op2, kids) => if op2 == op {
            kids
        } else {
            seq![e]
        },
        _ => seq![e],
    }
}

/// Flattening decomposes at the back of the child sequence.
pub proof fn lemma_flat_push(op: AOp, s: Seq<ExprV>, e: ExprV)
    ensures
        flat_v(op, s.push(e)) == flat_v(op, s) + flat_one(op, e),
    decreases s.len(),
{
    if s.len() == 0 {
        assert(s.push(e).drop_first() =~= Seq::<ExprV>::empty());
        assert(s.push(e)[0] == e);
        assert(flat_v(op, s.push(e)) == flat_one(op, e) + flat_v(op, Seq::<ExprV>::empty()));
        assert(flat_v(op, s.push(e)) =~= flat_v(op, s) + flat_one(op, e));
    } else {
        lemma_flat_push(op, s.drop_first(), e);
        assert(s.push(e).drop_first() =~= s.drop_first().push(e));
        assert(s.push(e)[0] == s[0]);
        assert(flat_v(op, s.push(e)) == flat_one(op, s[0]) + (flat_v(op, s.drop_first())
            + flat_one(op, e)));
        assert(flat_v(op, s) == flat_one(op, s[0]) + flat_v(op, s.drop_first()));
        assert(flat_v(op, s.push(e)) =~= flat_v(op, s) + flat_one(op, e));
    }
}

/// Left fold of the numeric children into one exact integer by the
/// operator, keeping the remaining children in order; a fold step that
/// leaves the machine range fails.
pub open spec fn fold_nums(op: AOp, s: Seq<ExprV>, acc: int) -> Result<(int, Seq<ExprV>), Form>
    decreases s.len(),
{
    if s.len() == 0 {
        Ok((acc, Seq::empty()))
    } else {
        match s[0] {
            ExprV::Num(z) => {
                let a2 = if op is Add {
                    acc + z
                } else {
                    acc * z
                };
                if in_i128(a2) {
                    fold_nums(op, s.drop_first(), a2)
                } else {
                    Err(Form)
                }
            },
            _ => match fold_nums(op, s.drop_first(), acc) {
                Ok(p) => Ok((p.0, seq![s[0]] + p.1)),
                Err(f) => Err(f),
            },
        }
    }
}

/// Combination of already-normalized associative children: flatten one
/// level, fold the numeric children from the operator's identity, a zero
/// product collapses, the rest is sorted with the folded number inserted
/// unless it is the identity; an empty collection is the identity and a
/// single child stands alone.
pub open spec fn combine_v(op: AOp, args: Seq<ExprV>) -> Result<ExprV, Form> {
    match fold_nums(op, flat_v(op, args), op.identity()) {
        Err(f) => Err(f),
        Ok(p) => if op is Mul && p.0 == 0 {
            Ok(ExprV::Num(0))
        } else {
            let sorted = if p.0 != op.identity() {
                insert_v(sort_v(p.1), ExprV::Num(p.0))
            } else {
                sort_v(p.1)
            };
            if sorted.len() == 0 {
                Ok(ExprV::Num(op.identity()))
            } else if sorted.len() == 1 {
                Ok(sorted[0])
            } else {
                Ok(ExprV::AssocExpr(op, sorted))
            }
        },
    }
}

/// Inserting before the first larger child is the canonical insertion.
pub proof fn lemma_scan_insert(s: Seq<ExprV>, x: ExprV, j: int)
    requires
        0 <= j <= s.len(),
        forall|k: int| 0 <= k < j ==> !(cmp_v(#[trigger] s[k], x) is Greater),
        j < s.len() ==> cmp_v(s[j], x) is Greater,
    ensures
        insert_v(s, x) == s.insert(j, x),
    decreases j,
{
    s.insert_ensures(j, x);
    if j == 0 {
        if s.len() == 0 {
            assert(insert_v(s, x) =~= s.insert(0, x));
        } else {
            assert(cmp_v(s[0], x) is Greater);
            assert(insert_v(s, x) =~= s.insert(0, x));
        }
    } else {
        assert(!(cmp_v(s[0], x) is Greater));
        assert(forall|k: int|
            0 <= k < j - 1 ==> #[trigger] s.drop_first()[k] == s[k + 1]);
        lemma_scan_insert(s.drop_first(), x, j - 1);
        s.drop_first().insert_ensures(j - 1, x);
        assert(insert_v(s, x) =~= s.insert(j, x));
    }
}

/// Normal form of an expression value: leaves stand, compound nodes rebuild
/// with normalized children, exact integers fold (factorial and power when
/// the fold stays in the machine range, else failure), associative children
/// combine by [`combine_v`], and a sequence with integer-literal bounds
/// unrolls over its inclusive range and combines; the first failure wins.
pub open spec fn trivial_v(e: ExprV) -> Result<ExprV, Form>
    decreases sqd(e), sizev(e), 1int,
        via trivial_v_decreases
{
    match e {
        ExprV::Sym(_) => Ok(e),
        ExprV::Cte(_) => Ok(e),
        ExprV::Num(_) => Ok(e),
        ExprV::UExpr(op, a) => match trivial_v(*a) {
            Err(f) => Err(f),
            Ok(a2) => match a2 {
                ExprV::Num(z) => if z >= 0 {
                    if fact_steps_ok(z as nat) {
                        Ok(ExprV::Num(fact_s(z as nat) as int))
                    } else {
                        Err(Form)
                    }
                } else {
                    Ok(ExprV::UExpr(op, Box::new(a2)))
                },
                _ => Ok(ExprV::UExpr(op, Box::new(a2))),
            },
        },
        ExprV::BExpr(op, b, x) => match trivial_v(*b) {
            Err(f) => Err(f),
            Ok(b2) => match trivial_v(*x) {
                Err(f) => Err(f),
                Ok(x2) => match (b2, x2) {
                    (ExprV::Num(zb), ExprV::Num(ze)) => if ze >= 0 {
                        if pow_steps_ok(zb, ze as nat) {
                            Ok(ExprV::Num(pow_s(zb, ze as nat)))
                        } else {
                            Err(Form)
                        }
                    } else {
                        Ok(ExprV::BExpr(op, Box::new(b2), Box::new(x2)))
                    },
                    _ => Ok(ExprV::BExpr(op, Box::new(b2), Box::new(x2))),
                },
            },
        },
        ExprV::AssocExpr(op, s) => match trivial_seq(s) {
            Err(f) => Err(f),
            Ok(ks) => combine_v(op, ks),
        },
        ExprV::MapExpr(n, s) => match trivial_seq(s) {
            Err(f) => Err(f),
            Ok(ks) => Ok(ExprV::MapExpr(n, ks)),
        },
        ExprV::SqExpr(q, ix, lo, up, a) => {
            let alg = if q is Sum {
                AOp::Add
            } else {
                AOp::Mul
            };
            match trivial_v(*a) {
                Err(f) => Err(f),
                Ok(a2) => match trivial_v(*lo) {
                    Err(f) => Err(f),
                    Ok(lo2) => match trivial_v(*up) {
                        Err(f) => Err(f),
                        Ok(up2) => match (lo2, up2) {
                            (ExprV::Num(l), ExprV::Num(u)) => if sqd(a2) <= sqd(*a) {
                                match unroll_v(ix, a2, l, u) {
                                    Err(f) => Err(f),
                                    Ok(ks) => combine_v(alg, ks),
                                }
                            } else {
                                // normalization never deepens sequence
                                // nesting, so this branch is unreachable; it
                                // keeps the definition well-founded
                                Err(Form)
                            },
                            _ => Ok(
                                ExprV::SqExpr(
                                    q,
                                    ix,
                                    Box::new(lo2),
                                    Box::new(up2),
                                    Box::new(a2),
                                ),
                            ),
                        },
                    },
                },
            }
        },
    }
}

/// Normal forms of a child sequence, in order; the first failure wins.
pub open spec fn trivial_seq(s: Seq<ExprV>) -> Result<Seq<ExprV>, Form>
    decreases sqd_seq(s), sizes(s), 2int,
        via trivial_seq_decreases
{
    if s.len() == 0 {
        Ok(Seq::empty())
    } else {
        match trivial_v(s[0]) {
            Err(f) => Err(f),
            Ok(e2) => match trivial_seq(s.drop_first()) {
                Err(f) => Err(f),
                Ok(ks) => Ok(seq![e2] + ks),
            },
        }
    }
}

/// Unrolled children of a sequence node: the normalized body with the index
/// substituted for each value of the inclusive range, in order; an empty
/// range gives no children; the first failure wins.
pub open spec fn unroll_v(ix: crate::base::SymV, body: ExprV, l: int, u: int) -> Result<
    Seq<ExprV>,
    Form,
>
    decreases sqd(body) + 1, 0int, (if l <= u {
        u - l + 1
    } else {
        0int
    }),
        via unroll_v_decreases
{
    if l > u {
        Ok(Seq::empty())
    } else {
        match trivial_v(crate::base::subsv(body, ExprV::Sym(ix), ExprV::Num(l))) {
            Err(f) => Err(f),
            Ok(e2) => match unroll_v(ix, body, l + 1, u) {
                Err(f) => Err(f),
                Ok(ks) => Ok(seq![e2] + ks),
            },
        }
    }
}

#[via_fn]
proof fn trivial_v_decreases(e: ExprV) {
    match e {
        ExprV::SqExpr(q, ix, lo, up, a) => {
        },
        _ => {},
    }
}

#[via_fn]
proof fn trivial_seq_decreases(s: Seq<ExprV>) {
    if s.len() > 0 {
        lemma_sqd_seq_index(s, 0);
        lemma_sizes_index(s, 0);
    }
}

#[via_fn]
proof fn unroll_v_decreases(ix: crate::base::SymV, body: ExprV, l: int, u: int) {
    if l <= u {
        lemma_sqd_subs(body, ExprV::Sym(ix), ExprV::Num(l));
    }
}

/// Nothing nests deeper than a common bound on every element.
pub proof fn lemma_sqd_seq_bound(s: Seq<ExprV>, b: nat)
    requires
        forall|i: int| 0 <= i < s.len() ==> sqd(#[trigger] s[i]) <= b,
    ensures
        sqd_seq(s) <= b,
    decreases s,
{
    if s.len() > 0 {
        lemma_sqd_seq_bound(s.drop_first(), b);
        assert(forall|i: int| 1 <= i < s.len() ==> #[trigger] s[i] == s.drop_first()[i - 1]);
    }
}

proof fn lemma_insert_norm(vs0: Seq<ExprV>, vsn: Seq<ExprV>, j: int, xv: ExprV)
    requires
        0 <= j <= vs0.len(),
        vsn.len() == vs0.len() + 1,
        forall|k: int| 0 <= k < j ==> #[trigger] vsn[k] == vs0[k],
        vsn[j] == xv,
        forall|k: int| j < k < vsn.len() ==> #[trigger] vsn[k] == vs0[k - 1],
        all_norm(vs0),
        norm_sorted(xv),
    ensures
        all_norm(vsn),
{
    lemma_all_norm(vs0);
    lemma_all_norm(vsn);
    assert forall|k: int| 0 <= k < vsn.len() implies norm_sorted(#[trigger] vsn[k]) by {
        if k != j {
            let k0 = if k < j {
                k
            } else {
                k - 1
            };
            assert(norm_sorted(vs0[k0]));
        }
    }
}

#[verifier::spinoff_prover]
#[verifier::rlimit(100)]
proof fn lemma_insert_sorted_seq(vs0: Seq<ExprV>, vsn: Seq<ExprV>, j: int, xv: ExprV)
    requires
        0 <= j <= vs0.len(),
        vsn.len() == vs0.len() + 1,
        forall|k: int| 0 <= k < j ==> #[trigger] vsn[k] == vs0[k],
        vsn[j] == xv,
        forall|k: int| j < k < vsn.len() ==> #[trigger] vsn[k] == vs0[k - 1],
        sorted_r(vs0),
        forall|k: int| 0 <= k < j ==> !(cmp_v(#[trigger] vs0[k], xv) is Greater),
        j < vs0.len() ==> cmp_v(vs0[j], xv) is Greater,
    ensures
        sorted_r(vsn),
{
    assert forall|i: int|
        0 <= i < vsn.len() - 1 implies !(cmp_v(#[trigger] vsn[i], vsn[i + 1]) is Greater) by {
        if i + 1 < j {
            assert(!(cmp_v(vs0[i], vs0[i + 1]) is Greater));
        } else if i + 1 == j {
            assert(!(cmp_v(vs0[i], xv) is Greater));
        } else if i == j {
            assert(cmp_v(vs0[j], xv) is Greater);
            lemma_cmp_flip(vs0[j], xv);
        } else {
            assert(!(cmp_v(vs0[i - 1], vs0[i]) is Greater));
        }
    }
}

proof fn lemma_insert_sqd(vs0: Seq<ExprV>, vsn: Seq<ExprV>, j: int, xv: ExprV)
    requires
        0 <= j <= vs0.len(),
        vsn.len() == vs0.len() + 1,
        forall|k: int| 0 <= k < j ==> #[trigger] vsn[k] == vs0[k],
        vsn[j] == xv,
        forall|k: int| j < k < vsn.len() ==> #[trigger] vsn[k] == vs0[k - 1],
    ensures
        sqd_seq(vsn) <= nmax(sqd_seq(vs0), sqd(xv)),
{
    assert forall|k: int|
        0 <= k < vsn.len() implies sqd(#[trigger] vsn[k]) <= nmax(sqd_seq(vs0), sqd(xv)) by {
        if k != j {
            let k0 = if k < j {
                k
            } else {
                k - 1
            };
            lemma_sqd_seq_index(vs0, k0);
        }
    }
    lemma_sqd_seq_bound(vsn, nmax(sqd_seq(vs0), sqd(xv)));
}

/// Pointwise values of a vector after insertion.
proof fn lemma_views_insert(s: Seq<Expr>, j: int, x: Expr)
    requires
        0 <= j <= s.len(),
    ensures
        views_of(s.insert(j, x)).len() == s.len() + 1,
        forall|k: int| 0 <= k < j ==> #[trigger] views_of(s.insert(j, x))[k] == views_of(s)[k],
        views_of(s.insert(j, x))[j] == x@,
        forall|k: int|
            j < k < s.len() + 1 ==> #[trigger] views_of(s.insert(j, x))[k] == views_of(s)[k - 1],
{
    s.insert_ensures(j, x);
    lemma_views_of(s);
    lemma_views_of(s.insert(j, x));
    assert forall|k: int| 0 <= k < j implies #[trigger] views_of(s.insert(j, x))[k] == views_of(
        s,
    )[k] by {
        assert(s.insert(j, x)[k] == s[k]);
    }
    assert forall|k: int|
        j < k < s.len() + 1 implies #[trigger] views_of(s.insert(j, x))[k] == views_of(s)[k
        - 1] by {
        assert(s.insert(j, x)[k] == s[k - 1]);
    }
}

/// The pointwise shape of an insertion is the canonical insertion value,
/// and its content is the old content plus the new element.
#[verifier::spinoff_prover]
proof fn lemma_insert_v_of(vs0: Seq<ExprV>, vsn: Seq<ExprV>, j: int, xv: ExprV)
    requires
        0 <= j <= vs0.len(),
        vsn.len() == vs0.len() + 1,
        forall|k: int| 0 <= k < j ==> #[trigger] vsn[k] == vs0[k],
        vsn[j] == xv,
        forall|k: int| j < k < vsn.len() ==> #[trigger] vsn[k] == vs0[k - 1],
        forall|k: int| 0 <= k < j ==> !(cmp_v(#[trigger] vs0[k], xv) is Greater),
        j < vs0.len() ==> cmp_v(vs0[j], xv) is Greater,
    ensures
        vsn.to_multiset() == vs0.to_multiset().insert(xv),
        vsn == insert_v(vs0, xv),
{
    vs0.insert_ensures(j, xv);
    assert(vsn =~= vs0.insert(j, xv));
    vstd::seq_lib::to_multiset_insert(vs0, j, xv);
    lemma_scan_insert(vs0, xv, j);
}

/// Insert a normalized tree into a vector kept in non-decreasing canonical
/// order, keeping the order.
#[verifier::spinoff_prover]
#[verifier::rlimit(100)]
fn insert_sorted(v: &mut Vec<Expr>, x: Expr)
    requires
        sorted_r(views_of(old(v)@)),
        all_norm(views_of(old(v)@)),
        norm_sorted(x@),
    ensures
        final(v)@.len() == old(v)@.len() + 1,
        sorted_r(views_of(final(v)@)),
        all_norm(views_of(final(v)@)),
        sqd_seq(views_of(final(v)@)) <= nmax(sqd_seq(views_of(old(v)@)), sqd(x@)),
        views_of(final(v)@).to_multiset() == views_of(old(v)@).to_multiset().insert(x@),
        views_of(final(v)@) == insert_v(views_of(old(v)@), x@),
{
    proof {
        lemma_views_of(v@);
    }
    let ghost vs0 = views_of(v@);
    let mut j: usize = 0;
    loop
        invariant
            0 <= j <= v@.len(),
            v@ == old(v)@,
            vs0 == views_of(v@),
            vs0.len() == v@.len(),
            forall|k: int| 0 <= k < v@.len() ==> vs0[k] == view_of(#[trigger] v@[k]),
            forall|k: int| 0 <= k < j ==> !(cmp_v(#[trigger] vs0[k], x@) is Greater),
        ensures
            0 <= j <= v@.len(),
            forall|k: int| 0 <= k < j ==> !(cmp_v(#[trigger] vs0[k], x@) is Greater),
            j < v@.len() ==> cmp_v(vs0[j as int], x@) is Greater,
        decreases v@.len() - j,
    {
        if j == v.len() {
            break ;
        }
        let c = v[j].cmp(&x);
        match c {
            Rel::Greater => {
                break ;
            },
            _ => {
                j += 1;
            },
        }
    }
    let ghost xv = x@;
    proof {
        lemma_views_insert(old(v)@, j as int, x);
    }
    v.insert(j, x);
    proof {
        let vsn = views_of(v@);
        lemma_insert_norm(vs0, vsn, j as int, xv);
        lemma_insert_sorted_seq(vs0, vsn, j as int, xv);
        lemma_insert_sqd(vs0, vsn, j as int, xv);
        lemma_insert_v_of(vs0, vsn, j as int, xv);
    }
}

/// Copy of the elements in non-decreasing canonical order.
#[verifier::rlimit(60)]
fn sort_exprs(arg: &Vec<Expr>) -> (r: Vec<Expr>)
    requires
        all_norm(views_of(arg@)),
    ensures
        r@.len() == arg@.len(),
        sorted_r(views_of(r@)),
        all_norm(views_of(r@)),
        sqd_seq(views_of(r@)) <= sqd_seq(views_of(arg@)),
        views_of(r@).to_multiset() == views_of(arg@).to_multiset(),
        views_of(r@) == sort_v(views_of(arg@)),
{
    proof {
        lemma_views_of(arg@);
        lemma_all_norm(views_of(arg@));
    }
    let ghost va = views_of(arg@);
    let mut out: Vec<Expr> = Vec::new();
    let mut i: usize = 0;
    proof {
        assert(views_of(out@) =~= Seq::<ExprV>::empty());
        assert(va.take(0) =~= Seq::<ExprV>::empty());
    }
    while i < arg.len()
        invariant
            0 <= i <= arg@.len(),
            va == views_of(arg@),
            va.len() == arg@.len(),
            all_norm(va),
            forall|k: int| 0 <= k < arg@.len() ==> va[k] == view_of(#[trigger] arg@[k]),
            out@.len() == i,
            sorted_r(views_of(out@)),
            all_norm(views_of(out@)),
            sqd_seq(views_of(out@)) <= sqd_seq(va),
            views_of(out@).to_multiset() == va.take(i as int).to_multiset(),
            views_of(out@) == sort_v(va.take(i as int)),
        decreases arg@.len() - i,
    {
        let x = arg[i].dup();
        proof {
            lemma_all_norm(va);
            assert(norm_sorted(va[i as int]));
            lemma_sqd_seq_index(va, i as int);
            assert(va.take(i + 1) =~= va.take(i as int).push(va[i as int]));
            vstd::seq_lib::to_multiset_build(va.take(i as int), va[i as int]);
            assert(va.take(i + 1).drop_last() =~= va.take(i as int));
            assert(va.take(i + 1).last() == va[i as int]);
        }
        insert_sorted(&mut out, x);
        i += 1;
    }
    proof {
        assert(va.take(arg@.len() as int) =~= va);
    }
    out
}

/// Appending a normalized, depth-bounded element keeps both facts.
pub(crate) proof fn lemma_push_norm(s: Seq<Expr>, x: Expr, b: nat)
    requires
        all_norm(views_of(s)),
        norm_sorted(x@),
        sqd_seq(views_of(s)) <= b,
        sqd(x@) <= b,
    ensures
        all_norm(views_of(s.push(x))),
        sqd_seq(views_of(s.push(x))) <= b,
{
    lemma_views_push(s, x);
    lemma_views_of(s);
    lemma_views_of(s.push(x));
    lemma_all_norm(views_of(s));
    lemma_all_norm(views_of(s.push(x)));
    assert forall|k: int|
        0 <= k < views_of(s.push(x)).len() implies sqd(#[trigger] views_of(s.push(x))[k]) <= b by {
        if k < s.len() {
            assert(views_of(s.push(x))[k] == views_of(s)[k]);
            lemma_sqd_seq_index(views_of(s), k);
        } else {
            assert(views_of(s.push(x))[k] == x@);
        }
    }
    lemma_sqd_seq_bound(views_of(s.push(x)), b);
}

/// Identity element of an associative operator.
fn identity_of(op: AOp) -> (r: i128)
    ensures
        r as int == op.identity(),
{
    match op {
        AOp::Add => 0,
        AOp::Mul => 1,
    }
}

/// Combine already-normalized children of an associative node: flatten
/// same-operator children one level, fold the numeric children into one
/// exact integer (an empty collection folds to the operator's identity),
/// and keep the remaining children in non-decreasing canonical order.
#[verifier::spinoff_prover]
#[verifier::rlimit(100)]
pub(crate) fn assoc_combine(op: AOp, args: &Vec<Expr>) -> (r: SymbolicResult<Expr>)
    requires
        all_norm(views_of(args@)),
    ensures
        r is Ok ==> norm_sorted(r.unwrap()@) && sqd(r.unwrap()@) <= sqd_seq(views_of(args@)),
        res_view(r) == combine_v(op, views_of(args@)),
{
    proof {
        lemma_views_of(args@);
    }
    let ghost va = views_of(args@);
    let ghost bound = sqd_seq(va);
    let mut flat: Vec<Expr> = Vec::new();
    let mut i: usize = 0;
    proof {
        assert(views_of(flat@) =~= Seq::<ExprV>::empty());
        assert(va.take(0) =~= Seq::<ExprV>::empty());
        assert(views_of(flat@) =~= flat_v(op, va.take(0)));
    }
    while i < args.len()
        invariant
            0 <= i <= args@.len(),
            va == views_of(args@),
            bound == sqd_seq(va),
            va.len() == args@.len(),
            all_norm(va),
            forall|k: int| 0 <= k < args@.len() ==> va[k] == view_of(#[trigger] args@[k]),
            all_norm(views_of(flat@)),
            sqd_seq(views_of(flat@)) <= bound,
            views_of(flat@) == flat_v(op, va.take(i as int)),
        decreases args@.len() - i,
    {
        proof {
            lemma_all_norm(va);
            lemma_sqd_seq_index(va, i as int);
            lemma_flat_push(op, va.take(i as int), va[i as int]);
            assert(va.take(i + 1) =~= va.take(i as int).push(va[i as int]));
        }
        let mut flattened = false;
        if let Expr::Alg(Algebra::AssocExpr { map, arg }) = &args[i] {
            if *map == op {
                proof {
                    lemma_views_of(arg@);
                    lemma_all_norm(views_of(arg@));
                }
                let ghost vc = views_of(arg@);
                proof {
                    assert(va[i as int] == ExprV::AssocExpr(op, vc));
                    assert(flat_one(op, va[i as int]) == vc);
                    assert(vc.take(0) =~= Seq::<ExprV>::empty());
                    assert(views_of(flat@) + vc.take(0) =~= views_of(flat@));
                }
                let mut k: usize = 0;
                while k < arg.len()
                    invariant
                        0 <= k <= arg@.len(),
                        vc == views_of(arg@),
                        vc.len() == arg@.len(),
                        all_norm(vc),
                        sqd_seq(vc) <= bound,
                        forall|t: int| 0 <= t < arg@.len() ==> vc[t] == view_of(
                            #[trigger] arg@[t],
                        ),
                        all_norm(views_of(flat@)),
                        sqd_seq(views_of(flat@)) <= bound,
                        views_of(flat@) == flat_v(op, va.take(i as int)) + vc.take(k as int),
                    decreases arg@.len() - k,
                {
                    let x = arg[k].dup();
                    proof {
                        lemma_all_norm(vc);
                        lemma_sqd_seq_index(vc, k as int);
                        lemma_push_norm(flat@, x, bound);
                        lemma_views_push(flat@, x);
                        assert(vc.take(k + 1) =~= vc.take(k as int).push(vc[k as int]));
                        assert((flat_v(op, va.take(i as int)) + vc.take(k as int)) + seq![
                            vc[k as int],
                        ] =~= flat_v(op, va.take(i as int)) + vc.take(k + 1));
                    }
                    flat.push(x);
                    k += 1;
                }
                proof {
                    assert(vc.take(arg@.len() as int) =~= vc);
                }
                flattened = true;
            }
        }
        if !flattened {
            let x = args[i].dup();
            proof {
                lemma_push_norm(flat@, x, bound);
                lemma_views_push(flat@, x);
                assert(flat_one(op, va[i as int]) =~= seq![va[i as int]]);
                assert(views_of(flat@) + seq![va[i as int]] =~= flat_v(op, va.take(i + 1)));
            }
            flat.push(x);
        }
        i += 1;
    }
    proof {
        assert(va.take(args@.len() as int) =~= va);
    }
    let mut acc: i128 = identity_of(op);
    let mut rest: Vec<Expr> = Vec::new();
    let ghost vf = views_of(flat@);
    let mut i: usize = 0;
    proof {
        assert(views_of(rest@) =~= Seq::<ExprV>::empty());
        lemma_views_of(flat@);
        assert(vf == flat_v(op, va));
        assert(vf.skip(0) =~= vf);
        match fold_nums(op, vf, op.identity()) {
            Ok(p) => {
                assert(Seq::<ExprV>::empty() + p.1 =~= p.1);
            },
            Err(_) => {},
        }
    }
    while i < flat.len()
        invariant
            0 <= i <= flat@.len(),
            vf == views_of(flat@),
            va == views_of(args@),
            vf == flat_v(op, va),
            vf.len() == flat@.len(),
            all_norm(vf),
            sqd_seq(vf) <= bound,
            forall|k: int| 0 <= k < flat@.len() ==> vf[k] == view_of(#[trigger] flat@[k]),
            all_norm(views_of(rest@)),
            sqd_seq(views_of(rest@)) <= bound,
            fold_nums(op, vf, op.identity()) == (match fold_nums(
                op,
                vf.skip(i as int),
                acc as int,
            ) {
                Ok(p) => Ok::<(int, Seq<ExprV>), Form>((p.0, views_of(rest@) + p.1)),
                Err(f) => Err(f),
            }),
        decreases flat@.len() - i,
    {
        proof {
            assert(vf.skip(i as int)[0] == vf[i as int]);
            assert(vf.skip(i as int).drop_first() =~= vf.skip(i + 1));
        }
        let mut folded = false;
        if let Expr::Num(Number::Z(z)) = &flat[i] {
            proof {
                assert(vf[i as int] == ExprV::Num(*z as int));
            }
            let step = match op {
                AOp::Add => acc.checked_add(*z),
                AOp::Mul => acc.checked_mul(*z),
            };
            acc = match step {
                Some(v) => v,
                None => {
                    proof {
                        assert(fold_nums(op, vf.skip(i as int), acc as int) == Err::<
                            (int, Seq<ExprV>),
                            Form,
                        >(Form));
                        assert(combine_v(op, va) == Err::<ExprV, Form>(Form));
                    }
                    return Err(Form);
                },
            };
            folded = true;
        }
        if !folded {
            let x = flat[i].dup();
            proof {
                lemma_all_norm(vf);
                lemma_sqd_seq_index(vf, i as int);
                lemma_push_norm(rest@, x, bound);
                lemma_views_push(rest@, x);
                match fold_nums(op, vf.skip(i + 1), acc as int) {
                    Ok(p) => {
                        assert(views_of(rest@) + (seq![vf[i as int]] + p.1) =~= (views_of(rest@)
                            + seq![vf[i as int]]) + p.1);
                    },
                    Err(_) => {},
                }
            }
            rest.push(x);
        }
        i += 1;
    }
    proof {
        assert(vf.skip(flat@.len() as int) =~= Seq::<ExprV>::empty());
        match fold_nums(op, vf, op.identity()) {
            Ok(p) => {
                assert(views_of(rest@) + Seq::<ExprV>::empty() =~= views_of(rest@));
            },
            Err(_) => {},
        }
        assert(fold_nums(op, vf, op.identity()) == Ok::<(int, Seq<ExprV>), Form>(
            (acc as int, views_of(rest@)),
        ));
    }
    if matches!(op, AOp::Mul) && acc == 0 {
        proof {
            assert(combine_v(op, va) == Ok::<ExprV, Form>(ExprV::Num(0)));
        }
        return Ok(Expr::Num(Number::Z(0)));
    }
    let mut sorted = sort_exprs(&rest);
    let idv = identity_of(op);
    if acc != idv {
        let x = Expr::Num(Number::Z(acc));
        insert_sorted(&mut sorted, x);
    }
    proof {
        lemma_views_of(sorted@);
    }
    if sorted.len() == 0 {
        proof {
            assert(combine_v(op, va) == Ok::<ExprV, Form>(ExprV::Num(op.identity())));
        }
        return Ok(Expr::Num(Number::Z(idv)));
    }
    if sorted.len() == 1 {
        proof {
            lemma_all_norm(views_of(sorted@));
            lemma_sqd_seq_index(views_of(sorted@), 0);
        }
        return match sorted.pop() {
            Some(e) => {
                proof {
                    assert(combine_v(op, va) == Ok::<ExprV, Form>(e@));
                }
                Ok(e)
            },
            None => Err(Form),
        };
    }
    Ok(Expr::Alg(Algebra::AssocExpr { map: op, arg: sorted }))
}

impl Expr {
    /// Apply the normalization laws of this layer: leaves return themselves
    /// (numbers through their own normalization), compound nodes rebuild
    /// with normalized children, folding exact integers and keeping every
    /// associative node's children in non-decreasing canonical order.
    /// Failure of a numeric step (overflow of the exact-integer range) is
    /// propagated unchanged.
    pub fn trivial(self) -> (r: SymbolicResult<Expr>)
        ensures
            r is Ok ==> norm_sorted(r.unwrap()@) && sqd(r.unwrap()@) <= sqd(self@),
            is_leaf(self@) ==> r == Ok::<Expr, Form>(self),
            res_view(r) == trivial_v(self@),
        decreases sqd(self@), sizev(self@), 1int,
    {
        match self {
            Expr::Sym(s) => Ok(Expr::Sym(s)),
            Expr::Cte(c) => Ok(Expr::Cte(c)),
            Expr::Num(n) => match n.trivial() {
                Ok(n2) => Ok(Expr::Num(n2)),
                Err(f) => Err(f),
            },
            Expr::Alg(Algebra::UExpr { map: UOp::Fact, arg }) => {
                let a = match (*arg).trivial() {
                    Ok(a) => a,
                    Err(f) => {
                        return Err(f);
                    },
                };
                let mut num: Option<i128> = None;
                if let Expr::Num(Number::Z(z)) = &a {
                    if *z >= 0 {
                        num = Some(*z);
                    }
                }
                match num {
                    Some(z) => match fact_i128(z) {
                        Some(v) => Ok(Expr::Num(Number::Z(v))),
                        None => Err(Form),
                    },
                    None => Ok(Expr::Alg(Algebra::UExpr { map: UOp::Fact, arg: Box::new(a) })),
                }
            },
            Expr::Alg(Algebra::BExpr { map: BOp::Pow, arg }) => {
                let (bb, be) = arg;
                let b = match (*bb).trivial() {
                    Ok(b) => b,
                    Err(f) => {
                        return Err(f);
                    },
                };
                let x = match (*be).trivial() {
                    Ok(x) => x,
                    Err(f) => {
                        return Err(f);
                    },
                };
                let mut pair: Option<(i128, i128)> = None;
                if let Expr::Num(Number::Z(zb)) = &b {
                    if let Expr::Num(Number::Z(ze)) = &x {
                        if *ze >= 0 {
                            pair = Some((*zb, *ze));
                        }
                    }
                }
                match pair {
                    Some((zb, ze)) => match pow_i128(zb, ze) {
                        Some(v) => Ok(Expr::Num(Number::Z(v))),
                        None => Err(Form),
                    },
                    None => Ok(
                        Expr::Alg(
                            Algebra::BExpr { map: BOp::Pow, arg: (Box::new(b), Box::new(x)) },
                        ),
                    ),
                }
            },
            Expr::Alg(Algebra::AssocExpr { map, arg }) => {
                let kids = match trivial_vec(&arg) {
                    Ok(kids) => kids,
                    Err(f) => {
                        return Err(f);
                    },
                };
                assoc_combine(map, &kids)
            },
            Expr::Fun(Function::MapExpr { map, arg }) => {
                let kids = match trivial_vec(&arg) {
                    Ok(kids) => kids,
                    Err(f) => {
                        return Err(f);
                    },
                };
                proof {
                    lemma_views_of(kids@);
                }
                Ok(Expr::Fun(Function::MapExpr { map, arg: kids }))
            },
            Expr::Sq(q) => q.sq_trivial(),
        }
    }
}

/// Normalize every element of a child vector, stopping at the first failure.
fn trivial_vec(arg: &Vec<Expr>) -> (r: SymbolicResult<Vec<Expr>>)
    ensures
        r is Ok ==> all_norm(views_of(r.unwrap()@)) && sqd_seq(views_of(r.unwrap()@)) <= sqd_seq(
            views_of(arg@),
        ),
        match r {
            Ok(ks) => trivial_seq(views_of(arg@)) == Ok::<Seq<ExprV>, Form>(views_of(ks@)),
            Err(f) => trivial_seq(views_of(arg@)) == Err::<Seq<ExprV>, Form>(f),
        },
    decreases sqd_seq(views_of(arg@)), sizes(views_of(arg@)), 2int,
{
    proof {
        lemma_views_of(arg@);
    }
    let ghost va = views_of(arg@);
    let mut out: Vec<Expr> = Vec::new();
    let mut i: usize = 0;
    proof {
        assert(views_of(out@) =~= Seq::<ExprV>::empty());
        assert(va.skip(0) =~= va);
        match trivial_seq(va) {
            Ok(p) => {
                assert(Seq::<ExprV>::empty() + p =~= p);
            },
            Err(_) => {},
        }
    }
    while i < arg.len()
        invariant
            0 <= i <= arg@.len(),
            va == views_of(arg@),
            va.len() == arg@.len(),
            forall|k: int| 0 <= k < arg@.len() ==> va[k] == view_of(#[trigger] arg@[k]),
            all_norm(views_of(out@)),
            sqd_seq(views_of(out@)) <= sqd_seq(va),
            trivial_seq(va) == (match trivial_seq(va.skip(i as int)) {
                Ok(ks) => Ok::<Seq<ExprV>, Form>(views_of(out@) + ks),
                Err(f) => Err(f),
            }),
        decreases arg@.len() - i,
    {
        proof {
            lemma_sqd_seq_index(va, i as int);
            lemma_sizes_index(va, i as int);
            assert(va.skip(i as int)[0] == va[i as int]);
            assert(va.skip(i as int).drop_first() =~= va.skip(i + 1));
        }
        let c = arg[i].dup();
        let t = match c.trivial() {
            Ok(t) => t,
            Err(f) => {
                proof {
                    assert(trivial_seq(va.skip(i as int)) == Err::<Seq<ExprV>, Form>(f));
                }
                return Err(f);
            },
        };
        proof {
            lemma_push_norm(out@, t, sqd_seq(va));
            lemma_views_push(out@, t);
            match trivial_seq(va.skip(i + 1)) {
                Ok(ks) => {
                    assert(views_of(out@) + (seq![t@] + ks) =~= (views_of(out@) + seq![t@]) + ks);
                },
                Err(_) => {},
            }
        }
        out.push(t);
        i += 1;
    }
    proof {
        assert(va.skip(arg@.len() as int) =~= Seq::<ExprV>::empty());
        match trivial_seq(va) {
            Ok(_) => {
                assert(views_of(out@) + Seq::<ExprV>::empty() =~= views_of(out@));
            },
            Err(_) => {},
        }
    }
    Ok(out)
}

} // verus!
