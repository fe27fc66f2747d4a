//! Bounded sequences (sums and products) over an index symbol, and their
//! unrolling into associative nodes.

use vstd::prelude::*;

use crate::base::simp::{
    all_norm, combine_v, lemma_sqd_subs, norm_sorted, res_view, sqd, sqd_seq, trivial_v, unroll_v,
};
use crate::base::{
    lemma_sizev_pos, sizev, view_of, AOp, Expr, ExprV, Form, Number, Symbol, SymbolicResult,
};

verus! {

broadcast use vstd::seq::group_seq_axioms, vstd::std_specs::vec::group_vec_axioms, lemma_sizev_pos;

/// A list of sequential operators.
#[derive(Debug, Clone, Copy, PartialEq, Eq, Structural)]
pub enum SqOp {
    Sum,
    Prod,
}

/// Sequence node: operator, bound index symbol, lower bound, upper bound and
/// body expression.
#[derive(Debug, PartialEq, Eq)]
pub struct Sequence {
    pub map: SqOp,
    pub idx: Symbol,
    pub lo: Box<Expr>,
    pub up: Box<Expr>,
    pub arg: Box<Expr>,
}

impl Sequence {
    /// Apply sequential simplifications: normalize the body and the bounds;
    /// when both bounds are integer literals, unroll the inclusive range
    /// (which may be empty) by substituting the index into the body for each
    /// value, collect the results into one associative node tagged by the
    /// operator, and normalize that node; otherwise keep the sequence
    /// unevaluated with its parts normalized.
    pub fn sq_trivial(self) -> (r: SymbolicResult<Expr>)
        ensures
            r is Ok ==> norm_sorted(r.unwrap()@) && sqd(r.unwrap()@) <= sqd(
                view_of(Expr::Sq(self)),
            ),
            res_view(r) == trivial_v(view_of(Expr::Sq(self))),
        decreases sqd(view_of(Expr::Sq(self))), sizev(view_of(Expr::Sq(self))), 0int,
    {
        let ghost sqv = view_of(Expr::Sq(self));
        let Sequence { map, idx, lo, up, arg } = self;
        let alg = match map {
            SqOp::Sum => AOp::Add,
            SqOp::Prod => AOp::Mul,
        };
        let arg = match (*arg).trivial() {
            Ok(a) => a,
            Err(f) => {
                return Err(f);
            },
        };
        let lo = match (*lo).trivial() {
            Ok(a) => a,
            Err(f) => {
                return Err(f);
            },
        };
        let up = match (*up).trivial() {
            Ok(a) => a,
            Err(f) => {
                return Err(f);
            },
        };
        let mut bounds: Option<(i128, i128)> = None;
        if let Expr::Num(Number::Z(l)) = &lo {
            if let Expr::Num(Number::Z(u)) = &up {
                bounds = Some((*l, *u));
            }
        }
        match bounds {
            Some((l, u)) => {
                let ghost limit = sqd(view_of(Expr::Sq(self)));
                let ghost av = arg@;
                let ghost ixv = idx@;
                proof {
                    assert(trivial_v(sqv) == (match unroll_v(ixv, av, l as int, u as int) {
                        Err(f) => Err::<ExprV, Form>(f),
                        Ok(ks) => combine_v(alg, ks),
                    }));
                }
                let idx_e = Expr::Sym(idx);
                let mut kids: Vec<Expr> = Vec::new();
                proof {
                    assert(crate::base::views_of(kids@) =~= Seq::<ExprV>::empty());
                    match unroll_v(ixv, av, l as int, u as int) {
                        Ok(p) => {
                            assert(Seq::<ExprV>::empty() + p =~= p);
                        },
                        Err(_) => {},
                    }
                }
                if l <= u {
                    let mut k: i128 = l;
                    loop
                        invariant_except_break
                            unroll_v(ixv, av, l as int, u as int) == (match unroll_v(
                                ixv,
                                av,
                                k as int,
                                u as int,
                            ) {
                                Ok(ks) => Ok::<Seq<ExprV>, Form>(
                                    crate::base::views_of(kids@) + ks,
                                ),
                                Err(f) => Err(f),
                            }),
                        invariant
                            l <= k <= u,
                            sqv == view_of(Expr::Sq(self)),
                            limit == sqd(view_of(Expr::Sq(self))),
                            av == arg@,
                            ixv == idx_e@->Sym_0,
                            idx_e@ == ExprV::Sym(ixv),
                            sqd(arg@) < limit,
                            all_norm(crate::base::views_of(kids@)),
                            sqd_seq(crate::base::views_of(kids@)) < limit,
                            trivial_v(sqv) == (match unroll_v(ixv, av, l as int, u as int) {
                                Err(f) => Err::<ExprV, Form>(f),
                                Ok(ks) => combine_v(alg, ks),
                            }),
                        ensures
                            unroll_v(ixv, av, l as int, u as int) == Ok::<Seq<ExprV>, Form>(
                                crate::base::views_of(kids@),
                            ),
                            all_norm(crate::base::views_of(kids@)),
                            sqd_seq(crate::base::views_of(kids@)) < limit,
                            trivial_v(sqv) == (match unroll_v(ixv, av, l as int, u as int) {
                                Err(f) => Err::<ExprV, Form>(f),
                                Ok(ks) => combine_v(alg, ks),
                            }),
                        decreases u - k,
                    {
                        let t = arg.subs(&idx_e, &Expr::Num(Number::Z(k)));
                        proof {
                            lemma_sqd_subs(arg@, idx_e@, ExprV::Num(k as int));
                            assert(sqd(ExprV::Num(k as int)) == 0);
                            assert(sqd(t@) <= sqd(arg@));
                        }
                        let t2 = match t.trivial() {
                            Ok(t2) => t2,
                            Err(f) => {
                                proof {
                                    assert(unroll_v(ixv, av, k as int, u as int) == Err::<
                                        Seq<ExprV>,
                                        Form,
                                    >(f));
                                }
                                return Err(f);
                            },
                        };
                        proof {
                            crate::base::simp::lemma_push_norm(
                                kids@,
                                t2,
                                (limit - 1) as nat,
                            );
                            crate::base::lemma_views_push(kids@, t2);
                            match unroll_v(ixv, av, k + 1, u as int) {
                                Ok(ks) => {
                                    assert(crate::base::views_of(kids@) + (seq![t2@] + ks)
                                        =~= (crate::base::views_of(kids@) + seq![t2@]) + ks);
                                },
                                Err(_) => {},
                            }
                        }
                        kids.push(t2);
                        if k == u {
                            proof {
                                assert(unroll_v(ixv, av, k + 1, u as int) == Ok::<
                                    Seq<ExprV>,
                                    Form,
                                >(Seq::<ExprV>::empty()));
                                match unroll_v(ixv, av, l as int, u as int) {
                                    Ok(_) => {
                                        assert(crate::base::views_of(kids@)
                                            + Seq::<ExprV>::empty() =~= crate::base::views_of(
                                            kids@,
                                        ));
                                    },
                                    Err(_) => {},
                                }
                            }
                            break ;
                        }
                        k += 1;
                    }
                } else {
                    proof {
                        assert(unroll_v(ixv, av, l as int, u as int) == Ok::<Seq<ExprV>, Form>(
                            Seq::<ExprV>::empty(),
                        ));
                    }
                }
                crate::base::simp::assoc_combine(alg, &kids)
            },
            None => Ok(
                Expr::Sq(
                    Sequence {
                        map,
                        idx,
                        lo: Box::new(lo),
                        up: Box::new(up),
                        arg: Box::new(arg),
                    },
                ),
            ),
        }
    }
}

} // verus!
