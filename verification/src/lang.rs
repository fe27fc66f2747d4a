//! Language front end: token stream, statement AST and the rewrite-rule and
//! definition interpreter. A statement is compiled and evaluated
//! independently, synchronously, to completion or to a single reported
//! failure.

use vstd::prelude::*;

pub mod parse;
pub mod token;

use crate::base::simp::{norm_sorted, trivial_v};
use crate::base::{
    lemma_views_of, subsv, travel, view_of, views_of, Expr, ExprV, Function,
};

verus! {

broadcast use vstd::seq::group_seq_axioms, vstd::std_specs::vec::group_vec_axioms;

/// Byte span of a token inside the input.
#[derive(Debug, Clone, Copy, PartialEq, Eq, Structural)]
pub struct Span {
    pub start: usize,
    pub end: usize,
}

/// One parsed statement: a bare expression, or an assignment whose
/// interpretation as rule or definition is decided at evaluation time by
/// the shape of the left side.
#[derive(Debug)]
pub enum Ast {
    Expr(Expr),
    /// ```x = y```
    Assign(Expr, Expr),
}

/// Reported failures; all failures are returned values, never aborts.
#[derive(Debug)]
pub enum LangError {
    /// Rule or definition shape violation.
    Rule { rule: &'static str },
    /// Lexical error.
    Lex,
    /// Unexpected end of statement.
    End,
    /// Recursive rule.
    Rec,
    /// Integer literal past the unsigned 64-bit range.
    Integer { span: Span },
    /// Expected construct, with the offending span.
    Expected { expr: &'static str, span: Span },
    /// Argument count mismatch of a definition application.
    Arity { map: Vec<char>, expected: usize, actual: usize },
    /// Failure of algebraic normalization, passed through unmodified.
    Form(crate::base::Form),
}

/// A stored rewrite rule: the replacement for an exactly matched pattern.
#[derive(Debug)]
pub(crate) struct Rule {
    pub(crate) map: Expr,
}

/// A stored definition: the body and the ordered formal parameters.
#[derive(Debug)]
pub(crate) struct Definition {
    pub(crate) map: Expr,
    pub(crate) arg: Vec<Expr>,
}

/// Rule table as a map from pattern values to replacement values; a later
/// entry for the same pattern replaces the earlier one.
pub(crate) open spec fn rules_map_of(s: Seq<(Expr, Rule)>) -> Map<ExprV, ExprV>
    decreases s,
{
    if s.len() == 0 {
        Map::empty()
    } else {
        rules_map_of(s.drop_last()).insert(s.last().0@, s.last().1.map@)
    }
}

/// Definition table as a map from names to body and parameter values.
pub(crate) open spec fn defs_map_of(s: Seq<(Vec<char>, Definition)>) -> Map<
    Seq<char>,
    (ExprV, Seq<ExprV>),
>
    decreases s,
{
    if s.len() == 0 {
        Map::empty()
    } else {
        defs_map_of(s.drop_last()).insert(
            s.last().0@,
            (s.last().1.map@, views_of(s.last().1.arg@)),
        )
    }
}

/// One rule step of the rewrite pass: an exactly matching stored pattern
/// substitutes its replacement throughout the accumulator.
pub open spec fn rule_step(rules: Map<ExprV, ExprV>, acc: ExprV, sub: ExprV) -> ExprV {
    if rules.contains_key(sub) {
        subsv(acc, sub, rules[sub])
    } else {
        acc
    }
}

/// Instantiated body of a definition: each formal parameter is substituted
/// with its actual argument, pairwise in declared order.
pub open spec fn inst_body(body: ExprV, params: Seq<ExprV>, args: Seq<ExprV>) -> ExprV
    decreases params.len(),
{
    if params.len() == 0 {
        body
    } else {
        inst_body(subsv(body, params[0], args[0]), params.drop_first(), args.drop_first())
    }
}

/// Outcome of one sweep of the rewrite pass.
pub enum Sweep {
    /// Every subterm was visited; the accumulator is the result.
    Done(ExprV),
    /// A definition was expanded; the pass restarts on the new accumulator.
    Restart(ExprV),
    /// A definition application with the wrong argument count: name,
    /// expected count, actual count.
    Fail(Seq<char>, nat, nat),
}

/// One sweep of the rewrite pass from subterm `i` on: each subterm takes a
/// rule step; a subterm that applies a known definition with the right
/// argument count substitutes the instantiated body and restarts, with the
/// wrong count it fails; otherwise the fold continues.
pub open spec fn sweep_at(
    rules: Map<ExprV, ExprV>,
    defs: Map<Seq<char>, (ExprV, Seq<ExprV>)>,
    t: Seq<ExprV>,
    i: int,
    acc: ExprV,
) -> Sweep
    decreases t.len() - i,
{
    if i < 0 || i >= t.len() {
        Sweep::Done(acc)
    } else {
        let sub = t[i];
        let acc1 = rule_step(rules, acc, sub);
        if sub is MapExpr && defs.contains_key(sub->MapExpr_0) {
            let name = sub->MapExpr_0;
            let args = sub->MapExpr_1;
            let (body, params) = defs[name];
            if args.len() != params.len() {
                Sweep::Fail(name, params.len(), args.len())
            } else {
                Sweep::Restart(subsv(acc1, sub, inst_body(body, params, args)))
            }
        } else {
            sweep_at(rules, defs, t, i + 1, acc1)
        }
    }
}

/// The rewrite pass over one expression: a sweep over its subterms in
/// traversal order, the expression itself as the first accumulator.
pub open spec fn sweep(
    rules: Map<ExprV, ExprV>,
    defs: Map<Seq<char>, (ExprV, Seq<ExprV>)>,
    e: ExprV,
) -> Sweep {
    sweep_at(rules, defs, travel(e), 0, e)
}

/// The rewrite pass iterated through `fuel` restarts: `None` when still
/// restarting, otherwise the final result or the arity failure.
pub open spec fn runs_to(
    rules: Map<ExprV, ExprV>,
    defs: Map<Seq<char>, (ExprV, Seq<ExprV>)>,
    e: ExprV,
    fuel: nat,
) -> Option<Result<ExprV, (Seq<char>, nat, nat)>>
    decreases fuel,
{
    match sweep(rules, defs, e) {
        Sweep::Done(v) => Some(Ok(v)),
        Sweep::Fail(n, x, y) => Some(Err((n, x, y))),
        Sweep::Restart(e2) => if fuel == 0 {
            None
        } else {
            runs_to(rules, defs, e2, (fuel - 1) as nat)
        },
    }
}

/// The result an expression statement is owed: some number of restarts of
/// the rewrite pass ends in it.
pub open spec fn rewrites_to(
    rules: Map<ExprV, ExprV>,
    defs: Map<Seq<char>, (ExprV, Seq<ExprV>)>,
    e: ExprV,
    r: Result<ExprV, (Seq<char>, nat, nat)>,
) -> bool {
    exists|n: nat| runs_to(rules, defs, e, n) == Some(r)
}

/// What evaluating one statement owes: the relation between the session
/// tables before and after, the statement, and the result. A bare
/// expression leaves the tables alone and yields the normalized rewrite of
/// the expression (or the matching failure); an assignment stores a
/// definition or a rule as its left side decides.
pub open spec fn eval_post(
    rules0: Map<ExprV, ExprV>,
    defs0: Map<Seq<char>, (ExprV, Seq<ExprV>)>,
    rules1: Map<ExprV, ExprV>,
    defs1: Map<Seq<char>, (ExprV, Seq<ExprV>)>,
    ast: Ast,
    r: Result<Option<Expr>, LangError>,
) -> bool {
    match ast {
        Ast::Expr(e) => {
            &&& rules1 == rules0
            &&& defs1 == defs0
            &&& match r {
                Ok(v) => v matches Some(res) && norm_sorted(res@) && exists|w: ExprV|
                    rewrites_to(rules0, defs0, e@, Ok(w)) && (#[trigger] trivial_v(w)) == Ok::<
                        ExprV,
                        crate::base::Form,
                    >(res@),
                Err(f) => (f matches LangError::Arity { map, expected, actual } && rewrites_to(
                    rules0,
                    defs0,
                    e@,
                    Err((map@, expected as nat, actual as nat)),
                )) || (f matches LangError::Form(frm) && exists|w: ExprV|
                    rewrites_to(rules0, defs0, e@, Ok(w)) && (#[trigger] trivial_v(w)) == Err::<
                        ExprV,
                        crate::base::Form,
                    >(frm)) || (f is Rule && runs_to(rules0, defs0, e@, (u64::MAX - 1) as nat)
                    is None),
            }
        },
        Ast::Assign(lhs, rhs) => match lhs {
            Expr::Fun(Function::MapExpr { map, arg }) => {
                &&& r matches Ok(v) && v is None
                &&& rules1 == rules0
                &&& defs1 == defs0.insert(map@, (rhs@, views_of(arg@)))
            },
            Expr::Num(_) => {
                &&& r matches Err(f) && f is Rule
                &&& rules1 == rules0
                &&& defs1 == defs0
            },
            _ => {
                &&& defs1 == defs0
                &&& if !crate::base::freev(rhs@, lhs@) {
                    &&& r matches Err(f) && f is Rec
                    &&& rules1 == rules0
                } else {
                    match r {
                        Ok(v) => v is None && exists|res: ExprV|
                            rewrites_to(rules0, defs0, rhs@, Ok(res)) && rules1 == rules0.insert(
                                lhs@,
                                res,
                            ),
                        Err(f) => ((f matches LangError::Arity { map, expected, actual }
                            && rewrites_to(
                            rules0,
                            defs0,
                            rhs@,
                            Err((map@, expected as nat, actual as nat)),
                        )) || (f is Rule && runs_to(rules0, defs0, rhs@, (u64::MAX - 1) as nat)
                            is None)) && rules1 == rules0,
                    }
                }
            },
        },
    }
}

/// Interpreter session state: the rule table and the definition table,
/// mutated only on successful declarations and never pruned, plus an opaque
/// compatibility marker.
#[derive(Debug)]
pub struct Interpreter {
    env: (Vec<(Expr, Rule)>, Vec<(Vec<char>, Definition)>),
    ver: u32,
}

impl Interpreter {
    /// The rule table: pattern values to replacement values.
    pub closed spec fn rules_v(&self) -> Map<ExprV, ExprV> {
        rules_map_of(self.env.0@)
    }

    /// The definition table: names to body and parameter values.
    pub closed spec fn defs_v(&self) -> Map<Seq<char>, (ExprV, Seq<ExprV>)> {
        defs_map_of(self.env.1@)
    }

    /// The compatibility marker.
    pub closed spec fn ver_v(&self) -> u32 {
        self.ver
    }

    /// Fresh session with empty tables.
    pub fn new(ver: u32) -> (r: Interpreter)
        ensures
            r.rules_v() == Map::<ExprV, ExprV>::empty(),
            r.defs_v() == Map::<Seq<char>, (ExprV, Seq<ExprV>)>::empty(),
            r.ver_v() == ver,
    {
        Interpreter { env: (Vec::new(), Vec::new()), ver }
    }

    /// Replacement stored for the pattern, if any.
    fn lookup_rule(&self, sub: &Expr) -> (r: Option<Expr>)
        ensures
            match r {
                Some(e) => self.rules_v().contains_key(sub@) && e@ == self.rules_v()[sub@],
                None => !self.rules_v().contains_key(sub@),
            },
    {
        lookup_rule_in(&self.env.0, sub)
    }

    /// Definition stored for the name, if any: its body and parameters.
    fn lookup_def(&self, name: &Vec<char>) -> (r: Option<(Expr, Vec<Expr>)>)
        ensures
            match r {
                Some(p) => self.defs_v().contains_key(name@) && p.0@ == self.defs_v()[name@].0
                    && views_of(p.1@) == self.defs_v()[name@].1,
                None => !self.defs_v().contains_key(name@),
            },
    {
        lookup_def_in(&self.env.1, name)
    }
}

impl Interpreter {
    /// Evaluate one textual statement: an empty statement is a no-op with
    /// no value; anything else is parsed and evaluated as by [`Self::eval`]:
    /// either parsing fails and the session is untouched, or the result and
    /// the table change are those [`eval_post`] owes for the parsed
    /// statement.
    pub fn parse(&mut self, stmt: &str) -> (r: Result<Option<Expr>, LangError>)
        ensures
            final(self).ver_v() == old(self).ver_v(),
            stmt@.len() == 0 ==> (r matches Ok(v) && v is None && final(self).rules_v() == old(
                self,
            ).rules_v() && final(self).defs_v() == old(self).defs_v()),
            stmt@.len() > 0 ==> ((r is Err && final(self).rules_v() == old(self).rules_v()
                && final(self).defs_v() == old(self).defs_v()) || exists|ast: Ast|
                #[trigger] eval_post(
                    old(self).rules_v(),
                    old(self).defs_v(),
                    final(self).rules_v(),
                    final(self).defs_v(),
                    ast,
                    r,
                )),
    {
        if stmt.is_empty() {
            return Ok(None);
        }
        match crate::lang::parse::Parser::parse(stmt) {
            Ok(ast) => self.eval(ast),
            Err(e) => Err(e),
        }
    }

    /// Evaluate one statement. A bare expression runs the rewrite pass and
    /// returns its result normalized (a normalization failure is passed
    /// through unmodified). An assignment whose left side is a function
    /// application stores a definition; one whose left side is a bare
    /// numeric literal is rejected; any other left side stores a rule,
    /// provided its right side passes the occurs-check after resolution.
    pub fn eval(&mut self, ast: Ast) -> (r: Result<Option<Expr>, LangError>)
        ensures
            final(self).ver_v() == old(self).ver_v(),
            eval_post(
                old(self).rules_v(),
                old(self).defs_v(),
                final(self).rules_v(),
                final(self).defs_v(),
                ast,
                r,
            ),
    {
        match ast {
            Ast::Expr(expr) => {
                let rewritten = match self.codegen(&expr) {
                    Ok(res) => res,
                    Err(f) => {
                        return Err(f);
                    },
                };
                let ghost w = rewritten@;
                match rewritten.trivial() {
                    Ok(res) => {
                        proof {
                            assert(rewrites_to(self.rules_v(), self.defs_v(), expr@, Ok(w))
                                && norm_sorted(res@) && trivial_v(w) == Ok::<
                                ExprV,
                                crate::base::Form,
                            >(res@));
                        }
                        Ok(Some(res))
                    },
                    Err(f) => {
                        proof {
                            assert(rewrites_to(self.rules_v(), self.defs_v(), expr@, Ok(w))
                                && trivial_v(w) == Err::<ExprV, crate::base::Form>(f));
                        }
                        Err(LangError::Form(f))
                    },
                }
            },
            Ast::Assign(lhs, rhs) => {
                if let Expr::Fun(Function::MapExpr { map, arg }) = lhs {
                    let ghost defs0 = self.env.1@;
                    self.env.1.push((map, Definition { map: rhs, arg }));
                    proof {
                        assert(self.env.1@.drop_last() =~= defs0);
                    }
                    return Ok(None);
                }
                if let Expr::Num(_) = lhs {
                    return Err(
                        LangError::Rule { rule: "rule requires a non-constant expression" },
                    );
                }
                if rhs.free(&lhs) {
                    let resolved = match self.codegen(&rhs) {
                        Ok(res) => res,
                        Err(f) => {
                            return Err(f);
                        },
                    };
                    let ghost rules0 = self.env.0@;
                    let ghost resv = resolved@;
                    let ghost lhsv = lhs@;
                    let ghost rulesm = self.rules_v();
                    let ghost defsm = self.defs_v();
                    let ghost rhsv = rhs@;
                    self.env.0.push((lhs, Rule { map: resolved }));
                    proof {
                        assert(self.env.0@.drop_last() =~= rules0);
                        assert(self.env.0@.last().0@ == lhsv);
                        assert(rewrites_to(rulesm, defsm, rhsv, Ok(resv)) && self.rules_v()
                            == rulesm.insert(lhsv, resv));
                    }
                    Ok(None)
                } else {
                    Err(LangError::Rec)
                }
            },
        }
    }

    /// Rule step for one subterm: an exactly matching stored pattern
    /// substitutes its replacement throughout the accumulator.
    fn transform(&self, acc: Expr, sub: &Expr) -> (r: Expr)
        ensures
            r@ == rule_step(self.rules_v(), acc@, sub@),
    {
        if let Some(res) = self.lookup_rule(sub) {
            acc.subs(sub, &res)
        } else {
            acc
        }
    }

    /// Definition step for one subterm: a function application of a known
    /// name with the right argument count substitutes its instantiated body
    /// throughout the accumulator and asks for a restart of the pass; with
    /// the wrong count it fails; any other subterm changes nothing.
    fn resolve(&self, acc: &Expr, sub: &Expr) -> (r: Result<Option<Expr>, LangError>)
        ensures
            match r {
                Ok(opt) => match opt {
                    Some(e2) => {
                        &&& sub@ is MapExpr
                        &&& self.defs_v().contains_key(sub@->MapExpr_0)
                        &&& self.defs_v()[sub@->MapExpr_0].1.len() == sub@->MapExpr_1.len()
                        &&& e2@ == subsv(
                            acc@,
                            sub@,
                            inst_body(
                                self.defs_v()[sub@->MapExpr_0].0,
                                self.defs_v()[sub@->MapExpr_0].1,
                                sub@->MapExpr_1,
                            ),
                        )
                    },
                    None => !(sub@ is MapExpr && self.defs_v().contains_key(sub@->MapExpr_0)),
                },
                Err(f) => {
                    &&& sub@ is MapExpr
                    &&& self.defs_v().contains_key(sub@->MapExpr_0)
                    &&& f matches LangError::Arity { map, expected, actual } && map@ == sub@
                        ->MapExpr_0 && expected as nat == self.defs_v()[sub@->MapExpr_0].1.len()
                        && actual as nat == sub@->MapExpr_1.len() && expected != actual
                },
            },
    {
        if let Expr::Fun(Function::MapExpr { map, arg }) = sub {
            proof {
                lemma_views_of(arg@);
            }
            if let Some((body, params)) = self.lookup_def(map) {
                proof {
                    lemma_views_of(params@);
                }
                if arg.len() != params.len() {
                    return Err(
                        LangError::Arity {
                            map: crate::base::dup_chars(map),
                            expected: params.len(),
                            actual: arg.len(),
                        },
                    );
                }
                let inst = instantiate(body, &params, arg);
                return Ok(Some(acc.subs(sub, &inst)));
            }
            return Ok(None);
        }
        Ok(None)
    }


    /// The rewrite pass: walk every subterm of the expression in traversal
    /// order, threading one accumulator; a rule step per subterm, and on a
    /// definition step the whole pass restarts on the updated accumulator.
    fn codegen(&self, lhs: &Expr) -> (r: Result<Expr, LangError>)
        ensures
            match r {
                Ok(res) => rewrites_to(self.rules_v(), self.defs_v(), lhs@, Ok(res@)),
                Err(f) => (f matches LangError::Arity { map, expected, actual } && rewrites_to(
                    self.rules_v(),
                    self.defs_v(),
                    lhs@,
                    Err((map@, expected as nat, actual as nat)),
                )) || (f is Rule && runs_to(
                    self.rules_v(),
                    self.defs_v(),
                    lhs@,
                    (u64::MAX - 1) as nat,
                ) is None),
            },
    {
        let ghost rules = self.rules_v();
        let ghost defs = self.defs_v();
        let mut cur = lhs.dup();
        let ghost mut fuel: nat = 0nat;
        let mut budget: u64 = u64::MAX;
        loop
            invariant
                self.rules_v() == rules,
                self.defs_v() == defs,
                fuel + budget == u64::MAX,
                forall|k: nat| #[trigger]
                    runs_to(rules, defs, cur@, k) == runs_to(rules, defs, lhs@, (fuel + k) as nat),
                forall|n: nat| n < fuel ==> #[trigger] runs_to(rules, defs, lhs@, n) is None,
            decreases budget,
        {
            if budget == 0 {
                proof {
                    assert(runs_to(rules, defs, lhs@, (u64::MAX - 1) as nat) is None);
                }
                return Err(LangError::Rule { rule: "rewrite pass did not terminate" });
            }
            budget = budget - 1;
            let step = self.run_sweep(&cur);
            match step {
                Ok(SweepStep::Done(res)) => {
                    proof {
                        assert(runs_to(rules, defs, cur@, 0nat) == Some(
                            Ok::<ExprV, (Seq<char>, nat, nat)>(res@),
                        ));
                        assert(runs_to(rules, defs, lhs@, (fuel + 0nat) as nat) == Some(
                            Ok::<ExprV, (Seq<char>, nat, nat)>(res@),
                        ));
                    }
                    return Ok(res);
                },
                Ok(SweepStep::Restart(e2)) => {
                    proof {
                        assert(runs_to(rules, defs, cur@, 0nat) is None);
                        assert(runs_to(rules, defs, lhs@, (fuel + 0nat) as nat) is None);
                        assert forall|n: nat|
                            n < fuel + 1 implies #[trigger] runs_to(rules, defs, lhs@, n)
                            is None by {
                            if n < fuel {
                                assert(runs_to(rules, defs, lhs@, n) is None);
                            } else {
                                assert(n == fuel);
                            }
                        }
                        assert forall|k: nat| #[trigger]
                            runs_to(rules, defs, e2@, k) == runs_to(
                                rules,
                                defs,
                                lhs@,
                                ((fuel + 1) + k) as nat,
                            ) by {
                            assert(runs_to(rules, defs, cur@, (k + 1) as nat) == runs_to(
                                rules,
                                defs,
                                lhs@,
                                (fuel + (k + 1)) as nat,
                            ));
                            assert(runs_to(rules, defs, cur@, (k + 1) as nat) == runs_to(
                                rules,
                                defs,
                                e2@,
                                k,
                            ));
                        }
                        fuel = (fuel + 1) as nat;
                    }
                    cur = e2;
                },
                Err(f) => {
                    proof {
                        match &f {
                            LangError::Arity { map: m, expected: x, actual: y } => {
                                assert(runs_to(rules, defs, cur@, 0nat) == Some(
                                    Err::<ExprV, (Seq<char>, nat, nat)>(
                                        (m@, *x as nat, *y as nat),
                                    ),
                                ));
                                assert(runs_to(rules, defs, lhs@, (fuel + 0nat) as nat) == Some(
                                    Err::<ExprV, (Seq<char>, nat, nat)>(
                                        (m@, *x as nat, *y as nat),
                                    ),
                                ));
                            },
                            _ => {},
                        }
                    }
                    return Err(f);
                },
            }
        }
    }

    /// One sweep of the rewrite pass over the subterms of the expression.
    fn run_sweep(&self, cur: &Expr) -> (r: Result<SweepStep, LangError>)
        ensures
            match r {
                Ok(step) => match step {
                    SweepStep::Done(res) => sweep(self.rules_v(), self.defs_v(), cur@)
                        == Sweep::Done(res@),
                    SweepStep::Restart(e2) => sweep(self.rules_v(), self.defs_v(), cur@)
                        == Sweep::Restart(e2@),
                },
                Err(f) => f matches LangError::Arity { map, expected, actual } && sweep(
                    self.rules_v(),
                    self.defs_v(),
                    cur@,
                ) == Sweep::Fail(map@, expected as nat, actual as nat),
            },
    {
        let ghost rules = self.rules_v();
        let ghost defs = self.defs_v();
        let subs_list = cur.iter();
        proof {
            lemma_views_of(subs_list@);
        }
        let ghost tv = travel(cur@);
        let mut acc = cur.dup();
        let mut i: usize = 0;
        while i < subs_list.len()
            invariant
                self.rules_v() == rules,
                self.defs_v() == defs,
                0 <= i <= subs_list@.len(),
                tv == travel(cur@),
                views_of(subs_list@) == tv,
                tv.len() == subs_list@.len(),
                forall|k: int| 0 <= k < subs_list@.len() ==> tv[k] == view_of(
                    #[trigger] subs_list@[k],
                ),
                sweep_at(rules, defs, tv, 0, cur@) == sweep_at(rules, defs, tv, i as int, acc@),
            decreases subs_list@.len() - i,
        {
            let sub = &subs_list[i];
            let ghost acc0 = acc@;
            acc = self.transform(acc, sub);
            match self.resolve(&acc, sub) {
                Ok(None) => {
                    proof {
                        assert(sweep_at(rules, defs, tv, i as int, acc0) == sweep_at(
                            rules,
                            defs,
                            tv,
                            i + 1,
                            acc@,
                        ));
                    }
                    i += 1;
                },
                Ok(Some(e2)) => {
                    proof {
                        assert(sweep_at(rules, defs, tv, i as int, acc0) == Sweep::Restart(e2@));
                    }
                    return Ok(SweepStep::Restart(e2));
                },
                Err(f) => {
                    proof {
                        match &f {
                            LangError::Arity { map: m, expected: x, actual: y } => {
                                assert(sweep_at(rules, defs, tv, i as int, acc0) == Sweep::Fail(
                                    m@,
                                    *x as nat,
                                    *y as nat,
                                ));
                            },
                            _ => {},
                        }
                    }
                    return Err(f);
                },
            }
        }
        proof {
            assert(sweep_at(rules, defs, tv, i as int, acc@) == Sweep::Done(acc@));
        }
        Ok(SweepStep::Done(acc))
    }
}

/// Parse one bare expression statement; assignments are left to the
/// interpreter.
pub fn parse(stmt: &str) -> (r: Result<Expr, LangError>)
{
    match crate::lang::parse::Parser::parse(stmt) {
        Ok(Ast::Expr(expr)) => Ok(expr),
        Ok(Ast::Assign(_, _)) => Err(
            LangError::Rule {
                rule: "can only parse expressions, use the interpreter for other constructions",
            },
        ),
        Err(e) => Err(e),
    }
}

/// Outcome of one executable sweep.
enum SweepStep {
    Done(Expr),
    Restart(Expr),
}

/// Instantiated body of a definition: each formal parameter substituted
/// with its actual argument, pairwise in declared order.
fn instantiate(body: Expr, params: &Vec<Expr>, args: &Vec<Expr>) -> (r: Expr)
    requires
        params@.len() == args@.len(),
    ensures
        r@ == inst_body(body@, views_of(params@), views_of(args@)),
{
    proof {
        lemma_views_of(params@);
        lemma_views_of(args@);
    }
    let ghost pv = views_of(params@);
    let ghost av = views_of(args@);
    let mut acc = body;
    let mut i: usize = 0;
    proof {
        assert(pv.skip(0) =~= pv);
        assert(av.skip(0) =~= av);
    }
    while i < params.len()
        invariant
            0 <= i <= params@.len(),
            params@.len() == args@.len(),
            pv == views_of(params@),
            av == views_of(args@),
            pv.len() == params@.len(),
            av.len() == args@.len(),
            forall|k: int| 0 <= k < params@.len() ==> pv[k] == view_of(#[trigger] params@[k]),
            forall|k: int| 0 <= k < args@.len() ==> av[k] == view_of(#[trigger] args@[k]),
            inst_body(body@, pv, av) == inst_body(acc@, pv.skip(i as int), av.skip(i as int)),
        decreases params@.len() - i,
    {
        proof {
            assert(pv.skip(i as int).drop_first() =~= pv.skip(i + 1));
            assert(av.skip(i as int).drop_first() =~= av.skip(i + 1));
            assert(pv.skip(i as int)[0] == pv[i as int]);
            assert(av.skip(i as int)[0] == av[i as int]);
        }
        acc = acc.subs(&params[i], &args[i]);
        i += 1;
    }
    proof {
        assert(pv.skip(params@.len() as int) =~= Seq::<ExprV>::empty());
        assert(av.skip(args@.len() as int) =~= Seq::<ExprV>::empty());
    }
    acc
}

/// Replacement stored for the pattern: the latest matching entry.
fn lookup_rule_in(s: &Vec<(Expr, Rule)>, sub: &Expr) -> (r: Option<Expr>)
    ensures
        match r {
            Some(e) => rules_map_of(s@).contains_key(sub@) && e@ == rules_map_of(s@)[sub@],
            None => !rules_map_of(s@).contains_key(sub@),
        },
    decreases s@.len(),
{
    let mut i: usize = s.len();
    proof {
        assert(s@.take(s@.len() as int) =~= s@);
    }
    loop
        invariant
            0 <= i <= s@.len(),
            rules_map_of(s@).contains_key(sub@) ==> rules_map_of(s@.take(i as int)).contains_key(
                sub@,
            ) && rules_map_of(s@.take(i as int))[sub@] == rules_map_of(s@)[sub@],
            !rules_map_of(s@).contains_key(sub@) ==> !rules_map_of(
                s@.take(i as int),
            ).contains_key(sub@),
        decreases i,
    {
        if i == 0 {
            proof {
                assert(s@.take(0) =~= Seq::<(Expr, Rule)>::empty());
            }
            return None;
        }
        proof {
            assert(s@.take(i as int).drop_last() =~= s@.take(i - 1));
            assert(s@.take(i as int).last() == s@[i - 1]);
        }
        if s[i - 1].0.eq_expr(sub) {
            return Some(s[i - 1].1.map.dup());
        }
        i -= 1;
    }
}

/// Definition stored for the name: the latest matching entry.
fn lookup_def_in(s: &Vec<(Vec<char>, Definition)>, name: &Vec<char>) -> (r: Option<
    (Expr, Vec<Expr>),
>)
    ensures
        match r {
            Some(p) => defs_map_of(s@).contains_key(name@) && p.0@ == defs_map_of(s@)[name@].0
                && views_of(p.1@) == defs_map_of(s@)[name@].1,
            None => !defs_map_of(s@).contains_key(name@),
        },
    decreases s@.len(),
{
    let mut i: usize = s.len();
    proof {
        assert(s@.take(s@.len() as int) =~= s@);
    }
    loop
        invariant
            0 <= i <= s@.len(),
            defs_map_of(s@).contains_key(name@) ==> defs_map_of(s@.take(i as int)).contains_key(
                name@,
            ) && defs_map_of(s@.take(i as int))[name@] == defs_map_of(s@)[name@],
            !defs_map_of(s@).contains_key(name@) ==> !defs_map_of(
                s@.take(i as int),
            ).contains_key(name@),
        decreases i,
    {
        if i == 0 {
            proof {
                assert(s@.take(0) =~= Seq::<(Vec<char>, Definition)>::empty());
            }
            return None;
        }
        proof {
            assert(s@.take(i as int).drop_last() =~= s@.take(i - 1));
            assert(s@.take(i as int).last() == s@[i - 1]);
        }
        if crate::base::eq_chars(&s[i - 1].0, name) {
            let body = s[i - 1].1.map.dup();
            let params = crate::base::dup_vec(&s[i - 1].1.arg);
            return Some((body, params));
        }
        i -= 1;
    }
}

} // verus!
