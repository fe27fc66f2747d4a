//! Single-lookahead operator-precedence parser, by precedence climbing.
//!
//! Primary forms: integer literal, symbol, function application, a
//! parenthesized expression, and leading unary `+`/`-`; a keyword-led
//! primary form is a reserved extension point and fails loudly. An
//! expression is a primary followed by operators of sufficient binding
//! power: factorial (5, postfix), power (4, right-associative), unary sign
//! (3), multiplication and division (2), addition and subtraction (1). The
//! root parses one expression, optionally `=` and a second expression.

use vstd::prelude::*;

use crate::base::{
    lemma_views_of, views_of, AOp, Algebra, BOp, Dom, Expr, ExprV, Function, Number, Symbol, UOp,
};
use crate::lang::token::{Lexer, Token, TokenKind};
use crate::lang::{Ast, LangError, Span};

verus! {

broadcast use
    vstd::seq::group_seq_axioms,
    vstd::std_specs::vec::group_vec_axioms,
    Lexer::lemma_bounds,
;

/// Operator-precedence parser over a lexer with one token of lookahead.
#[derive(Debug)]
pub struct Parser {
    lexer: Lexer,
    peeked: Option<Result<Token, LangError>>,
}

/// Value of a two-child associative node.
pub open spec fn assoc2_v(op: AOp, a: ExprV, b: ExprV) -> ExprV {
    ExprV::AssocExpr(op, seq![a, b])
}

/// Value of a negation: a product with -1.
pub open spec fn neg_v(a: ExprV) -> ExprV {
    assoc2_v(AOp::Mul, ExprV::Num(-1), a)
}

/// Value of a power pair.
pub open spec fn pow_v(a: ExprV, b: ExprV) -> ExprV {
    ExprV::BExpr(BOp::Pow, Box::new(a), Box::new(b))
}

/// Sum of two expressions.
fn mk_add(lhs: Expr, rhs: Expr) -> (r: Expr)
    ensures
        r@ == assoc2_v(AOp::Add, lhs@, rhs@),
{
    let arg = vec![lhs, rhs];
    proof {
        lemma_views_of(arg@);
        assert(views_of(arg@) =~= seq![arg@[0]@, arg@[1]@]);
    }
    Expr::Alg(Algebra::AssocExpr { map: AOp::Add, arg })
}

/// Product of two expressions.
fn mk_mul(lhs: Expr, rhs: Expr) -> (r: Expr)
    ensures
        r@ == assoc2_v(AOp::Mul, lhs@, rhs@),
{
    let arg = vec![lhs, rhs];
    proof {
        lemma_views_of(arg@);
        assert(views_of(arg@) =~= seq![arg@[0]@, arg@[1]@]);
    }
    Expr::Alg(Algebra::AssocExpr { map: AOp::Mul, arg })
}

/// Negation, as a product with -1.
fn mk_neg(rhs: Expr) -> (r: Expr)
    ensures
        r@ == neg_v(rhs@),
{
    mk_mul(Expr::Num(Number::Z(-1)), rhs)
}

/// Power pair.
fn mk_pow(lhs: Expr, rhs: Expr) -> (r: Expr)
    ensures
        r@ == pow_v(lhs@, rhs@),
{
    Expr::Alg(Algebra::BExpr { map: BOp::Pow, arg: (Box::new(lhs), Box::new(rhs)) })
}

/// Difference, as a sum with the negated subtrahend.
fn mk_sub(lhs: Expr, rhs: Expr) -> (r: Expr)
    ensures
        r@ == assoc2_v(AOp::Add, lhs@, neg_v(rhs@)),
{
    let n = mk_neg(rhs);
    mk_add(lhs, n)
}

/// Quotient, as a product with the reciprocal power.
fn mk_div(lhs: Expr, rhs: Expr) -> (r: Expr)
    ensures
        r@ == assoc2_v(AOp::Mul, lhs@, pow_v(rhs@, ExprV::Num(-1))),
{
    let p = mk_pow(rhs, Expr::Num(Number::Z(-1)));
    mk_mul(lhs, p)
}

/// Factorial.
fn mk_fact(lhs: Expr) -> (r: Expr)
    ensures
        r@ == ExprV::UExpr(UOp::Fact, Box::new(lhs@)),
{
    Expr::Alg(Algebra::UExpr { map: UOp::Fact, arg: Box::new(lhs) })
}

/// Prefix operators.
pub(crate) enum Primary {
    Pos,
    Neg,
}

impl Primary {
    /// The prefix operator a token stands for, if any: `+` is `Pos`, `-`
    /// is `Neg`, anything else is no prefix operator.
    fn dispatch(kind: &TokenKind) -> (r: Option<Primary>)
        ensures
            kind is Add ==> r == Some(Primary::Pos),
            kind is Sub ==> r == Some(Primary::Neg),
            !(kind is Add || kind is Sub) ==> r is None,
    {
        match kind {
            TokenKind::Add => Some(Primary::Pos),  // +x
            TokenKind::Sub => Some(Primary::Neg),  // -x
            _ => None,
        }
    }

    /// Binding power of the prefix operators.
    fn pred(&self) -> (r: u32)
        ensures
            r == 3,
    {
        match self {
            Primary::Pos => 3,
            Primary::Neg => 3,
        }
    }

    /// Apply the prefix operator: `+x` is `x`, `-x` the product with -1.
    fn eval(&self, rhs: Expr) -> (r: Expr)
        ensures
            self is Pos ==> r@ == rhs@,
            self is Neg ==> r@ == neg_v(rhs@),
    {
        match self {
            Primary::Pos => rhs,
            Primary::Neg => mk_neg(rhs),
        }
    }
}

/// Infix operators.
pub(crate) enum Infix {
    Add,
    Sub,
    Mul,
    Div,
    Pow,
}

impl Infix {
    /// Apply the infix operator: sums and products as two-child associative
    /// nodes, subtraction via negation, division via the reciprocal power,
    /// exponentiation as a power pair.
    fn eval(&self, lhs: Expr, rhs: Expr) -> (r: Expr)
        ensures
            r@ == match *self {
                Infix::Add => assoc2_v(AOp::Add, lhs@, rhs@),
                Infix::Sub => assoc2_v(AOp::Add, lhs@, neg_v(rhs@)),
                Infix::Mul => assoc2_v(AOp::Mul, lhs@, rhs@),
                Infix::Div => assoc2_v(AOp::Mul, lhs@, pow_v(rhs@, ExprV::Num(-1))),
                Infix::Pow => pow_v(lhs@, rhs@),
            },
    {
        match self {
            Infix::Add => mk_add(lhs, rhs),
            Infix::Sub => mk_sub(lhs, rhs),
            Infix::Mul => mk_mul(lhs, rhs),
            Infix::Div => mk_div(lhs, rhs),
            Infix::Pow => mk_pow(lhs, rhs),
        }
    }
}

/// Postfix operators.
pub(crate) enum Postfix {
    Fact,
}

impl Postfix {
    /// Apply the postfix operator: the factorial node.
    fn eval(&self, lhs: Expr) -> (r: Expr)
        ensures
            r@ == ExprV::UExpr(UOp::Fact, Box::new(lhs@)),
    {
        match self {
            Postfix::Fact => mk_fact(lhs),
        }
    }
}

/// Associativity of an operator.
pub(crate) enum Associativity {
    Left,
    Right,
}

/// Expression operators.
pub(crate) enum Op {
    Infix(Infix),
    Postfix(Postfix),
}

impl Op {
    /// The expression operator a token stands for, if any.
    fn dispatch(kind: &TokenKind) -> (r: Option<Op>)
        ensures
            kind is Add ==> r == Some(Op::Infix(Infix::Add)),
            kind is Sub ==> r == Some(Op::Infix(Infix::Sub)),
            kind is Mul ==> r == Some(Op::Infix(Infix::Mul)),
            kind is Div ==> r == Some(Op::Infix(Infix::Div)),
            kind is Pow ==> r == Some(Op::Infix(Infix::Pow)),
            kind is Fact ==> r == Some(Op::Postfix(Postfix::Fact)),
            !(kind is Add || kind is Sub || kind is Mul || kind is Div || kind is Pow || kind
                is Fact) ==> r is None,
    {
        match kind {
            TokenKind::Add => Some(Op::Infix(Infix::Add)),  // x + y
            TokenKind::Sub => Some(Op::Infix(Infix::Sub)),  // x - y
            TokenKind::Mul => Some(Op::Infix(Infix::Mul)),  // x*y
            TokenKind::Div => Some(Op::Infix(Infix::Div)),  // x/y
            TokenKind::Pow => Some(Op::Infix(Infix::Pow)),  // x^y
            TokenKind::Fact => Some(Op::Postfix(Postfix::Fact)),  // x!
            _ => None,
        }
    }

    /// Left binding power of the table: addition and subtraction bind at 1,
    /// multiplication and division at 2, exponentiation at 4, factorial
    /// at 5.
    pub(crate) open spec fn left_bind(o: Op) -> int {
        match o {
            Op::Infix(Infix::Add) => 1,
            Op::Infix(Infix::Sub) => 1,
            Op::Infix(Infix::Mul) => 2,
            Op::Infix(Infix::Div) => 2,
            Op::Infix(Infix::Pow) => 4,
            Op::Postfix(Postfix::Fact) => 5,
        }
    }

    /// Which side binds tighter: only exponentiation is right-associative.
    fn side(&self) -> (r: Associativity)
        ensures
            r is Right <==> *self == Op::Infix(Infix::Pow),
    {
        match self {
            Op::Infix(Infix::Pow) => Associativity::Right,
            Op::Postfix(_) => Associativity::Left,
            Op::Infix(Infix::Add) => Associativity::Left,
            Op::Infix(Infix::Sub) => Associativity::Left,
            Op::Infix(Infix::Mul) => Associativity::Left,
            Op::Infix(Infix::Div) => Associativity::Left,
        }
    }

    /// Left binding power of the operator.
    fn left_pred(&self) -> (r: u32)
        ensures
            r as int == Op::left_bind(*self),
            1 <= r <= 5,
    {
        match self {
            Op::Infix(Infix::Add) => 1,
            Op::Infix(Infix::Sub) => 1,
            Op::Infix(Infix::Mul) => 2,
            Op::Infix(Infix::Div) => 2,
            Op::Infix(Infix::Pow) => 4,
            Op::Postfix(Postfix::Fact) => 5,
        }
    }

    /// Threshold for the right operand: one more than the left binding
    /// power for a left-associative operator, unchanged for the
    /// right-associative exponentiation.
    fn right_pred(&self) -> (r: u32)
        ensures
            r as int == (if *self == Op::Infix(Infix::Pow) {
                Op::left_bind(*self)
            } else {
                Op::left_bind(*self) + 1
            }),
            1 <= r <= 6,
    {
        let l = self.left_pred();
        if let Associativity::Left = self.side() {
            l + 1
        } else {
            l
        }
    }
}

impl Parser {
    /// Tokens not yet consumed, counting a held lookahead token as one.
    pub closed spec fn remaining(&self) -> int {
        self.lexer.src_v().len() - self.lexer.pos() + if self.peeked matches Some(Ok(_)) {
            1int
        } else {
            0int
        }
    }

    /// The lexer never leaves its input.
    pub closed spec fn wf(&self) -> bool {
        self.lexer.wf()
    }

    /// Parse one statement.
    pub fn parse(src: &str) -> (r: Result<Ast, LangError>) {
        let mut p = Parser { lexer: Lexer::new(src), peeked: None };
        p.root()
    }

    /// Kind of the next token; a lexical error or the end of the input has
    /// none. The token is held, not consumed.
    fn peek(&mut self) -> (r: Option<TokenKind>)
        requires
            old(self).wf(),
        ensures
            final(self).wf(),
            final(self).remaining() <= old(self).remaining(),
            r is Some ==> (final(self).peeked matches Some(Ok(_))) && final(self).remaining()
                >= 1,
    {
        if self.peeked.is_none() {
            match self.lexer.next() {
                Some(t) => {
                    self.peeked = Some(t);
                },
                None => {
                    return None;
                },
            }
        }
        match &self.peeked {
            Some(Ok(t)) => Some(clone_kind(&t.kind)),
            _ => None,
        }
    }

    /// Consume the next token; the end of the input is an `End` error.
    fn advance(&mut self) -> (r: Result<Token, LangError>)
        requires
            old(self).wf(),
        ensures
            final(self).wf(),
            final(self).remaining() <= old(self).remaining(),
            r is Ok ==> final(self).remaining() < old(self).remaining(),
            (old(self).peeked matches Some(Ok(_))) ==> final(self).remaining() < old(
                self,
            ).remaining(),
    {
        let held = self.peeked.take();
        match held {
            Some(t) => t,
            None => match self.lexer.next() {
                Some(t) => t,
                None => Err(LangError::End),
            },
        }
    }

    /// Reserved keyword-led primary form: fails loudly rather than
    /// degrading silently.
    fn keyword(&mut self) -> (r: Result<Expr, LangError>)
        requires
            old(self).wf(),
        ensures
            final(self).wf(),
            final(self).remaining() <= old(self).remaining(),
            r is Err,
    {
        let token = self.advance();
        match token {
            Ok(t) => Err(
                LangError::Expected {
                    expr: "a non-reserved construct; keyword forms are a reserved extension point",
                    span: t.span,
                },
            ),
            Err(e) => Err(e),
        }
    }

    /// Parenthesized expression.
    fn parenthesis(&mut self) -> (r: Result<Expr, LangError>)
        requires
            old(self).wf(),
        ensures
            final(self).wf(),
            final(self).remaining() <= old(self).remaining(),
            r is Ok ==> final(self).remaining() < old(self).remaining(),
        decreases old(self).remaining(), 0int,
    {
        let opened = self.advance();
        if let Err(e) = opened {
            return Err(e);
        }
        let expr = self.expr(0)?;
        let rpar = self.advance()?;
        if let TokenKind::RPar = rpar.kind {
            Ok(expr)
        } else {
            Err(
                LangError::Expected {
                    expr: "closing parenthesis `)`, found expression",
                    span: rpar.span,
                },
            )
        }
    }

    /// Comma-separated argument list of a function application, after the
    /// opening parenthesis.
    fn arguments(&mut self) -> (r: Result<Vec<Expr>, LangError>)
        requires
            old(self).wf(),
            old(self).peeked matches Some(Ok(_)),
        ensures
            final(self).wf(),
            final(self).remaining() <= old(self).remaining(),
            r is Ok ==> final(self).remaining() < old(self).remaining(),
        decreases old(self).remaining(), 0int,
    {
        let opened = self.advance();
        if let Err(e) = opened {
            return Err(e);
        }
        let mut args: Vec<Expr> = Vec::new();
        match self.peek() {
            Some(TokenKind::RPar) => {
                let _ = self.advance()?;
                return Ok(args);
            },
            _ => {},
        }
        loop
            invariant
                self.wf(),
                self.remaining() < old(self).remaining(),
            decreases self.remaining(),
        {
            let a = self.expr(0)?;
            args.push(a);
            let t = self.advance()?;
            match t.kind {
                TokenKind::Comma => {
                },
                TokenKind::RPar => {
                    return Ok(args);
                },
                _ => {
                    return Err(
                        LangError::Expected {
                            expr: "`,` or closing parenthesis `)` in an argument list",
                            span: t.span,
                        },
                    );
                },
            }
        }
    }

    /// Primary form.
    fn primary(&mut self) -> (r: Result<Expr, LangError>)
        requires
            old(self).wf(),
        ensures
            final(self).wf(),
            final(self).remaining() <= old(self).remaining(),
            r is Ok ==> final(self).remaining() < old(self).remaining(),
        decreases old(self).remaining(), 1int,
    {
        match self.peek() {
            Some(TokenKind::Number(num)) => {
                let t = self.advance();
                if let Err(e) = t {
                    return Err(e);
                }
                Ok(Expr::Num(Number::Z(num as i128)))
            },
            Some(TokenKind::Symbol(sym)) => {
                let t = self.advance()?;
                let name = match t.kind {
                    TokenKind::Symbol(text) => text,
                    _ => sym,
                };
                proof {
                    crate::base::lemma_views_of(Seq::<Expr>::empty());
                }
                match self.peek() {
                    Some(TokenKind::LPar) => {
                        let args = self.arguments()?;
                        Ok(Expr::Fun(Function::MapExpr { map: name, arg: args }))
                    },
                    _ => {
                        if check_sym_name(&name) {
                            Ok(Expr::Sym(Symbol::from_chars(name, Dom::C)))
                        } else {
                            Err(
                                LangError::Expected {
                                    expr: "a symbol name without operator characters",
                                    span: t.span,
                                },
                            )
                        }
                    },
                }
            },
            Some(TokenKind::Keyword(_kw)) => self.keyword(),
            Some(TokenKind::LPar) => self.parenthesis(),
            Some(token) => {
                match Primary::dispatch(&token) {
                    Some(expr) => {
                        let t = self.advance();
                        if let Err(e) = t {
                            return Err(e);
                        }
                        let rhs = self.expr(expr.pred())?;
                        Ok(expr.eval(rhs))
                    },
                    None => {
                        let token = self.advance()?;
                        Err(
                            LangError::Expected {
                                expr: "`Number, Symbol, Keyword, (, [, +, -`, found non-primary operator",
                                span: token.span,
                            },
                        )
                    },
                }
            },
            None => {
                match self.advance() {
                    Ok(_) => Err(LangError::End),
                    Err(e) => Err(e),
                }
            },
        }
    }

    /// Expression with a minimum binding power: a primary, then operators
    /// of sufficient left binding power, recursing on the right operand
    /// with the operator's right threshold.
    fn expr(&mut self, binding: u32) -> (r: Result<Expr, LangError>)
        requires
            old(self).wf(),
        ensures
            final(self).wf(),
            final(self).remaining() <= old(self).remaining(),
            r is Ok ==> final(self).remaining() < old(self).remaining(),
        decreases old(self).remaining(), 2int,
    {
        let mut lhs = self.primary()?;
        loop
            invariant
                self.wf(),
                self.remaining() < old(self).remaining(),
            ensures
                self.wf(),
                self.remaining() < old(self).remaining(),
            decreases self.remaining(),
        {
            let token = match self.peek() {
                Some(t) => t,
                None => {
                    break ;
                },
            };
            if matches!(
                token,
                TokenKind::Number(_)
                    | TokenKind::Symbol(_)
                    | TokenKind::LPar
                    | TokenKind::LSqr
                    | TokenKind::Keyword(_)
            ) {
                let token = self.advance()?;
                return Err(
                    LangError::Expected {
                        expr: "`+, -, *, /, ^, !`, found primary expression",
                        span: token.span,
                    },
                );
            }
            match Op::dispatch(&token) {
                None => {
                    break ;
                },
                Some(op) => {
                    if op.left_pred() < binding {
                        break ;
                    }
                    let t = self.advance()?;
                    match op {
                        Op::Infix(ref i) => {
                            let rhs = self.expr(op.right_pred())?;
                            lhs = i.eval(lhs, rhs);
                        },
                        Op::Postfix(p) => {
                            lhs = p.eval(lhs);
                        },
                    }
                },
            }
        }
        Ok(lhs)
    }

    /// Root rule: one expression, then optionally `=` and a second
    /// expression as an assignment-shaped statement; any other trailing
    /// token is an error.
    fn root(&mut self) -> (r: Result<Ast, LangError>)
        requires
            old(self).wf(),
    {
        let lhs = self.expr(0)?;
        match self.peek() {
            Some(TokenKind::Eq) => {
                let t = self.advance();
                if let Err(e) = t {
                    return Err(e);
                }
                let rhs = self.expr(0)?;
                Ok(Ast::Assign(lhs, rhs))
            },
            Some(_) => {
                let token = self.advance()?;
                Err(
                    LangError::Expected {
                        expr: "`=` or end of statement, found non-root token",
                        span: token.span,
                    },
                )
            },
            None => Ok(Ast::Expr(lhs)),
        }
    }
}

/// Copy of a token kind; a symbol's text is copied character by character.
fn clone_kind(k: &TokenKind) -> (r: TokenKind)
{
    match k {
        TokenKind::Symbol(text) => TokenKind::Symbol(crate::base::dup_chars(text)),
        TokenKind::Number(n) => TokenKind::Number(*n),
        TokenKind::Eq => TokenKind::Eq,
        TokenKind::Add => TokenKind::Add,
        TokenKind::Sub => TokenKind::Sub,
        TokenKind::Mul => TokenKind::Mul,
        TokenKind::Div => TokenKind::Div,
        TokenKind::Pow => TokenKind::Pow,
        TokenKind::Fact => TokenKind::Fact,
        TokenKind::LPar => TokenKind::LPar,
        TokenKind::RPar => TokenKind::RPar,
        TokenKind::LSqr => TokenKind::LSqr,
        TokenKind::RSqr => TokenKind::RSqr,
        TokenKind::Comma => TokenKind::Comma,
        TokenKind::Keyword(kw) => TokenKind::Keyword(*kw),
    }
}

/// Every character of the name is acceptable in a symbol.
fn check_sym_name(name: &Vec<char>) -> (r: bool)
    ensures
        r == crate::base::valid_sym_name(name@),
{
    let mut i: usize = 0;
    while i < name.len()
        invariant
            0 <= i <= name@.len(),
            forall|j: int| 0 <= j < i ==> crate::base::sym_char_ok(#[trigger] name@[j]),
        decreases name@.len() - i,
    {
        let c = name[i];
        if c == ' ' || c == '\t' || c == '\n' || c == '\r' || c == '+' || c == '-' || c == '*'
            || c == '/' || c == '^' || c == '=' || c == '!' || c == ',' || c == '(' || c == ')'
            || c == '[' || c == ']' || c == '{' || c == '}' || c == '#' || c == '~' {
            return false;
        }
        i += 1;
    }
    true
}

} // verus!
