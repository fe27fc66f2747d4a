//! Canonical recursive expression representation: leaves (symbols, special
//! constants, exact numbers) and algebraic operations (unary, power-pair,
//! sorted associative, function application and bounded sequences), together
//! with the traversal and substitution algebra over them.

use vstd::prelude::*;
use vstd::std_specs::iter::IteratorSpec;

pub mod ord;
pub mod simp;
pub mod sq;

verus! {

broadcast use vstd::seq::group_seq_axioms, vstd::std_specs::vec::group_vec_axioms;

/// Closed nesting of numeric domains, smallest first. `SR` is the
/// distinguished broadest domain carried by special constants.
#[derive(Debug, Clone, Copy, PartialEq, Eq, Structural)]
pub enum Dom {
    N,
    Z,
    Q,
    R,
    C,
    SR,
}

impl Dom {
    /// Position of the domain inside the nesting.
    pub open spec fn rank(self) -> int {
        match self {
            Dom::N => 0,
            Dom::Z => 1,
            Dom::Q => 2,
            Dom::R => 3,
            Dom::C => 4,
            Dom::SR => 5,
        }
    }

    /// Executable counterpart of [`Dom::rank`].
    pub fn rank_ex(self) -> (r: u8)
        ensures
            r as int == self.rank(),
    {
        match self {
            Dom::N => 0,
            Dom::Z => 1,
            Dom::Q => 2,
            Dom::R => 3,
            Dom::C => 4,
            Dom::SR => 5,
        }
    }

    /// Least domain of the nesting that contains both operands.
    pub fn join(self, o: Dom) -> (r: Dom)
        ensures
            r == (if self.rank() >= o.rank() {
                self
            } else {
                o
            }),
    {
        if self.rank_ex() >= o.rank_ex() {
            self
        } else {
            o
        }
    }
}

/// Shared named special values, each with the broadest domain.
#[derive(Debug, Clone, Copy, PartialEq, Eq, Structural)]
pub enum Constant {
    /// Circle ratio.
    Pi,
    /// Natural-log base.
    E,
    /// Imaginary unit.
    I,
}

/// Failure of a numeric or algebraic normalization step (for exact integers,
/// an arithmetic result that leaves the machine range).
#[derive(Debug, Clone, Copy, PartialEq, Eq, Structural)]
pub struct Form;

/// Result of a normalization step.
pub type SymbolicResult<T> = Result<T, Form>;

/// Exact numeric literal.
#[derive(Debug, Clone, Copy, PartialEq, Eq, Structural)]
pub enum Number {
    /// An exact integer.
    Z(i128),
}

impl Number {
    /// The integer a number stands for.
    pub open spec fn val(self) -> int {
        match self {
            Number::Z(z) => z as int,
        }
    }

    /// Numbers own their normalization; an exact integer is already normal.
    pub fn trivial(self) -> (r: SymbolicResult<Number>)
        ensures
            r == Ok::<Number, Form>(self),
    {
        Ok(self)
    }
}

/// Characters that may not occur in a symbol name: whitespace and the
/// operator or bracket characters of the language.
pub open spec fn sym_char_ok(c: char) -> bool {
    !(c == ' ' || c == '\t' || c == '\n' || c == '\r' || c == '+' || c == '-' || c == '*' || c
        == '/' || c == '^' || c == '=' || c == '!' || c == ',' || c == '(' || c == ')' || c == '['
        || c == ']' || c == '{' || c == '}' || c == '#' || c == '~')
}

/// A validated symbol name holds no whitespace, operator or bracket characters.
pub open spec fn valid_sym_name(s: Seq<char>) -> bool {
    forall|i: int| 0 <= i < s.len() ==> sym_char_ok(#[trigger] s[i])
}

/// Mathematical value of a symbol: its name and its domain.
#[verifier::ext_equal]
pub struct SymV {
    pub name: Seq<char>,
    pub dom: Dom,
}

/// Symbol (variable) on a ring: a validated name and a domain tag. Two
/// symbols with equal name and domain are interchangeable values.
#[derive(Debug, Clone, PartialEq, Eq)]
pub struct Symbol {
    pub(crate) name: Vec<char>,
    pub(crate) dom: Dom,
}

impl View for Symbol {
    type V = SymV;

    closed spec fn view(&self) -> SymV {
        SymV { name: self.name@, dom: self.dom }
    }
}

impl Symbol {
    /// Make a symbol from a validated name and a domain.
    pub fn new(name_str: &str, dom: Dom) -> (r: Symbol)
        requires
            valid_sym_name(name_str@),
        ensures
            r@ == (SymV { name: name_str@, dom }),
    {
        Symbol { name: chars_of(name_str), dom }
    }

    /// Make a symbol from an already collected character sequence.
    pub fn from_chars(name: Vec<char>, dom: Dom) -> (r: Symbol)
        requires
            valid_sym_name(name@),
        ensures
            r@ == (SymV { name: name@, dom }),
    {
        Symbol { name, dom }
    }

    /// Copy of the symbol's name.
    pub fn name_chars(&self) -> (r: Vec<char>)
        ensures
            r@ == self@.name,
    {
        dup_chars(&self.name)
    }

    /// The symbol's domain tag.
    pub fn domain(&self) -> (r: Dom)
        ensures
            r == self@.dom,
    {
        self.dom
    }

    /// Structural equality of two symbols.
    pub fn eq_sym(&self, o: &Symbol) -> (r: bool)
        ensures
            r == (self@ =~= o@),
    {
        self.dom == o.dom && eq_chars(&self.name, &o.name)
    }

    /// Deep copy.
    pub fn dup(&self) -> (r: Symbol)
        ensures
            r@ == self@,
    {
        Symbol { name: dup_chars(&self.name), dom: self.dom }
    }
}

/// Collect the characters of a string slice.
pub fn chars_of(s: &str) -> (r: Vec<char>)
    ensures
        r@ == s@,
{
    broadcast use vstd::string::next_postcondition, vstd::string::axiom_spec_iter;

    let mut out: Vec<char> = Vec::new();
    let mut it = s.chars();
    loop
        invariant
            it.obeys_prophetic_iter_laws(),
            it.decrease() is Some,
            out@ + it.remaining() == s@,
        ensures
            out@ == s@,
        decreases it.decrease().unwrap(),
    {
        match it.next() {
            Some(c) => {
                out.push(c);
            },
            None => {
                proof {
                    assert(out@ =~= s@);
                }
                break ;
            },
        }
    }
    out
}

/// Elementwise equality of two character vectors.
pub fn eq_chars(a: &Vec<char>, b: &Vec<char>) -> (r: bool)
    ensures
        r == (a@ =~= b@),
{
    if a.len() != b.len() {
        return false;
    }
    let mut i: usize = 0;
    while i < a.len()
        invariant
            a@.len() == b@.len(),
            0 <= i <= a@.len(),
            forall|j: int| 0 <= j < i ==> a@[j] == b@[j],
        decreases a@.len() - i,
    {
        if a[i] != b[i] {
            return false;
        }
        i += 1;
    }
    true
}

/// Copy of a character vector.
pub fn dup_chars(a: &Vec<char>) -> (r: Vec<char>)
    ensures
        r@ == a@,
{
    let mut out: Vec<char> = Vec::new();
    let mut i: usize = 0;
    while i < a.len()
        invariant
            0 <= i <= a@.len(),
            out@ =~= a@.subrange(0, i as int),
        decreases a@.len() - i,
    {
        out.push(a[i]);
        i += 1;
    }
    proof {
        assert(out@ =~= a@);
    }
    out
}

/// Unary operators.
#[derive(Debug, Clone, Copy, PartialEq, Eq, Structural)]
pub enum UOp {
    /// Factorial, `x!`.
    Fact,
}

/// Power-pair operators.
#[derive(Debug, Clone, Copy, PartialEq, Eq, Structural)]
pub enum BOp {
    /// Exponentiation, `x^y`.
    Pow,
}

/// Associative n-ary operators.
#[derive(Debug, Clone, Copy, PartialEq, Eq, Structural)]
pub enum AOp {
    /// Addition, with identity 0.
    Add,
    /// Multiplication, with identity 1.
    Mul,
}

impl AOp {
    /// Identity element of the operator.
    pub open spec fn identity(self) -> int {
        match self {
            AOp::Add => 0,
            AOp::Mul => 1,
        }
    }
}

/// Function application shapes.
#[derive(Debug, PartialEq, Eq)]
pub enum Function {
    /// A named map applied to an ordered argument list.
    MapExpr { map: Vec<char>, arg: Vec<Expr> },
}

/// Algebraic operation over expressions.
#[derive(Debug, PartialEq, Eq)]
pub enum Algebra {
    /// Unary operator applied to one child.
    UExpr { map: UOp, arg: Box<Expr> },
    /// Power-pair: canonical (base, exponent) shape.
    BExpr { map: BOp, arg: (Box<Expr>, Box<Expr>) },
    /// Associative n-ary node; normalization keeps the children in
    /// non-decreasing canonical order.
    AssocExpr { map: AOp, arg: Vec<Expr> },
}

/// Expression tree: closed union over symbol references, constant
/// references, exact numbers, algebraic operations, function applications
/// and bounded sequences.
#[derive(Debug, PartialEq, Eq)]
pub enum Expr {
    /// Symbol (variable) on a ring.
    Sym(Symbol),
    /// Special constant.
    Cte(Constant),
    /// Exact number.
    Num(Number),
    /// Algebraic operation.
    Alg(Algebra),
    /// Function application.
    Fun(Function),
    /// Bounded sequence (sum or product).
    Sq(sq::Sequence),
}

/// Mathematical value of an expression tree.
#[verifier::ext_equal]
pub enum ExprV {
    Sym(SymV),
    Cte(Constant),
    Num(int),
    UExpr(UOp, Box<ExprV>),
    BExpr(BOp, Box<ExprV>, Box<ExprV>),
    AssocExpr(AOp, Seq<ExprV>),
    MapExpr(Seq<char>, Seq<ExprV>),
    SqExpr(sq::SqOp, SymV, Box<ExprV>, Box<ExprV>, Box<ExprV>),
}

/// Value of an expression tree.
pub open spec fn view_of(e: Expr) -> ExprV
    decreases e,
{
    match e {
        Expr::Sym(s) => ExprV::Sym(s@),
        Expr::Cte(c) => ExprV::Cte(c),
        Expr::Num(n) => ExprV::Num(n.val()),
        Expr::Alg(Algebra::UExpr { map, arg }) => ExprV::UExpr(map, Box::new(view_of(*arg))),
        Expr::Alg(Algebra::BExpr { map, arg }) => ExprV::BExpr(
            map,
            Box::new(view_of(*arg.0)),
            Box::new(view_of(*arg.1)),
        ),
        Expr::Alg(Algebra::AssocExpr { map, arg }) => ExprV::AssocExpr(map, views_of(arg@)),
        Expr::Fun(Function::MapExpr { map, arg }) => ExprV::MapExpr(map@, views_of(arg@)),
        Expr::Sq(s) => ExprV::SqExpr(
            s.map,
            s.idx@,
            Box::new(view_of(*s.lo)),
            Box::new(view_of(*s.up)),
            Box::new(view_of(*s.arg)),
        ),
    }
}

/// Values of a sequence of expression trees, elementwise.
pub open spec fn views_of(s: Seq<Expr>) -> Seq<ExprV>
    decreases s,
{
    if s.len() == 0 {
        Seq::empty()
    } else {
        seq![view_of(s[0])] + views_of(s.drop_first())
    }
}

impl View for Expr {
    type V = ExprV;

    open spec fn view(&self) -> ExprV {
        view_of(*self)
    }
}

/// `views_of` maps the sequence elementwise.
pub proof fn lemma_views_of(s: Seq<Expr>)
    ensures
        views_of(s).len() == s.len(),
        forall|i: int| 0 <= i < s.len() ==> views_of(s)[i] == view_of(#[trigger] s[i]),
    decreases s,
{
    if s.len() > 0 {
        lemma_views_of(s.drop_first());
        assert forall|i: int| 0 <= i < s.len() implies views_of(s)[i] == view_of(#[trigger] s[i]) by {
            if i > 0 {
                assert(views_of(s)[i] == views_of(s.drop_first())[i - 1]);
                assert(s.drop_first()[i - 1] == s[i]);
            }
        }
    }
}

/// Number of nodes of an expression value.
pub open spec fn sizev(e: ExprV) -> nat
    decreases e,
{
    match e {
        ExprV::Sym(_) => 1,
        ExprV::Cte(_) => 1,
        ExprV::Num(_) => 1,
        ExprV::UExpr(_, a) => 1 + sizev(*a),
        ExprV::BExpr(_, b, x) => 1 + sizev(*b) + sizev(*x),
        ExprV::AssocExpr(_, s) => 1 + sizes(s),
        ExprV::MapExpr(_, s) => 1 + sizes(s),
        ExprV::SqExpr(_, _, lo, up, a) => 1 + sizev(*lo) + sizev(*up) + sizev(*a),
    }
}

/// Total number of nodes of a sequence of expression values.
pub open spec fn sizes(s: Seq<ExprV>) -> nat
    decreases s,
{
    if s.len() == 0 {
        0
    } else {
        sizev(s[0]) + sizes(s.drop_first())
    }
}

/// Every expression value has at least one node.
pub broadcast proof fn lemma_sizev_pos(e: ExprV)
    ensures
        #[trigger] sizev(e) >= 1,
{
    match e {
        ExprV::Sym(_) => {},
        ExprV::Cte(_) => {},
        ExprV::Num(_) => {},
        ExprV::UExpr(_, _) => {},
        ExprV::BExpr(_, _, _) => {},
        ExprV::AssocExpr(_, _) => {},
        ExprV::MapExpr(_, _) => {},
        ExprV::SqExpr(_, _, _, _, _) => {},
    }
}

/// Node counts add over concatenation.
pub proof fn lemma_sizes_split(a: Seq<ExprV>, b: Seq<ExprV>)
    ensures
        sizes(a + b) == sizes(a) + sizes(b),
    decreases a,
{
    if a.len() == 0 {
        assert(a + b =~= b);
    } else {
        lemma_sizes_split(a.drop_first(), b);
        assert((a + b).drop_first() =~= a.drop_first() + b);
        assert((a + b)[0] == a[0]);
    }
}

/// A node counts no more than the whole sequence that holds it.
pub proof fn lemma_sizes_index(s: Seq<ExprV>, i: int)
    requires
        0 <= i < s.len(),
    ensures
        sizes(s) >= sizev(s[i]),
    decreases s,
{
    if i > 0 {
        lemma_sizes_index(s.drop_first(), i - 1);
    }
}

/// Node counts decompose at the last element.
pub proof fn lemma_sizes_last(s: Seq<ExprV>)
    requires
        s.len() > 0,
    ensures
        sizes(s) == sizes(s.drop_last()) + sizev(s.last()),
{
    assert(s =~= s.drop_last() + seq![s.last()]);
    lemma_sizes_split(s.drop_last(), seq![s.last()]);
    assert(sizes(seq![s.last()]) == sizev(s.last()) + sizes(seq![s.last()].drop_first()));
    assert(seq![s.last()].drop_first() =~= Seq::<ExprV>::empty());
}

impl Expr {
    /// Structural equality of two expression trees.
    pub fn eq_expr(&self, o: &Expr) -> (r: bool)
        ensures
            r == (self@ == o@),
        decreases *self,
    {
        match (self, o) {
            (Expr::Sym(l), Expr::Sym(rr)) => l.eq_sym(rr),
            (Expr::Cte(l), Expr::Cte(rr)) => l == rr,
            (Expr::Num(l), Expr::Num(rr)) => l == rr,
            (
                Expr::Alg(Algebra::UExpr { map: lm, arg: la }),
                Expr::Alg(Algebra::UExpr { map: rm, arg: ra }),
            ) => lm == rm && la.eq_expr(ra),
            (
                Expr::Alg(Algebra::BExpr { map: lm, arg: la }),
                Expr::Alg(Algebra::BExpr { map: rm, arg: ra }),
            ) => lm == rm && la.0.eq_expr(&ra.0) && la.1.eq_expr(&ra.1),
            (
                Expr::Alg(Algebra::AssocExpr { map: lm, arg: la }),
                Expr::Alg(Algebra::AssocExpr { map: rm, arg: ra }),
            ) => lm == rm && eq_vec(la, ra),
            (
                Expr::Fun(Function::MapExpr { map: lm, arg: la }),
                Expr::Fun(Function::MapExpr { map: rm, arg: ra }),
            ) => eq_chars(lm, rm) && eq_vec(la, ra),
            (Expr::Sq(l), Expr::Sq(rr)) => l.map == rr.map && l.idx.eq_sym(&rr.idx) && l.lo.eq_expr(
                &rr.lo,
            ) && l.up.eq_expr(&rr.up) && l.arg.eq_expr(&rr.arg),
            _ => {
                proof {
                    assert(self@ != o@);
                }
                false
            },
        }
    }

    /// Rank of the node's operator; leaves report the baseline 0.
    pub fn ord(&self) -> (r: u64)
        ensures
            r as int == ord_of(self@),
    {
        match self {
            Expr::Sym(_) => 0,
            Expr::Cte(_) => 0,
            Expr::Num(_) => 0,
            Expr::Alg(Algebra::UExpr { map: UOp::Fact, arg: _ }) => 4,
            Expr::Alg(Algebra::BExpr { map: BOp::Pow, arg: _ }) => 3,
            Expr::Alg(Algebra::AssocExpr { map: AOp::Add, arg: _ }) => 1,
            Expr::Alg(Algebra::AssocExpr { map: AOp::Mul, arg: _ }) => 2,
            Expr::Sq(_) => 5,
            Expr::Fun(_) => 6,
        }
    }

    /// Number of nodes of the tree; every leaf counts 1.
    pub fn len(&self) -> (r: u64)
        requires
            sizev(self@) <= u64::MAX,
        ensures
            r as nat == sizev(self@),
        decreases *self,
    {
        match self {
            Expr::Sym(_) => 1,
            Expr::Cte(_) => 1,
            Expr::Num(_) => 1,
            Expr::Alg(Algebra::UExpr { map: _, arg }) => 1 + arg.len(),
            Expr::Alg(Algebra::BExpr { map: _, arg }) => 1 + arg.0.len() + arg.1.len(),
            Expr::Alg(Algebra::AssocExpr { map: _, arg }) => 1 + len_vec(arg),
            Expr::Fun(Function::MapExpr { map: _, arg }) => 1 + len_vec(arg),
            Expr::Sq(q) => 1 + q.lo.len() + q.up.len() + q.arg.len(),
        }
    }

    /// Domain of the tree: leaves report their stored or default domain, a
    /// compound the least domain containing those of its children.
    pub fn dom(&self) -> (r: Dom)
        ensures
            r == dom_of(self@),
        decreases *self,
    {
        match self {
            Expr::Sym(s) => s.domain(),
            Expr::Cte(_) => Dom::SR,
            Expr::Num(Number::Z(z)) => if *z >= 0 {
                Dom::N
            } else {
                Dom::Z
            },
            Expr::Alg(Algebra::UExpr { map: _, arg }) => arg.dom(),
            Expr::Alg(Algebra::BExpr { map: _, arg }) => arg.0.dom().join(arg.1.dom()),
            Expr::Alg(Algebra::AssocExpr { map: _, arg }) => dom_vec(arg),
            Expr::Fun(_) => Dom::SR,
            Expr::Sq(q) => q.lo.dom().join(q.up.dom().join(q.arg.dom())),
        }
    }

    /// True iff `o` does not occur anywhere in `self`; an expression is
    /// never free of itself.
    pub fn free(&self, o: &Expr) -> (r: bool)
        ensures
            r == freev(self@, o@),
        decreases *self,
    {
        if self.eq_expr(o) {
            false
        } else {
            match self {
                Expr::Sym(_) => true,
                Expr::Cte(_) => true,
                Expr::Num(_) => true,
                Expr::Alg(Algebra::UExpr { map: _, arg }) => arg.free(o),
                Expr::Alg(Algebra::BExpr { map: _, arg }) => arg.0.free(o) && arg.1.free(o),
                Expr::Alg(Algebra::AssocExpr { map: _, arg }) => all_free_vec(arg, o),
                Expr::Fun(Function::MapExpr { map: _, arg }) => all_free_vec(arg, o),
                Expr::Sq(s) => s.lo.free(o) && s.up.free(o) && s.arg.free(o),
            }
        }
    }

    /// Substitute `s` for `m` throughout `self`: an exact match is replaced,
    /// a tree free of `m` is kept, and a compound is rebuilt with each child
    /// substituted, in that order.
    pub fn subs(&self, m: &Expr, s: &Expr) -> (r: Expr)
        ensures
            r@ == subsv(self@, m@, s@),
        decreases *self,
    {
        if self.eq_expr(m) {
            return s.dup();
        }
        if self.free(m) {
            return self.dup();
        }
        match self {
            Expr::Sym(_) => s.dup(),
            Expr::Cte(_) => s.dup(),
            Expr::Num(_) => s.dup(),
            Expr::Alg(Algebra::UExpr { map, arg }) => Expr::Alg(
                Algebra::UExpr { map: *map, arg: Box::new(arg.subs(m, s)) },
            ),
            Expr::Alg(Algebra::BExpr { map, arg }) => Expr::Alg(
                Algebra::BExpr {
                    map: *map,
                    arg: (Box::new(arg.0.subs(m, s)), Box::new(arg.1.subs(m, s))),
                },
            ),
            Expr::Alg(Algebra::AssocExpr { map, arg }) => Expr::Alg(
                Algebra::AssocExpr { map: *map, arg: subs_vec(arg, m, s) },
            ),
            Expr::Fun(Function::MapExpr { map, arg }) => Expr::Fun(
                Function::MapExpr { map: dup_chars(map), arg: subs_vec(arg, m, s) },
            ),
            Expr::Sq(q) => Expr::Sq(
                sq::Sequence {
                    map: q.map,
                    idx: q.idx.dup(),
                    lo: Box::new(q.lo.subs(m, s)),
                    up: Box::new(q.up.subs(m, s)),
                    arg: Box::new(q.arg.subs(m, s)),
                },
            ),
        }
    }

    /// All subterms of the tree, in depth-first traversal order: the tree
    /// itself first, then the subtrees of its children from the last
    /// declared child to the first.
    pub fn iter(&self) -> (r: Vec<Expr>)
        ensures
            views_of(r@) == travel(self@),
    {
        let mut out: Vec<Expr> = Vec::new();
        self.push_travel(&mut out);
        proof {
            assert(views_of(out@) =~= travel(self@));
        }
        out
    }

    /// Append the traversal of `self` to `out`.
    fn push_travel(&self, out: &mut Vec<Expr>)
        ensures
            views_of(final(out)@) == views_of(old(out)@) + travel(self@),
        decreases *self,
    {
        proof {
            lemma_views_of(out@);
        }
        let ghost base0 = out@;
        out.push(self.dup());
        proof {
            lemma_views_of(out@);
            assert(out@.drop_last() =~= base0);
            lemma_views_push(base0, out@.last());
            assert(views_of(out@) =~= views_of(base0) + seq![self@]);
        }
        match self {
            Expr::Sym(_) => (),
            Expr::Cte(_) => (),
            Expr::Num(_) => (),
            Expr::Alg(Algebra::UExpr { map: _, arg }) => {
                arg.push_travel(out);
            },
            Expr::Alg(Algebra::BExpr { map: _, arg }) => {
                arg.1.push_travel(out);
                arg.0.push_travel(out);
            },
            Expr::Alg(Algebra::AssocExpr { map: _, arg }) => {
                push_travel_vec(arg, out);
            },
            Expr::Fun(Function::MapExpr { map: _, arg }) => {
                push_travel_vec(arg, out);
            },
            Expr::Sq(q) => {
                q.arg.push_travel(out);
                q.up.push_travel(out);
                q.lo.push_travel(out);
            },
        }
        proof {
            assert(views_of(out@) =~= views_of(old(out)@) + travel(self@));
        }
    }

    /// Deep copy of the tree.
    pub fn dup(&self) -> (r: Expr)
        ensures
            r@ == self@,
        decreases *self,
    {
        match self {
            Expr::Sym(s) => Expr::Sym(s.dup()),
            Expr::Cte(c) => Expr::Cte(*c),
            Expr::Num(n) => Expr::Num(*n),
            Expr::Alg(Algebra::UExpr { map, arg }) => Expr::Alg(
                Algebra::UExpr { map: *map, arg: Box::new(arg.dup()) },
            ),
            Expr::Alg(Algebra::BExpr { map, arg }) => Expr::Alg(
                Algebra::BExpr { map: *map, arg: (Box::new(arg.0.dup()), Box::new(arg.1.dup())) },
            ),
            Expr::Alg(Algebra::AssocExpr { map, arg }) => Expr::Alg(
                Algebra::AssocExpr { map: *map, arg: dup_vec(arg) },
            ),
            Expr::Fun(Function::MapExpr { map, arg }) => Expr::Fun(
                Function::MapExpr { map: dup_chars(map), arg: dup_vec(arg) },
            ),
            Expr::Sq(s) => Expr::Sq(
                sq::Sequence {
                    map: s.map,
                    idx: s.idx.dup(),
                    lo: Box::new(s.lo.dup()),
                    up: Box::new(s.up.dup()),
                    arg: Box::new(s.arg.dup()),
                },
            ),
        }
    }
}

/// An expression is free of `o` when `o` occurs nowhere in it; in
/// particular an expression is never free of itself.
pub open spec fn freev(e: ExprV, o: ExprV) -> bool
    decreases e,
{
    if e == o {
        false
    } else {
        match e {
            ExprV::Sym(_) => true,
            ExprV::Cte(_) => true,
            ExprV::Num(_) => true,
            ExprV::UExpr(_, a) => freev(*a, o),
            ExprV::BExpr(_, b, x) => freev(*b, o) && freev(*x, o),
            ExprV::AssocExpr(_, s) => all_free(s, o),
            ExprV::MapExpr(_, s) => all_free(s, o),
            ExprV::SqExpr(_, _, lo, up, a) => freev(*lo, o) && freev(*up, o) && freev(*a, o),
        }
    }
}

/// Every element of the sequence is free of `o`.
pub open spec fn all_free(s: Seq<ExprV>, o: ExprV) -> bool
    decreases s,
{
    if s.len() == 0 {
        true
    } else {
        freev(s[0], o) && all_free(s.drop_first(), o)
    }
}

/// `all_free` holds exactly when every element is free.
pub proof fn lemma_all_free(s: Seq<ExprV>, o: ExprV)
    ensures
        all_free(s, o) <==> (forall|i: int| 0 <= i < s.len() ==> freev(#[trigger] s[i], o)),
    decreases s,
{
    if s.len() > 0 {
        lemma_all_free(s.drop_first(), o);
        assert(forall|i: int|
            1 <= i < s.len() ==> #[trigger] s[i] == s.drop_first()[i - 1]);
    }
}

/// Substitution of `s` for `m`: an exact match is replaced, an expression
/// free of `m` is returned unchanged, and a compound is rebuilt with each
/// child substituted. The evaluation order is fixed: equality first, then
/// freeness. (A leaf can never reach the third branch, since a leaf is
/// always free of anything it does not equal; the branch is reproduced all
/// the same.)
pub open spec fn subsv(e: ExprV, m: ExprV, s: ExprV) -> ExprV
    decreases e,
{
    if e == m {
        s
    } else if freev(e, m) {
        e
    } else {
        match e {
            ExprV::Sym(_) => s,
            ExprV::Cte(_) => s,
            ExprV::Num(_) => s,
            ExprV::UExpr(op, a) => ExprV::UExpr(op, Box::new(subsv(*a, m, s))),
            ExprV::BExpr(op, b, x) => ExprV::BExpr(
                op,
                Box::new(subsv(*b, m, s)),
                Box::new(subsv(*x, m, s)),
            ),
            ExprV::AssocExpr(op, c) => ExprV::AssocExpr(op, subs_seq(c, m, s)),
            ExprV::MapExpr(n, c) => ExprV::MapExpr(n, subs_seq(c, m, s)),
            ExprV::SqExpr(q, i, lo, up, a) => ExprV::SqExpr(
                q,
                i,
                Box::new(subsv(*lo, m, s)),
                Box::new(subsv(*up, m, s)),
                Box::new(subsv(*a, m, s)),
            ),
        }
    }
}

/// Elementwise substitution over a child sequence.
pub open spec fn subs_seq(c: Seq<ExprV>, m: ExprV, s: ExprV) -> Seq<ExprV>
    decreases c,
{
    if c.len() == 0 {
        c
    } else {
        seq![subsv(c[0], m, s)] + subs_seq(c.drop_first(), m, s)
    }
}

/// `subs_seq` maps the sequence elementwise.
pub proof fn lemma_subs_seq(c: Seq<ExprV>, m: ExprV, s: ExprV)
    ensures
        subs_seq(c, m, s).len() == c.len(),
        forall|i: int| 0 <= i < c.len() ==> subs_seq(c, m, s)[i] == subsv(#[trigger] c[i], m, s),
    decreases c,
{
    if c.len() > 0 {
        lemma_subs_seq(c.drop_first(), m, s);
        assert forall|i: int|
            0 <= i < c.len() implies subs_seq(c, m, s)[i] == subsv(#[trigger] c[i], m, s) by {
            if i > 0 {
                assert(subs_seq(c, m, s)[i] == subs_seq(c.drop_first(), m, s)[i - 1]);
                assert(c.drop_first()[i - 1] == c[i]);
            }
        }
    }
}

/// Rank of a node's operator; leaves rank 0.
pub open spec fn ord_of(e: ExprV) -> int {
    match e {
        ExprV::Sym(_) => 0,
        ExprV::Cte(_) => 0,
        ExprV::Num(_) => 0,
        ExprV::UExpr(UOp::Fact, _) => 4,
        ExprV::BExpr(BOp::Pow, _, _) => 3,
        ExprV::AssocExpr(AOp::Add, _) => 1,
        ExprV::AssocExpr(AOp::Mul, _) => 2,
        ExprV::SqExpr(_, _, _, _, _) => 5,
        ExprV::MapExpr(_, _) => 6,
    }
}

/// Least domain of the nesting containing both operands.
pub open spec fn join_d(a: Dom, b: Dom) -> Dom {
    if a.rank() >= b.rank() {
        a
    } else {
        b
    }
}

/// Domain of an expression value.
pub open spec fn dom_of(e: ExprV) -> Dom
    decreases e,
{
    match e {
        ExprV::Sym(s) => s.dom,
        ExprV::Cte(_) => Dom::SR,
        ExprV::Num(n) => if n >= 0 {
            Dom::N
        } else {
            Dom::Z
        },
        ExprV::UExpr(_, a) => dom_of(*a),
        ExprV::BExpr(_, b, x) => join_d(dom_of(*b), dom_of(*x)),
        ExprV::AssocExpr(_, s) => doms(s),
        ExprV::MapExpr(_, _) => Dom::SR,
        ExprV::SqExpr(_, _, lo, up, a) => join_d(dom_of(*lo), join_d(dom_of(*up), dom_of(*a))),
    }
}

/// Least domain containing the domains of all elements; `N` when empty.
pub open spec fn doms(s: Seq<ExprV>) -> Dom
    decreases s,
{
    if s.len() == 0 {
        Dom::N
    } else {
        join_d(dom_of(s[0]), doms(s.drop_first()))
    }
}

/// A leaf value: a symbol, constant or number.
pub open spec fn is_leaf(e: ExprV) -> bool {
    e is Sym || e is Cte || e is Num
}

/// Substituting an expression for itself leaves every tree unchanged.
pub proof fn lemma_subs_self(e: ExprV, p: ExprV)
    ensures
        subsv(e, p, p) == e,
    decreases e,
{
    if e == p {
    } else if freev(e, p) {
    } else {
        match e {
            ExprV::Sym(_) => {},
            ExprV::Cte(_) => {},
            ExprV::Num(_) => {},
            ExprV::UExpr(op, a) => {
                lemma_subs_self(*a, p);
                assert(subsv(e, p, p) =~= e);
            },
            ExprV::BExpr(op, b, x) => {
                lemma_subs_self(*b, p);
                lemma_subs_self(*x, p);
                assert(subsv(e, p, p) =~= e);
            },
            ExprV::AssocExpr(op, c) => {
                lemma_subs_seq_self(c, p);
                assert(subsv(e, p, p) =~= e);
            },
            ExprV::MapExpr(n, c) => {
                lemma_subs_seq_self(c, p);
                assert(subsv(e, p, p) =~= e);
            },
            ExprV::SqExpr(q, i, lo, up, a) => {
                lemma_subs_self(*lo, p);
                lemma_subs_self(*up, p);
                lemma_subs_self(*a, p);
                assert(subsv(e, p, p) =~= e);
            },
        }
    }
}

/// Substituting an expression for itself leaves every child unchanged.
pub proof fn lemma_subs_seq_self(c: Seq<ExprV>, p: ExprV)
    ensures
        subs_seq(c, p, p) == c,
    decreases c,
{
    if c.len() == 0 {
        assert(subs_seq(c, p, p) =~= c);
    } else {
        lemma_subs_self(c[0], p);
        lemma_subs_seq_self(c.drop_first(), p);
        assert(subs_seq(c, p, p) =~= c);
    }
}

/// When the pattern is a leaf and the replacement is free of it,
/// substitution eliminates every occurrence of the pattern. (For a compound
/// pattern the rebuilt children may recreate the pattern, so the law is
/// stated for leaf patterns only.)
pub proof fn lemma_subs_free(e: ExprV, p: ExprV, r: ExprV)
    requires
        is_leaf(p),
        freev(r, p),
    ensures
        freev(subsv(e, p, r), p),
    decreases e,
{
    if e == p {
    } else if freev(e, p) {
    } else {
        match e {
            ExprV::Sym(_) => {},
            ExprV::Cte(_) => {},
            ExprV::Num(_) => {},
            ExprV::UExpr(op, a) => {
                lemma_subs_free(*a, p, r);
            },
            ExprV::BExpr(op, b, x) => {
                lemma_subs_free(*b, p, r);
                lemma_subs_free(*x, p, r);
            },
            ExprV::AssocExpr(op, c) => {
                lemma_subs_seq_free(c, p, r);
            },
            ExprV::MapExpr(n, c) => {
                lemma_subs_seq_free(c, p, r);
            },
            ExprV::SqExpr(q, i, lo, up, a) => {
                lemma_subs_free(*lo, p, r);
                lemma_subs_free(*up, p, r);
                lemma_subs_free(*a, p, r);
            },
        }
    }
}

/// Substitution of a leaf pattern leaves every child free of the pattern.
pub proof fn lemma_subs_seq_free(c: Seq<ExprV>, p: ExprV, r: ExprV)
    requires
        is_leaf(p),
        freev(r, p),
    ensures
        all_free(subs_seq(c, p, r), p),
    decreases c,
{
    if c.len() > 0 {
        lemma_subs_free(c[0], p, r);
        lemma_subs_seq_free(c.drop_first(), p, r);
        assert(subs_seq(c, p, r).drop_first() =~= subs_seq(c.drop_first(), p, r));
    }
}

/// Depth-first traversal order: the expression itself first, then the
/// subtrees of its children from the last declared child to the first.
pub open spec fn travel(e: ExprV) -> Seq<ExprV>
    decreases e,
{
    seq![e] + match e {
        ExprV::Sym(_) => Seq::empty(),
        ExprV::Cte(_) => Seq::empty(),
        ExprV::Num(_) => Seq::empty(),
        ExprV::UExpr(_, a) => travel(*a),
        ExprV::BExpr(_, b, x) => travel(*x) + travel(*b),
        ExprV::AssocExpr(_, s) => travel_rev(s),
        ExprV::MapExpr(_, s) => travel_rev(s),
        ExprV::SqExpr(_, _, lo, up, a) => travel(*a) + travel(*up) + travel(*lo),
    }
}

/// Traversals of a child sequence, last child first.
pub open spec fn travel_rev(s: Seq<ExprV>) -> Seq<ExprV>
    decreases s,
{
    if s.len() == 0 {
        Seq::empty()
    } else {
        travel(s.last()) + travel_rev(s.drop_last())
    }
}

/// `travel_rev` also decomposes at the front of the child sequence.
pub proof fn lemma_travel_rev_front(s: Seq<ExprV>)
    requires
        s.len() > 0,
    ensures
        travel_rev(s) == travel_rev(s.drop_first()) + travel(s[0]),
    decreases s,
{
    if s.len() == 1 {
        assert(s.drop_last() =~= Seq::<ExprV>::empty());
        assert(s.drop_first() =~= Seq::<ExprV>::empty());
        assert(travel_rev(s) =~= travel_rev(s.drop_first()) + travel(s[0]));
    } else {
        lemma_travel_rev_front(s.drop_last());
        assert(s.drop_last().drop_first() =~= s.drop_first().drop_last());
        assert(s.drop_first().last() == s.last());
        assert(s.drop_last()[0] == s[0]);
        assert(travel_rev(s) =~= travel_rev(s.drop_first()) + travel(s[0]));
    }
}

/// Elementwise structural equality of two expression vectors.
pub fn eq_vec(a: &Vec<Expr>, b: &Vec<Expr>) -> (r: bool)
    ensures
        r == (views_of(a@) == views_of(b@)),
    decreases *a,
{
    proof {
        lemma_views_of(a@);
        lemma_views_of(b@);
    }
    if a.len() != b.len() {
        return false;
    }
    let mut i: usize = 0;
    while i < a.len()
        invariant
            a@.len() == b@.len(),
            0 <= i <= a@.len(),
            views_of(a@).len() == a@.len(),
            views_of(b@).len() == b@.len(),
            forall|j: int| 0 <= j < a@.len() ==> views_of(a@)[j] == view_of(#[trigger] a@[j]),
            forall|j: int| 0 <= j < b@.len() ==> views_of(b@)[j] == view_of(#[trigger] b@[j]),
            forall|j: int| 0 <= j < i ==> views_of(a@)[j] == views_of(b@)[j],
        decreases a@.len() - i,
    {
        if !a[i].eq_expr(&b[i]) {
            return false;
        }
        i += 1;
    }
    proof {
        assert(views_of(a@) =~= views_of(b@));
    }
    true
}

/// Deep copy of an expression vector.
pub fn dup_vec(a: &Vec<Expr>) -> (r: Vec<Expr>)
    ensures
        views_of(r@) == views_of(a@),
        r@.len() == a@.len(),
        forall|j: int| 0 <= j < a@.len() ==> #[trigger] r@[j]@ == a@[j]@,
    decreases *a,
{
    proof {
        lemma_views_of(a@);
    }
    let mut out: Vec<Expr> = Vec::new();
    let mut i: usize = 0;
    while i < a.len()
        invariant
            0 <= i <= a@.len(),
            out@.len() == i,
            forall|j: int| 0 <= j < a@.len() ==> views_of(a@)[j] == view_of(#[trigger] a@[j]),
            forall|j: int| 0 <= j < i ==> #[trigger] out@[j]@ == a@[j]@,
        decreases a@.len() - i,
    {
        out.push(a[i].dup());
        i += 1;
    }
    proof {
        lemma_views_of(out@);
        assert forall|j: int| 0 <= j < a@.len() implies views_of(out@)[j] == views_of(a@)[j] by {
            assert(out@[j]@ == a@[j]@);
            assert(out@[j]@ == view_of(out@[j]));
            assert(views_of(out@)[j] == view_of(out@[j]));
            assert(views_of(a@)[j] == view_of(a@[j]));
        }
        assert(views_of(out@) =~= views_of(a@));
    }
    out
}

/// Total number of nodes of the elements of a vector.
fn len_vec(s: &Vec<Expr>) -> (r: u64)
    requires
        sizes(views_of(s@)) <= u64::MAX,
    ensures
        r as nat == sizes(views_of(s@)),
    decreases *s,
{
    proof {
        lemma_views_of(s@);
    }
    let ghost vs = views_of(s@);
    let mut t: u64 = 0;
    let mut i: usize = s.len();
    proof {
        assert(vs.subrange(i as int, vs.len() as int) =~= Seq::<ExprV>::empty());
    }
    while i > 0
        invariant
            0 <= i <= s@.len(),
            vs == views_of(s@),
            vs.len() == s@.len(),
            sizes(vs) <= u64::MAX,
            forall|j: int| 0 <= j < s@.len() ==> vs[j] == view_of(#[trigger] s@[j]),
            t as nat == sizes(vs.subrange(i as int, vs.len() as int)),
        decreases i,
    {
        proof {
            let sub1 = vs.subrange(i - 1, vs.len() as int);
            assert(sub1.drop_first() =~= vs.subrange(i as int, vs.len() as int));
            assert(sub1[0] == vs[i - 1]);
            assert(vs =~= vs.subrange(0, i - 1) + sub1);
            lemma_sizes_split(vs.subrange(0, i - 1), sub1);
        }
        let c = s[i - 1].len();
        t = t + c;
        i -= 1;
    }
    proof {
        assert(vs.subrange(0, vs.len() as int) =~= vs);
    }
    t
}

/// Least domain containing the domains of all elements of a vector.
fn dom_vec(s: &Vec<Expr>) -> (r: Dom)
    ensures
        r == doms(views_of(s@)),
    decreases *s,
{
    proof {
        lemma_views_of(s@);
    }
    let ghost vs = views_of(s@);
    let mut d = Dom::N;
    let mut i: usize = s.len();
    proof {
        assert(vs.subrange(i as int, vs.len() as int) =~= Seq::<ExprV>::empty());
    }
    while i > 0
        invariant
            0 <= i <= s@.len(),
            vs == views_of(s@),
            vs.len() == s@.len(),
            forall|j: int| 0 <= j < s@.len() ==> vs[j] == view_of(#[trigger] s@[j]),
            d == doms(vs.subrange(i as int, vs.len() as int)),
        decreases i,
    {
        proof {
            let sub1 = vs.subrange(i - 1, vs.len() as int);
            assert(sub1.drop_first() =~= vs.subrange(i as int, vs.len() as int));
            assert(sub1[0] == vs[i - 1]);
        }
        d = s[i - 1].dom().join(d);
        i -= 1;
    }
    proof {
        assert(vs.subrange(0, vs.len() as int) =~= vs);
    }
    d
}

/// Appending an element appends its value.
pub proof fn lemma_views_push(s: Seq<Expr>, e: Expr)
    ensures
        views_of(s.push(e)) == views_of(s) + seq![e@],
{
    lemma_views_of(s.push(e));
    lemma_views_of(s);
    assert forall|i: int|
        0 <= i < s.push(e).len() implies views_of(s.push(e))[i] == (views_of(s) + seq![e@])[i] by {
        assert(views_of(s.push(e))[i] == view_of(s.push(e)[i]));
        if i < s.len() {
            assert(s.push(e)[i] == s[i]);
            assert(views_of(s)[i] == view_of(s[i]));
        } else {
            assert(s.push(e)[i] == e);
        }
    }
    assert(views_of(s.push(e)) =~= views_of(s) + seq![e@]);
}

/// Every element of the vector is free of `o`.
pub fn all_free_vec(s: &Vec<Expr>, o: &Expr) -> (r: bool)
    ensures
        r == all_free(views_of(s@), o@),
    decreases *s,
{
    proof {
        lemma_views_of(s@);
        lemma_all_free(views_of(s@), o@);
    }
    let mut i: usize = 0;
    while i < s.len()
        invariant
            0 <= i <= s@.len(),
            views_of(s@).len() == s@.len(),
            forall|j: int| 0 <= j < s@.len() ==> views_of(s@)[j] == view_of(#[trigger] s@[j]),
            all_free(views_of(s@), o@) <==> (forall|j: int|
                0 <= j < s@.len() ==> freev(#[trigger] views_of(s@)[j], o@)),
            forall|j: int| 0 <= j < i ==> freev(#[trigger] views_of(s@)[j], o@),
        decreases s@.len() - i,
    {
        if !s[i].free(o) {
            proof {
                assert(!freev(views_of(s@)[i as int], o@));
            }
            return false;
        }
        i += 1;
    }
    true
}

/// Substitute `s` for `m` in every element of the vector.
pub fn subs_vec(c: &Vec<Expr>, m: &Expr, s: &Expr) -> (r: Vec<Expr>)
    ensures
        views_of(r@) == subs_seq(views_of(c@), m@, s@),
    decreases *c,
{
    proof {
        lemma_views_of(c@);
        lemma_subs_seq(views_of(c@), m@, s@);
    }
    let mut out: Vec<Expr> = Vec::new();
    let mut i: usize = 0;
    while i < c.len()
        invariant
            0 <= i <= c@.len(),
            out@.len() == i,
            views_of(c@).len() == c@.len(),
            forall|j: int| 0 <= j < c@.len() ==> views_of(c@)[j] == view_of(#[trigger] c@[j]),
            forall|j: int|
                0 <= j < i ==> #[trigger] out@[j]@ == subsv(views_of(c@)[j], m@, s@),
        decreases c@.len() - i,
    {
        out.push(c[i].subs(m, s));
        i += 1;
    }
    proof {
        lemma_views_of(out@);
        assert forall|j: int|
            0 <= j < c@.len() implies views_of(out@)[j] == subs_seq(views_of(c@), m@, s@)[j] by {
            assert(out@[j]@ == subsv(views_of(c@)[j], m@, s@));
            assert(views_of(out@)[j] == view_of(out@[j]));
        }
        assert(views_of(out@) =~= subs_seq(views_of(c@), m@, s@));
    }
    out
}

/// Append the traversals of the elements, last element first.
pub fn push_travel_vec(arg: &Vec<Expr>, out: &mut Vec<Expr>)
    ensures
        views_of(final(out)@) == views_of(old(out)@) + travel_rev(views_of(arg@)),
    decreases *arg,
{
    proof {
        lemma_views_of(arg@);
    }
    let ghost vs = views_of(arg@);
    let mut i: usize = arg.len();
    proof {
        assert(vs.subrange(i as int, vs.len() as int) =~= Seq::<ExprV>::empty());
        assert(views_of(out@) =~= views_of(old(out)@) + travel_rev(
            vs.subrange(i as int, vs.len() as int),
        ));
    }
    while i > 0
        invariant
            0 <= i <= arg@.len(),
            vs == views_of(arg@),
            vs.len() == arg@.len(),
            forall|j: int| 0 <= j < arg@.len() ==> vs[j] == view_of(#[trigger] arg@[j]),
            views_of(out@) == views_of(old(out)@) + travel_rev(
                vs.subrange(i as int, vs.len() as int),
            ),
        decreases i,
    {
        let ghost before = views_of(out@);
        arg[i - 1].push_travel(out);
        proof {
            let sub1 = vs.subrange(i - 1, vs.len() as int);
            lemma_travel_rev_front(sub1);
            assert(sub1.drop_first() =~= vs.subrange(i as int, vs.len() as int));
            assert(sub1[0] == vs[i - 1]);
            assert(views_of(out@) =~= views_of(old(out)@) + travel_rev(sub1));
        }
        i -= 1;
    }
    proof {
        assert(vs.subrange(0, vs.len() as int) =~= vs);
    }
}

} // verus!
