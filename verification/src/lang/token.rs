//! Lexer: a finite, forward-only token sequence with byte-offset spans.
//! Single-character operators and brackets, maximal digit runs as unsigned
//! integer literals (with a span-tagged overflow error), and maximal
//! alphanumeric/underscore runs as identifiers, four of which are reserved
//! keywords. Whitespace is skipped; any other byte is a lexical error.

use vstd::prelude::*;
use vstd::string::StringSliceAdditionalSpecFns;

use crate::lang::{LangError, Span};

verus! {

broadcast use vstd::seq::group_seq_axioms, vstd::std_specs::vec::group_vec_axioms;

/// Reserved keywords of the language.
#[derive(Debug, Clone, Copy, PartialEq, Eq, Structural)]
pub enum TokenKeyword {
    Diff,
    Int,
    Sum,
    Prod,
}

/// Kinds of tokens.
#[derive(Debug, Clone, PartialEq, Eq)]
pub enum TokenKind {
    Symbol(Vec<char>),
    Number(u64),
    // arithmetic
    Eq,
    Add,
    Sub,
    Mul,
    Div,
    Pow,
    Fact,
    // reserved
    LPar,
    RPar,
    LSqr,
    RSqr,
    Comma,
    // lang
    Keyword(TokenKeyword),
}

/// A token with its byte span inside the input.
#[derive(Debug, Clone, PartialEq, Eq)]
pub struct Token {
    pub span: Span,
    pub kind: TokenKind,
}

/// Whitespace skipped between tokens.
pub open spec fn is_ws(c: u8) -> bool {
    c == 32 || c == 9 || c == 10 || c == 13
}

/// A decimal digit.
pub open spec fn is_digit(c: u8) -> bool {
    48 <= c && c <= 57
}

/// A byte that may start an identifier.
pub open spec fn is_sym_start(c: u8) -> bool {
    (97 <= c && c <= 122) || (65 <= c && c <= 90) || c == 95
}

/// A byte that may continue an identifier.
pub open spec fn is_symc(c: u8) -> bool {
    is_sym_start(c) || is_digit(c)
}

/// Value of one digit.
pub open spec fn digit_val(c: u8) -> int {
    c - 48
}

/// Value of a run of digits, most significant first.
pub open spec fn digits_val(s: Seq<u8>) -> int
    decreases s,
{
    if s.len() == 0 {
        0
    } else {
        digits_val(s.drop_last()) * 10 + digit_val(s.last())
    }
}

/// A digit run has a non-negative value.
pub proof fn lemma_digits_nonneg(s: Seq<u8>)
    requires
        forall|i: int| 0 <= i < s.len() ==> is_digit(#[trigger] s[i]),
    ensures
        digits_val(s) >= 0,
    decreases s,
{
    if s.len() > 0 {
        lemma_digits_nonneg(s.drop_last());
    }
}

/// A digit run is worth at least any of its prefixes.
pub proof fn lemma_digits_prefix(s: Seq<u8>, k: int)
    requires
        0 <= k <= s.len(),
        forall|i: int| 0 <= i < s.len() ==> is_digit(#[trigger] s[i]),
    ensures
        digits_val(s) >= digits_val(s.take(k)),
    decreases s.len() - k,
{
    if k < s.len() {
        lemma_digits_prefix(s, k + 1);
        lemma_digits_nonneg(s.take(k));
        assert(s.take(k + 1).drop_last() =~= s.take(k));
        assert(s.take(k + 1).last() == s[k]);
    } else {
        assert(s.take(k) =~= s);
    }
}

/// The identifier run's bytes as characters.
pub open spec fn run_chars(src: Seq<u8>, lo: int, hi: int) -> Seq<char> {
    Seq::new((hi - lo) as nat, |k: int| src[lo + k] as char)
}

/// The keyword an identifier spells, if any.
pub open spec fn keyword_of(s: Seq<char>) -> Option<TokenKeyword> {
    if s == seq!['D', 'i', 'f', 'f'] {
        Some(TokenKeyword::Diff)
    } else if s == seq!['I', 'n', 't'] {
        Some(TokenKeyword::Int)
    } else if s == seq!['S', 'u', 'm'] {
        Some(TokenKeyword::Sum)
    } else if s == seq!['P', 'r', 'o', 'd'] {
        Some(TokenKeyword::Prod)
    } else {
        None
    }
}

/// The single-character token a byte stands for, if any.
pub open spec fn char_token(c: u8) -> Option<TokenKind> {
    if c == 61 {
        Some(TokenKind::Eq)
    } else if c == 43 {
        Some(TokenKind::Add)
    } else if c == 45 {
        Some(TokenKind::Sub)
    } else if c == 42 {
        Some(TokenKind::Mul)
    } else if c == 47 {
        Some(TokenKind::Div)
    } else if c == 94 {
        Some(TokenKind::Pow)
    } else if c == 33 {
        Some(TokenKind::Fact)
    } else if c == 40 {
        Some(TokenKind::LPar)
    } else if c == 41 {
        Some(TokenKind::RPar)
    } else if c == 91 {
        Some(TokenKind::LSqr)
    } else if c == 93 {
        Some(TokenKind::RSqr)
    } else if c == 44 {
        Some(TokenKind::Comma)
    } else {
        None
    }
}

/// Only whitespace stands between the two positions.
pub open spec fn ws_between(src: Seq<u8>, a: int, b: int) -> bool {
    forall|i: int| a <= i < b ==> is_ws(#[trigger] src[i])
}

/// The span holds a maximal run of digits.
pub open spec fn maximal_digit_run(src: Seq<u8>, lo: int, hi: int) -> bool {
    &&& forall|i: int| lo <= i < hi ==> is_digit(#[trigger] src[i])
    &&& (hi == src.len() || !is_digit(src[hi]))
}

/// The span holds a maximal identifier run.
pub open spec fn maximal_sym_run(src: Seq<u8>, lo: int, hi: int) -> bool {
    &&& is_sym_start(src[lo])
    &&& forall|i: int| lo < i < hi ==> is_symc(#[trigger] src[i])
    &&& (hi == src.len() || !is_symc(src[hi]))
}

/// The token is a non-empty, valid byte span of the input whose text
/// matches its kind: single bytes for operators and brackets, a maximal
/// digit run worth the carried value for a number, a maximal identifier run
/// for a symbol or keyword.
pub open spec fn token_ok(src: Seq<u8>, t: Token) -> bool {
    let lo = t.span.start as int;
    let hi = t.span.end as int;
    &&& 0 <= lo < hi <= src.len()
    &&& match t.kind {
        TokenKind::Number(n) => {
            &&& maximal_digit_run(src, lo, hi)
            &&& n as int == digits_val(src.subrange(lo, hi))
        },
        TokenKind::Symbol(text) => {
            &&& maximal_sym_run(src, lo, hi)
            &&& text@ == run_chars(src, lo, hi)
            &&& keyword_of(run_chars(src, lo, hi)) is None
        },
        TokenKind::Keyword(kw) => {
            &&& maximal_sym_run(src, lo, hi)
            &&& keyword_of(run_chars(src, lo, hi)) == Some(kw)
        },
        _ => hi == lo + 1 && char_token(src[lo]) == Some(t.kind),
    }
}

/// Lexer state: the UTF-8 bytes of the input and the scan position, a byte
/// offset.
#[derive(Debug, Clone)]
pub struct Lexer {
    src: Vec<u8>,
    cur: usize,
}

impl Lexer {
    /// The input bytes.
    pub closed spec fn src_v(&self) -> Seq<u8> {
        self.src@
    }

    /// The scan position, a byte offset.
    pub closed spec fn pos(&self) -> int {
        self.cur as int
    }

    /// The position never leaves the input.
    pub closed spec fn wf(&self) -> bool {
        self.cur <= self.src@.len()
    }

    /// A well-formed lexer's position stays inside its input.
    pub broadcast proof fn lemma_bounds(&self)
        ensures
            #[trigger] self.wf() ==> 0 <= self.pos() <= self.src_v().len(),
    {
    }

    /// Make a lexer over an input string.
    pub fn new(src: &str) -> (r: Lexer)
        ensures
            r.wf(),
            r.src_v() == src.spec_bytes(),
            r.pos() == 0,
    {
        Lexer { src: vstd::slice::slice_to_vec(src.as_bytes()), cur: 0 }
    }

    /// Next token. Leading whitespace is skipped; at the end of the input
    /// there is no token; a valid token advances the position to the end of
    /// its span, so that the spans of the emitted tokens cover the input
    /// except for whitespace. A byte that starts no token is a lexical
    /// error; a digit run past the unsigned 64-bit range is an overflow
    /// error carrying the run's span.
    pub fn next(&mut self) -> (r: Option<Result<Token, LangError>>)
        requires
            old(self).wf(),
        ensures
            final(self).wf(),
            final(self).src_v() == old(self).src_v(),
            old(self).pos() <= final(self).pos(),
            match r {
                None => {
                    &&& final(self).pos() == old(self).src_v().len()
                    &&& ws_between(old(self).src_v(), old(self).pos(), final(self).pos())
                },
                Some(res) => match res {
                    Ok(t) => {
                        &&& old(self).pos() <= t.span.start < t.span.end <= old(
                            self,
                        ).src_v().len()
                        &&& ws_between(old(self).src_v(), old(self).pos(), t.span.start as int)
                        &&& !is_ws(old(self).src_v()[t.span.start as int])
                        &&& final(self).pos() == t.span.end
                        &&& token_ok(old(self).src_v(), t)
                    },
                    Err(e) => match e {
                        LangError::Lex => {
                            &&& final(self).pos() < old(self).src_v().len()
                            &&& ws_between(old(self).src_v(), old(self).pos(), final(self).pos())
                            &&& {
                                let c = old(self).src_v()[final(self).pos()];
                                !is_ws(c) && !is_digit(c) && !is_sym_start(c) && char_token(c)
                                    is None
                            }
                        },
                        LangError::Integer { span } => {
                            &&& old(self).pos() <= span.start < span.end <= old(
                                self,
                            ).src_v().len()
                            &&& ws_between(old(self).src_v(), old(self).pos(), span.start as int)
                            &&& maximal_digit_run(
                                old(self).src_v(),
                                span.start as int,
                                span.end as int,
                            )
                            &&& digits_val(
                                old(self).src_v().subrange(span.start as int, span.end as int),
                            ) > u64::MAX
                            &&& final(self).pos() == span.end
                        },
                        _ => false,
                    },
                },
            },
    {
        let ghost src = self.src@;
        let ghost p0 = self.cur as int;
        loop
            invariant
                self.src@ == src,
                p0 <= self.cur as int,
                self.cur <= self.src@.len(),
                ws_between(src, p0, self.cur as int),
            ensures
                self.src@ == src,
                p0 <= self.cur as int,
                self.cur <= self.src@.len(),
                ws_between(src, p0, self.cur as int),
                self.cur == self.src@.len() || !is_ws(src[self.cur as int]),
            decreases self.src@.len() - self.cur,
        {
            if self.cur == self.src.len() {
                break ;
            }
            let c = self.src[self.cur];
            if c == 32 || c == 9 || c == 10 || c == 13 {
                self.cur += 1;
            } else {
                break ;
            }
        }
        if self.cur == self.src.len() {
            return None;
        }
        let c = self.src[self.cur];
        if 48 <= c && c <= 57 {
            return Some(self.number());
        }
        if (97 <= c && c <= 122) || (65 <= c && c <= 90) || c == 95 {
            return Some(Ok(self.symbol()));
        }
        let kind: Option<TokenKind> = if c == 61 {
            Some(TokenKind::Eq)
        } else if c == 43 {
            Some(TokenKind::Add)
        } else if c == 45 {
            Some(TokenKind::Sub)
        } else if c == 42 {
            Some(TokenKind::Mul)
        } else if c == 47 {
            Some(TokenKind::Div)
        } else if c == 94 {
            Some(TokenKind::Pow)
        } else if c == 33 {
            Some(TokenKind::Fact)
        } else if c == 40 {
            Some(TokenKind::LPar)
        } else if c == 41 {
            Some(TokenKind::RPar)
        } else if c == 91 {
            Some(TokenKind::LSqr)
        } else if c == 93 {
            Some(TokenKind::RSqr)
        } else if c == 44 {
            Some(TokenKind::Comma)
        } else {
            None
        };
        match kind {
            Some(k) => {
                let start = self.cur;
                self.cur += 1;
                Some(Ok(Token { span: Span { start, end: self.cur }, kind: k }))
            },
            None => Some(Err(LangError::Lex)),
        }
    }

    /// Scan a maximal digit run into an unsigned integer literal.
    fn number(&mut self) -> (r: Result<Token, LangError>)
        requires
            old(self).wf(),
            old(self).pos() < old(self).src_v().len(),
            is_digit(old(self).src_v()[old(self).pos()]),
        ensures
            final(self).wf(),
            final(self).src_v() == old(self).src_v(),
            match r {
                Ok(t) => {
                    &&& t.span.start as int == old(self).pos()
                    &&& old(self).pos() < t.span.end <= old(self).src_v().len()
                    &&& final(self).pos() == t.span.end
                    &&& token_ok(old(self).src_v(), t)
                    &&& t.kind is Number
                },
                Err(e) => match e {
                    LangError::Integer { span } => {
                        &&& span.start as int == old(self).pos()
                        &&& old(self).pos() < span.end <= old(self).src_v().len()
                        &&& maximal_digit_run(
                            old(self).src_v(),
                            span.start as int,
                            span.end as int,
                        )
                        &&& digits_val(
                            old(self).src_v().subrange(span.start as int, span.end as int),
                        ) > u64::MAX
                        &&& final(self).pos() == span.end
                    },
                    _ => false,
                },
            },
    {
        let ghost src = self.src@;
        let start = self.cur;
        while self.cur < self.src.len() && 48 <= self.src[self.cur] && self.src[self.cur] <= 57
            invariant
                self.src@ == src,
                start as int <= self.cur as int,
                self.cur <= self.src@.len(),
                forall|i: int| start <= i < self.cur as int ==> is_digit(#[trigger] src[i]),
            decreases self.src@.len() - self.cur,
        {
            self.cur += 1;
        }
        let end = self.cur;
        let ghost run = src.subrange(start as int, end as int);
        proof {
            assert(forall|i: int| 0 <= i < run.len() ==> is_digit(#[trigger] run[i]));
        }
        let mut acc: u64 = 0;
        let mut i: usize = start;
        proof {
            assert(run.take(0) =~= Seq::<u8>::empty());
        }
        while i < end
            invariant
                src == old(self).src_v(),
                start as int == old(self).pos(),
                self.src@ == src,
                self.cur == end,
                start < end,
                start <= i <= end,
                end <= src.len(),
                end == src.len() || !is_digit(src[end as int]),
                forall|k: int| 0 <= k < run.len() ==> is_digit(#[trigger] run[k]),
                run == src.subrange(start as int, end as int),
                run.len() == end - start,
                acc as int == digits_val(run.take(i - start)),
            decreases end - i,
        {
            let c = self.src[i];
            proof {
                assert(src[i as int] == run[i - start]);
            }
            let d: u64 = (c - 48) as u64;
            proof {
                assert(is_digit(run[i - start]));
                assert(d as int == digit_val(run[i - start]));
                lemma_digits_nonneg(run.take(i - start));
                assert(run.take(i - start + 1).drop_last() =~= run.take(i - start));
                assert(run.take(i - start + 1).last() == run[i - start]);
            }
            let grown = match acc.checked_mul(10) {
                Some(x) => x.checked_add(d),
                None => None,
            };
            match grown {
                Some(v) => {
                    acc = v;
                },
                None => {
                    proof {
                        assert(digits_val(run.take(i - start + 1)) > u64::MAX);
                        lemma_digits_prefix(run, i - start + 1);
                        assert(run.take(run.len() as int) =~= run);
                        assert forall|q: int| start <= q < end implies is_digit(
                            #[trigger] src[q],
                        ) by {
                            assert(src[q] == run[q - start]);
                        }
                    }
                    return Err(LangError::Integer { span: Span { start, end } });
                },
            }
            i += 1;
        }
        proof {
            assert(run.take(end - start) =~= run);
            assert forall|i: int| start <= i < end implies is_digit(#[trigger] src[i]) by {
                assert(src[i] == run[i - start]);
            }
        }
        Ok(Token { span: Span { start, end }, kind: TokenKind::Number(acc) })
    }

    /// Scan a maximal identifier run into a symbol or keyword token.
    fn symbol(&mut self) -> (t: Token)
        requires
            old(self).wf(),
            old(self).pos() < old(self).src_v().len(),
            is_sym_start(old(self).src_v()[old(self).pos()]),
        ensures
            final(self).wf(),
            final(self).src_v() == old(self).src_v(),
            t.span.start as int == old(self).pos(),
            old(self).pos() < t.span.end <= old(self).src_v().len(),
            final(self).pos() == t.span.end,
            token_ok(old(self).src_v(), t),
            t.kind is Symbol || t.kind is Keyword,
    {
        let ghost src = self.src@;
        let start = self.cur;
        let mut text: Vec<char> = Vec::new();
        proof {
            assert(text@ =~= run_chars(src, start as int, start as int));
        }
        loop
            invariant
                self.src@ == src,
                start as int <= self.cur as int,
                self.cur <= self.src@.len(),
                forall|i: int| start < i < self.cur as int ==> is_symc(#[trigger] src[i]),
                text@ == run_chars(src, start as int, self.cur as int),
            ensures
                self.src@ == src,
                start as int <= self.cur as int,
                self.cur <= self.src@.len(),
                forall|i: int| start < i < self.cur as int ==> is_symc(#[trigger] src[i]),
                text@ == run_chars(src, start as int, self.cur as int),
                self.cur == self.src@.len() || !is_symc(src[self.cur as int]),
            decreases self.src@.len() - self.cur,
        {
            if self.cur == self.src.len() {
                break ;
            }
            let c = self.src[self.cur];
            if (97 <= c && c <= 122) || (65 <= c && c <= 90) || (48 <= c && c <= 57) || c == 95 {
                text.push(c as char);
                self.cur += 1;
                proof {
                    assert(text@ =~= run_chars(src, start as int, self.cur as int));
                }
            } else {
                break ;
            }
        }
        let end = self.cur;
        if text.len() == 4 && text[0] == 'D' && text[1] == 'i' && text[2] == 'f' && text[3] == 'f' {
            proof {
                assert(text@ =~= seq!['D', 'i', 'f', 'f']);
            }
            Token { span: Span { start, end }, kind: TokenKind::Keyword(TokenKeyword::Diff) }
        } else if text.len() == 3 && text[0] == 'I' && text[1] == 'n' && text[2] == 't' {
            proof {
                assert(text@ =~= seq!['I', 'n', 't']);
            }
            Token { span: Span { start, end }, kind: TokenKind::Keyword(TokenKeyword::Int) }
        } else if text.len() == 3 && text[0] == 'S' && text[1] == 'u' && text[2] == 'm' {
            proof {
                assert(text@ =~= seq!['S', 'u', 'm']);
            }
            Token { span: Span { start, end }, kind: TokenKind::Keyword(TokenKeyword::Sum) }
        } else if text.len() == 4 && text[0] == 'P' && text[1] == 'r' && text[2] == 'o' && text[3]
            == 'd' {
            proof {
                assert(text@ =~= seq!['P', 'r', 'o', 'd']);
            }
            Token { span: Span { start, end }, kind: TokenKind::Keyword(TokenKeyword::Prod) }
        } else {
            proof {
                assert(keyword_of(text@) is None) by {
                    if text@ == seq!['D', 'i', 'f', 'f'] {
                        assert(text@.len() == 4 && text@[0] == 'D' && text@[1] == 'i' && text@[2]
                            == 'f' && text@[3] == 'f');
                        assert(false);
                    }
                    if text@ == seq!['I', 'n', 't'] {
                        assert(text@.len() == 3 && text@[0] == 'I' && text@[1] == 'n' && text@[2]
                            == 't');
                        assert(false);
                    }
                    if text@ == seq!['S', 'u', 'm'] {
                        assert(text@.len() == 3 && text@[0] == 'S' && text@[1] == 'u' && text@[2]
                            == 'm');
                        assert(false);
                    }
                    if text@ == seq!['P', 'r', 'o', 'd'] {
                        assert(text@.len() == 4 && text@[0] == 'P' && text@[1] == 'r' && text@[2]
                            == 'o' && text@[3] == 'd');
                        assert(false);
                    }
                }
            }
            Token { span: Span { start, end }, kind: TokenKind::Symbol(text) }
        }
    }
}

} // verus!
