//! Lexer and parser of the arithmetic language: `expr ::= true | false | zero
//! | succ expr | pred expr | iszero expr | if expr then expr [else expr]`.
//! Parentheses may be written for readability; they are dropped.
use vstd::prelude::*;

use crate::scan::{
    chars_of, find_word, in_bounds, lemma_scan_in_bounds, lexemes, lookup, scan, table_view,
    word_string, Lexeme,
};
use crate::tyarith::Term;

verus! {

/// A token of the arithmetic language.
#[derive(Clone, Copy, Debug, PartialEq, Eq, Structural)]
pub enum Token {
    True,
    False,
    Zero,
    IsZero,
    Succ,
    Pred,
    If,
    Then,
    Else,
    LParen,
    RParen,
}

/// The reserved words and their tokens.
pub open spec fn keyword_table() -> Seq<(Seq<char>, Token)> {
    seq![
        ("if"@, Token::If),
        ("else"@, Token::Else),
        ("zero"@, Token::Zero),
        ("iszero"@, Token::IsZero),
        ("true"@, Token::True),
        ("false"@, Token::False),
        ("succ"@, Token::Succ),
        ("pred"@, Token::Pred),
        ("then"@, Token::Then),
    ]
}

/// The reserved words and their tokens.
pub fn get_keywords() -> (r: Vec<(String, Token)>)
    ensures
        table_view(r@) == keyword_table(),
{
    let mut result: Vec<(String, Token)> = Vec::new();
    result.push(("if".to_owned(), Token::If));
    result.push(("else".to_owned(), Token::Else));
    result.push(("zero".to_owned(), Token::Zero));
    result.push(("iszero".to_owned(), Token::IsZero));
    result.push(("true".to_owned(), Token::True));
    result.push(("false".to_owned(), Token::False));
    result.push(("succ".to_owned(), Token::Succ));
    result.push(("pred".to_owned(), Token::Pred));
    result.push(("then".to_owned(), Token::Then));
    assert(table_view(result@) =~= keyword_table());
    result
}

/// The lexeme `l` of `cs` is a reserved word or a parenthesis.
pub open spec fn lexeme_ok(cs: Seq<char>, l: Lexeme) -> bool {
    match l {
        Lexeme::Word(a, b) => lookup(keyword_table(), cs.subrange(a as int, b as int)) is Some,
        Lexeme::Symbol(p) => cs[p as int] == '(' || cs[p as int] == ')',
        Lexeme::Digits(_, _) => false,
    }
}

/// What a lexeme contributes: a reserved word its token, anything else nothing.
pub open spec fn lexeme_tokens(cs: Seq<char>, l: Lexeme) -> Seq<Token> {
    match l {
        Lexeme::Word(a, b) => match lookup(keyword_table(), cs.subrange(a as int, b as int)) {
            Some(t) => seq![t],
            None => seq![],
        },
        _ => seq![],
    }
}

/// The tokens of the lexemes `ls` of `cs`.
pub open spec fn tokens_of(cs: Seq<char>, ls: Seq<Lexeme>) -> Seq<Token>
    decreases ls.len(),
{
    if ls.len() == 0 {
        seq![]
    } else {
        tokens_of(cs, ls.drop_last()) + lexeme_tokens(cs, ls.last())
    }
}

/// Every lexeme of `cs` is a reserved word or a parenthesis.
pub open spec fn lexable(cs: Seq<char>) -> bool {
    forall|i: int| 0 <= i < lexemes(cs).len() ==> lexeme_ok(cs, #[trigger] lexemes(cs)[i])
}

/// Turns source text into tokens.
pub struct Lexer {
    input: String,
    pub result: Vec<Token>,
}

impl Lexer {
    /// The tokens produced so far.
    pub closed spec fn tokens(&self) -> Seq<Token> {
        self.result@
    }

    /// The text not yet tokenized.
    pub closed spec fn pending(&self) -> Seq<char> {
        self.input@
    }

    /// A lexer for `input`, with no tokens yet.
    pub fn new(input: &str) -> (r: Lexer)
        ensures
            r.pending() == input@,
            r.tokens() == Seq::<Token>::empty(),
    {
        Lexer { input: input.to_owned(), result: Vec::new() }
    }

    /// Appends the tokens of the pending text to `result` and returns `true`; or, where
    /// some lexeme is neither a reserved word nor a parenthesis, changes nothing and
    /// returns `false`.
    pub fn lex_input(&mut self) -> (r: bool)
        ensures
            r == lexable(old(self).pending()),
            r ==> final(self).pending() == Seq::<char>::empty(),
            r ==> final(self).tokens() == old(self).tokens() + tokens_of(
                old(self).pending(),
                lexemes(old(self).pending()),
            ),
            !r ==> final(self).pending() == old(self).pending() && final(self).tokens() == old(
                self,
            ).tokens(),
    {
        let cs = chars_of(self.input.as_str());
        let ls = scan(&cs);
        let table = get_keywords();
        proof {
            lemma_scan_in_bounds(cs@, 0);
        }
        let mut out: Vec<Token> = Vec::new();
        let mut i: usize = 0;
        while i < ls.len()
            invariant
                cs@ == self.input@,
                ls@ == lexemes(cs@),
                table_view(table@) == keyword_table(),
                forall|k: int|
                    0 <= k < lexemes(cs@).len() ==> in_bounds(cs@, #[trigger] lexemes(cs@)[k]),
                i <= ls@.len(),
                forall|k: int| 0 <= k < i ==> lexeme_ok(cs@, #[trigger] ls@[k]),
                out@ == tokens_of(cs@, ls@.take(i as int)),
            decreases ls@.len() - i,
        {
            let l = ls[i];
            assert(in_bounds(cs@, lexemes(cs@)[i as int]));
            assert(ls@.take(i + 1).drop_last() =~= ls@.take(i as int));
            match l {
                Lexeme::Word(a, b) => {
                    let w = word_string(self.input.as_str(), a, b);
                    match find_word(&table, &w) {
                        Some(k) => {
                            out.push(table[k].1);
                            assert(out@ =~= tokens_of(cs@, ls@.take(i + 1)));
                        },
                        None => {
                            return false;
                        },
                    }
                },
                Lexeme::Symbol(p) => {
                    let c = cs[p];
                    if c == '(' || c == ')' {
                        assert(out@ =~= tokens_of(cs@, ls@.take(i + 1)));
                    } else {
                        return false;
                    }
                },
                Lexeme::Digits(_, _) => {
                    return false;
                },
            }
            i = i + 1;
        }
        assert(ls@.take(ls@.len() as int) =~= ls@);
        self.result.append(&mut out);
        self.input = String::new();
        true
    }
}

/// The tokens that spell `t`: `succ t`, `if c then a else b`, and so on.
pub open spec fn render(t: Term) -> Seq<Token>
    decreases t,
{
    match t {
        Term::True => seq![Token::True],
        Term::False => seq![Token::False],
        Term::Zero => seq![Token::Zero],
        Term::Succ(a) => seq![Token::Succ] + render(*a),
        Term::Pred(a) => seq![Token::Pred] + render(*a),
        Term::IsZero(a) => seq![Token::IsZero] + render(*a),
        Term::If(c, a, b) => seq![Token::If] + render(*c) + seq![Token::Then] + render(*a) + match b {
            Some(e) => seq![Token::Else] + render(*e),
            None => Seq::<Token>::empty(),
        },
    }
}

/// The token after position `e` of `ts`, if any.
pub open spec fn next_of(ts: Seq<Token>, e: int) -> Option<Token> {
    if 0 <= e < ts.len() {
        Some(ts[e])
    } else {
        None
    }
}

/// The rendering of `t`, followed by the token `next`, reads back as `t`: no conditional
/// without an else-branch is followed by an `else`, which would be taken as its own.
pub open spec fn reads_back(t: Term, next: Option<Token>) -> bool
    decreases t,
{
    match t {
        Term::Succ(a) => reads_back(*a, next),
        Term::Pred(a) => reads_back(*a, next),
        Term::IsZero(a) => reads_back(*a, next),
        Term::If(c, a, b) => reads_back(*c, Some(Token::Then)) && match b {
            Some(e) => reads_back(*a, Some(Token::Else)) && reads_back(*e, next),
            None => next != Some(Token::Else) && reads_back(*a, next),
        },
        _ => true,
    }
}

/// The first token of the rendering of `t`.
pub open spec fn head_token(t: Term) -> Token {
    match t {
        Term::True => Token::True,
        Term::False => Token::False,
        Term::Zero => Token::Zero,
        Term::Succ(_) => Token::Succ,
        Term::Pred(_) => Token::Pred,
        Term::IsZero(_) => Token::IsZero,
        Term::If(_, _, _) => Token::If,
    }
}

proof fn lemma_render_head(t: Term)
    ensures
        render(t).len() >= 1,
        render(t)[0] == head_token(t),
{
}

/// The layout of the rendering of a conditional at `p` of `tk`.
proof fn lemma_if_render(tk: Seq<Token>, p: int, e: int, t: Term)
    requires
        0 <= p <= e <= tk.len(),
        tk.subrange(p, e) == render(t),
        t is If,
    ensures
        tk[p] == Token::If,
        p + 1 + render(*t->If_0).len() < e,
        tk.subrange(p + 1, p + 1 + render(*t->If_0).len()) == render(*t->If_0),
        tk[p + 1 + render(*t->If_0).len()] == Token::Then,
        p + 2 + render(*t->If_0).len() + render(*t->If_1).len() <= e,
        tk.subrange(
            p + 2 + render(*t->If_0).len(),
            p + 2 + render(*t->If_0).len() + render(*t->If_1).len(),
        ) == render(*t->If_1),
        t->If_2 is None ==> p + 2 + render(*t->If_0).len() + render(*t->If_1).len() == e,
        t->If_2 is Some ==> {
            let q2 = p + 2 + render(*t->If_0).len() + render(*t->If_1).len();
            &&& q2 < e
            &&& tk[q2] == Token::Else
            &&& tk.subrange(q2 + 1, e) == render(*t->If_2->Some_0)
        },
{
    lemma_render_head(t);
    let rs = render(t);
    let lc: int = render(*t->If_0).len() as int;
    let la: int = render(*t->If_1).len() as int;
    lemma_render_head(*t->If_0);
    lemma_render_head(*t->If_1);
    assert(rs[0] == tk[p]);
    assert(rs.subrange(1, 1 + lc) =~= render(*t->If_0));
    assert(tk.subrange(p + 1, p + 1 + lc) =~= rs.subrange(1, 1 + lc));
    assert(rs[1 + lc] == tk[p + 1 + lc]);
    assert(rs.subrange(2 + lc, 2 + lc + la) =~= render(*t->If_1));
    assert(tk.subrange(p + 2 + lc, p + 2 + lc + la) =~= rs.subrange(2 + lc, 2 + lc + la));
    if let Some(x) = t->If_2 {
        assert(rs[2 + lc + la] == tk[p + 2 + lc + la]);
        assert(rs.subrange(3 + lc + la, rs.len() as int) =~= render(*x));
        assert(tk.subrange(p + 3 + lc + la, e) =~= rs.subrange(3 + lc + la, rs.len() as int));
    }
}

/// Parses a token sequence into a term.
pub struct Parser {
    token: Vec<Token>,
    pos: usize,
    pub result: Option<Term>,
}

impl Parser {
    /// The tokens being parsed.
    pub closed spec fn tokens(&self) -> Seq<Token> {
        self.token@
    }

    /// The position of the next token.
    pub closed spec fn position(&self) -> nat {
        self.pos as nat
    }

    /// How many tokens are left.
    pub closed spec fn remaining(&self) -> nat {
        if self.pos <= self.token@.len() {
            (self.token@.len() - self.pos) as nat
        } else {
            0
        }
    }

    /// A parser positioned on the first of `input`.
    pub fn new(input: Vec<Token>) -> (r: Parser)
        ensures
            r.tokens() == input@,
            r.position() == 0,
    {
        Parser { token: input, pos: 0, result: None }
    }

    fn current(&self) -> (r: Option<Token>)
        ensures
            r == (if self.pos < self.token@.len() {
                Some(self.token@[self.pos as int])
            } else {
                None::<Token>
            }),
    {
        if self.pos < self.token.len() {
            Some(self.token[self.pos])
        } else {
            None
        }
    }

    /// Moves past the current token, and returns it; `None` at the end.
    pub fn next_token(&mut self) -> (r: Option<Token>)
        ensures
            final(self).tokens() == old(self).tokens(),
            r == (if old(self).position() < old(self).tokens().len() {
                Some(old(self).tokens()[old(self).position() as int])
            } else {
                None::<Token>
            }),
            final(self).position() == (if old(self).position() < old(self).tokens().len() {
                old(self).position() + 1
            } else {
                old(self).position() + 0
            }),
    {
        let r = self.current();
        if self.pos < self.token.len() {
            self.pos = self.pos + 1;
        }
        r
    }

    /// Parses one expression from the current position. When the tokens from there render
    /// a term that reads back, parsing returns it; `None` when they start no expression.
    pub fn expr(&mut self) -> (r: Option<Term>)
        ensures
            final(self).tokens() == old(self).tokens(),
            old(self).position() <= final(self).position(),
            final(self).remaining() <= old(self).remaining(),
            r is Some ==> final(self).remaining() < old(self).remaining(),
            r matches Some(t) ==> final(self).position() <= final(self).tokens().len()
                && final(self).tokens().subrange(
                old(self).position() as int,
                final(self).position() as int,
            ) == render(t),
            forall|e: int, t: Term|
                #![trigger old(self).tokens().subrange(old(self).position() as int, e), render(t)]
                old(self).position() <= e <= old(self).tokens().len() && old(self).tokens().subrange(
                    old(self).position() as int,
                    e,
                ) == render(t) && reads_back(t, next_of(old(self).tokens(), e)) ==> r == Some(t)
                    && final(self).position() == e,
        decreases old(self).remaining(), 1nat,
    {
        let ghost p0 = self.pos;
        let ghost tk = self.token@;
        let tok = match self.current() {
            Some(tok) => tok,
            None => {
                proof {
                    assert forall|e: int, t: Term|
                        p0 <= e <= tk.len() implies tk.subrange(p0 as int, e) != render(t) by {
                        lemma_render_head(t);
                        if tk.subrange(p0 as int, e) == render(t) {
                            assert(tk.subrange(p0 as int, e)[0] == tk[p0 as int]);
                        }
                    }
                }
                return None;
            },
        };
        match tok {
            Token::False => {
                self.next_token();
                assert(self.token@.subrange(self.pos - 1, self.pos as int) =~= seq![Token::False]);
                proof {
                    assert forall|e: int, t: Term|
                        p0 <= e <= tk.len() && tk.subrange(p0 as int, e) == render(t) implies t
                        == Term::False && e == p0 + 1 by {
                        lemma_render_head(t);
                        assert(tk.subrange(p0 as int, e)[0] == tk[p0 as int]);
                    }
                }
                Some(Term::False)
            },
            Token::True => {
                self.next_token();
                assert(self.token@.subrange(self.pos - 1, self.pos as int) =~= seq![Token::True]);
                proof {
                    assert forall|e: int, t: Term|
                        p0 <= e <= tk.len() && tk.subrange(p0 as int, e) == render(t) implies t
                        == Term::True && e == p0 + 1 by {
                        lemma_render_head(t);
                        assert(tk.subrange(p0 as int, e)[0] == tk[p0 as int]);
                    }
                }
                Some(Term::True)
            },
            Token::Zero => {
                self.next_token();
                assert(self.token@.subrange(self.pos - 1, self.pos as int) =~= seq![Token::Zero]);
                proof {
                    assert forall|e: int, t: Term|
                        p0 <= e <= tk.len() && tk.subrange(p0 as int, e) == render(t) implies t
                        == Term::Zero && e == p0 + 1 by {
                        lemma_render_head(t);
                        assert(tk.subrange(p0 as int, e)[0] == tk[p0 as int]);
                    }
                }
                Some(Term::Zero)
            },
            Token::Succ => {
                self.next_token();
                let ghost p1 = self.pos;
                let inner = self.expr();
                proof {
                    assert forall|e: int, t: Term|
                        p0 <= e <= tk.len() && tk.subrange(p0 as int, e) == render(t) && reads_back(
                            t,
                            next_of(tk, e),
                        ) implies t is Succ && inner == Some(*t->Succ_0) && self.pos == e by {
                        lemma_render_head(t);
                        assert(tk.subrange(p0 as int, e)[0] == tk[p0 as int]);
                        assert(tk.subrange(p1 as int, e) =~= render(t).skip(1));
                        assert(render(t).skip(1) =~= render(*t->Succ_0));
                    }
                }
                match inner {
                    Some(t) => {
                        assert(self.token@.subrange(p1 - 1, self.pos as int) =~= seq![Token::Succ]
                            + self.token@.subrange(p1 as int, self.pos as int));
                        Some(Term::Succ(Box::new(t)))
                    },
                    None => None,
                }
            },
            Token::Pred => {
                self.next_token();
                let ghost p1 = self.pos;
                let inner = self.expr();
                proof {
                    assert forall|e: int, t: Term|
                        p0 <= e <= tk.len() && tk.subrange(p0 as int, e) == render(t) && reads_back(
                            t,
                            next_of(tk, e),
                        ) implies t is Pred && inner == Some(*t->Pred_0) && self.pos == e by {
                        lemma_render_head(t);
                        assert(tk.subrange(p0 as int, e)[0] == tk[p0 as int]);
                        assert(tk.subrange(p1 as int, e) =~= render(t).skip(1));
                        assert(render(t).skip(1) =~= render(*t->Pred_0));
                    }
                }
                match inner {
                    Some(t) => {
                        assert(self.token@.subrange(p1 - 1, self.pos as int) =~= seq![Token::Pred]
                            + self.token@.subrange(p1 as int, self.pos as int));
                        Some(Term::Pred(Box::new(t)))
                    },
                    None => None,
                }
            },
            Token::IsZero => {
                self.next_token();
                let ghost p1 = self.pos;
                let inner = self.expr();
                proof {
                    assert forall|e: int, t: Term|
                        p0 <= e <= tk.len() && tk.subrange(p0 as int, e) == render(t) && reads_back(
                            t,
                            next_of(tk, e),
                        ) implies t is IsZero && inner == Some(*t->IsZero_0) && self.pos == e by {
                        lemma_render_head(t);
                        assert(tk.subrange(p0 as int, e)[0] == tk[p0 as int]);
                        assert(tk.subrange(p1 as int, e) =~= render(t).skip(1));
                        assert(render(t).skip(1) =~= render(*t->IsZero_0));
                    }
                }
                match inner {
                    Some(t) => {
                        assert(self.token@.subrange(p1 - 1, self.pos as int) =~= seq![Token::IsZero]
                            + self.token@.subrange(p1 as int, self.pos as int));
                        Some(Term::IsZero(Box::new(t)))
                    },
                    None => None,
                }
            },
            Token::If => {
                let r = self.parse_if_then_expr();
                proof {
                    assert forall|e: int, t: Term|
                        p0 <= e <= tk.len() && tk.subrange(p0 as int, e) == render(t) && reads_back(
                            t,
                            next_of(tk, e),
                        ) implies r == Some(t) && self.pos == e by {
                        lemma_render_head(t);
                        assert(tk.subrange(p0 as int, e)[0] == tk[p0 as int]);
                        assert(t is If);
                    }
                }
                r
            },
            _ => {
                proof {
                    assert forall|e: int, t: Term|
                        p0 <= e <= tk.len() implies tk.subrange(p0 as int, e) != render(t) by {
                        lemma_render_head(t);
                        if tk.subrange(p0 as int, e) == render(t) {
                            assert(tk.subrange(p0 as int, e)[0] == tk[p0 as int]);
                        }
                    }
                }
                None
            },
        }
    }

    /// Parses `if expr then expr [else expr]` from the current position, which must
    /// hold the `if`. When the tokens from there render a conditional that reads back,
    /// parsing returns it.
    pub fn parse_if_then_expr(&mut self) -> (r: Option<Term>)
        ensures
            final(self).tokens() == old(self).tokens(),
            old(self).position() <= final(self).position(),
            final(self).remaining() <= old(self).remaining(),
            r is Some ==> final(self).remaining() < old(self).remaining(),
            r matches Some(t) ==> final(self).position() <= final(self).tokens().len()
                && final(self).tokens().subrange(
                old(self).position() as int,
                final(self).position() as int,
            ) == render(t),
            forall|e: int, t: Term|
                #![trigger old(self).tokens().subrange(old(self).position() as int, e), render(t)]
                old(self).position() <= e <= old(self).tokens().len() && old(self).tokens().subrange(
                    old(self).position() as int,
                    e,
                ) == render(t) && reads_back(t, next_of(old(self).tokens(), e)) && t is If ==> r
                    == Some(t) && final(self).position() == e,
        decreases old(self).remaining(), 0nat,
    {
        let ghost tk = self.token@;
        match self.current() {
            Some(Token::If) => {},
            _ => {
                proof {
                    assert forall|e: int, t: Term|
                        self.pos <= e <= tk.len() && tk.subrange(self.pos as int, e) == render(t)
                            implies !(t is If) by {
                        lemma_render_head(t);
                        if t is If {
                            assert(tk.subrange(self.pos as int, e)[0] == tk[self.pos as int]);
                        }
                    }
                }
                return None;
            },
        }
        let ghost p0 = self.pos;
        self.next_token();
        let ghost p1 = self.pos;
        let cond = self.expr();
        let ghost q1 = self.pos;
        proof {
            assert forall|e: int, t: Term|
                p0 <= e <= tk.len() && tk.subrange(p0 as int, e) == render(t) && reads_back(
                    t,
                    next_of(tk, e),
                ) && t is If implies cond == Some(*t->If_0) && q1 == p0 + 1 + render(
                *t->If_0,
            ).len() && tk[q1 as int] == Token::Then by {
                lemma_if_render(tk, p0 as int, e, t);
                let q = p0 + 1 + render(*t->If_0).len();
                assert(next_of(tk, q) == Some(Token::Then));
                assert(tk.subrange(p1 as int, q) == render(*t->If_0));
            }
        }
        let cond = match cond {
            Some(t) => t,
            None => {
                return None;
            },
        };
        match self.current() {
            Some(Token::Then) => {},
            _ => {
                return None;
            },
        }
        self.next_token();
        let ghost p2 = self.pos;
        let then_expr = self.expr();
        let ghost q2 = self.pos;
        proof {
            assert forall|e: int, t: Term|
                p0 <= e <= tk.len() && tk.subrange(p0 as int, e) == render(t) && reads_back(
                    t,
                    next_of(tk, e),
                ) && t is If implies then_expr == Some(*t->If_1) && q2 == p0 + 2 + render(
                *t->If_0,
            ).len() + render(*t->If_1).len() by {
                lemma_if_render(tk, p0 as int, e, t);
                let q = p0 + 2 + render(*t->If_0).len() + render(*t->If_1).len();
                if t->If_2 is Some {
                    assert(next_of(tk, q) == Some(Token::Else));
                }
                assert(tk.subrange(p2 as int, q) == render(*t->If_1));
            }
        }
        let then_expr = match then_expr {
            Some(t) => t,
            None => {
                return None;
            },
        };
        let ghost head = seq![Token::If] + self.token@.subrange(p1 as int, q1 as int) + seq![
            Token::Then,
        ] + self.token@.subrange(p2 as int, q2 as int);
        assert(self.token@.subrange(p0 as int, q2 as int) =~= head);
        match self.current() {
            Some(Token::Else) => {
                self.next_token();
                let ghost p3 = self.pos;
                let else_expr = self.expr();
                proof {
                    assert forall|e: int, t: Term|
                        p0 <= e <= tk.len() && tk.subrange(p0 as int, e) == render(t) && reads_back(
                            t,
                            next_of(tk, e),
                        ) && t is If implies t->If_2 is Some && else_expr == Some(
                        *t->If_2->Some_0,
                    ) && self.pos == e by {
                        lemma_if_render(tk, p0 as int, e, t);
                        if t->If_2 is None {
                            assert(next_of(tk, e) == Some(Token::Else));
                        }
                        assert(tk.subrange(p3 as int, e) == render(*t->If_2->Some_0));
                    }
                }
                match else_expr {
                    Some(else_expr) => {
                        assert(self.token@.subrange(p0 as int, self.pos as int) =~= head + (seq![
                            Token::Else,
                        ] + self.token@.subrange(p3 as int, self.pos as int)));
                        Some(
                            Term::If(
                                Box::new(cond),
                                Box::new(then_expr),
                                Some(Box::new(else_expr)),
                            ),
                        )
                    },
                    None => None,
                }
            },
            _ => {
                proof {
                    assert forall|e: int, t: Term|
                        p0 <= e <= tk.len() && tk.subrange(p0 as int, e) == render(t) && reads_back(
                            t,
                            next_of(tk, e),
                        ) && t is If implies t->If_2 is None && q2 == e by {
                        lemma_if_render(tk, p0 as int, e, t);
                    }
                }
                assert(head =~= head + Seq::<Token>::empty());
                Some(Term::If(Box::new(cond), Box::new(then_expr), None))
            },
        }
    }
}

} // verus!
