//! Tokens, lexer and parser of the simply typed lambda calculus with booleans:
//! `term ::= λ x : Bool . term | atom atom*`, `atom ::= ( term ) | x | true | false
//! | if atom then atom else atom`.
use vstd::prelude::*;

use crate::scan::{
    chars_of, find_word, in_bounds, lemma_scan_in_bounds, lexemes, lookup, scan, table_view,
    word_string, Lexeme,
};
use crate::names::fresh_name;
use crate::simplebool::{names_of, well_scoped, Context, Term, Type};

verus! {

/// A token of the simply typed lambda calculus with booleans.
#[derive(Debug, PartialEq)]
pub enum Token {
    Lambda,
    Var(String),
    True,
    False,
    Bool,
    If,
    Then,
    Else,
    Colon,
    Dot,
    LParen,
    RParen,
}

impl Clone for Token {
    fn clone(&self) -> (r: Self)
        ensures
            r == *self,
    {
        match self {
            Token::Lambda => Token::Lambda,
            Token::Var(s) => Token::Var(s.clone()),
            Token::True => Token::True,
            Token::False => Token::False,
            Token::Bool => Token::Bool,
            Token::If => Token::If,
            Token::Then => Token::Then,
            Token::Else => Token::Else,
            Token::Colon => Token::Colon,
            Token::Dot => Token::Dot,
            Token::LParen => Token::LParen,
            Token::RParen => Token::RParen,
        }
    }
}

/// The reserved words and their tokens.
pub open spec fn keyword_table() -> Seq<(Seq<char>, Token)> {
    seq![
        ("if"@, Token::If),
        ("then"@, Token::Then),
        ("else"@, Token::Else),
        ("true"@, Token::True),
        ("false"@, Token::False),
        ("Bool"@, Token::Bool),
    ]
}

/// The reserved words and their tokens.
fn get_keywords() -> (r: Vec<(String, Token)>)
    ensures
        table_view(r@) == keyword_table(),
{
    let mut result: Vec<(String, Token)> = Vec::new();
    result.push(("if".to_owned(), Token::If));
    result.push(("then".to_owned(), Token::Then));
    result.push(("else".to_owned(), Token::Else));
    result.push(("true".to_owned(), Token::True));
    result.push(("false".to_owned(), Token::False));
    result.push(("Bool".to_owned(), Token::Bool));
    assert(table_view(result@) =~= keyword_table());
    result
}

/// The token a punctuation character stands for.
pub open spec fn symbol_token(c: char) -> Option<Token> {
    if c == 'λ' {
        Some(Token::Lambda)
    } else if c == '.' {
        Some(Token::Dot)
    } else if c == '(' {
        Some(Token::LParen)
    } else if c == ')' {
        Some(Token::RParen)
    } else if c == ':' {
        Some(Token::Colon)
    } else {
        None
    }
}

/// The lexeme `l` of `cs` has a token: every word does, a number never does.
pub open spec fn lexeme_ok(cs: Seq<char>, l: Lexeme) -> bool {
    match l {
        Lexeme::Word(_, _) => true,
        Lexeme::Digits(_, _) => false,
        Lexeme::Symbol(p) => symbol_token(cs[p as int]) is Some,
    }
}

/// `t` is the token for the lexeme `l` of `cs`: a reserved word, else a variable;
/// or a punctuation character.
pub open spec fn token_of(cs: Seq<char>, l: Lexeme, t: Token) -> bool {
    match l {
        Lexeme::Word(a, b) => match lookup(keyword_table(), cs.subrange(a as int, b as int)) {
            Some(k) => t == k,
            None => t matches Token::Var(s) && s@ == cs.subrange(a as int, b as int),
        },
        Lexeme::Digits(_, _) => false,
        Lexeme::Symbol(p) => symbol_token(cs[p as int]) == Some(t),
    }
}

/// Every lexeme of `cs` has a token.
pub open spec fn lexable(cs: Seq<char>) -> bool {
    forall|i: int| 0 <= i < lexemes(cs).len() ==> lexeme_ok(cs, #[trigger] lexemes(cs)[i])
}

/// `ts` are the tokens of `cs`, one for each lexeme.
pub open spec fn lexes(cs: Seq<char>, ts: Seq<Token>) -> bool {
    &&& ts.len() == lexemes(cs).len()
    &&& forall|i: int| 0 <= i < ts.len() ==> token_of(cs, #[trigger] lexemes(cs)[i], ts[i])
}

/// Turns source text into tokens.
pub struct Lexer {
    input: String,
    pub result: Vec<Token>,
}

impl Lexer {
    /// The tokens produced so far.
    pub closed spec fn tokens(&self) -> Seq<Token> {
        self.result@
    }

    /// The text not yet tokenized.
    pub closed spec fn pending(&self) -> Seq<char> {
        self.input@
    }

    /// A lexer for `input`, with no tokens yet.
    pub fn new(input: &str) -> (r: Lexer)
        ensures
            r.pending() == input@,
            r.tokens() == Seq::<Token>::empty(),
    {
        Lexer { input: input.to_owned(), result: Vec::new() }
    }

    /// Appends the tokens of the pending text to `result` and returns `true`; or, where
    /// some lexeme has no token, changes nothing and returns `false`.
    pub fn lex_input(&mut self) -> (r: bool)
        ensures
            r == lexable(old(self).pending()),
            r ==> final(self).pending() == Seq::<char>::empty(),
            r ==> exists|ts: Seq<Token>|
                final(self).tokens() == old(self).tokens() + ts && lexes(
                    old(self).pending(),
                    ts,
                ),
            !r ==> final(self).pending() == old(self).pending() && final(self).tokens() == old(
                self,
            ).tokens(),
    {
        let cs = chars_of(self.input.as_str());
        let ls = scan(&cs);
        let table = get_keywords();
        proof {
            lemma_scan_in_bounds(cs@, 0);
        }
        let mut out: Vec<Token> = Vec::new();
        let mut i: usize = 0;
        while i < ls.len()
            invariant
                cs@ == self.input@,
                ls@ == lexemes(cs@),
                table_view(table@) == keyword_table(),
                forall|k: int|
                    0 <= k < lexemes(cs@).len() ==> in_bounds(cs@, #[trigger] lexemes(cs@)[k]),
                i <= ls@.len(),
                out@.len() == i,
                forall|k: int| 0 <= k < i ==> lexeme_ok(cs@, #[trigger] ls@[k]),
                forall|k: int| 0 <= k < i ==> token_of(cs@, #[trigger] ls@[k], out@[k]),
            decreases ls@.len() - i,
        {
            let l = ls[i];
            assert(in_bounds(cs@, lexemes(cs@)[i as int]));
            match l {
                Lexeme::Word(a, b) => {
                    let w = word_string(self.input.as_str(), a, b);
                    match find_word(&table, &w) {
                        Some(k) => out.push(table[k].1.clone()),
                        None => out.push(Token::Var(w)),
                    }
                },
                Lexeme::Digits(_, _) => {
                    return false;
                },
                Lexeme::Symbol(p) => {
                    let c = cs[p];
                    if c == 'λ' {
                        out.push(Token::Lambda);
                    } else if c == '.' {
                        out.push(Token::Dot);
                    } else if c == '(' {
                        out.push(Token::LParen);
                    } else if c == ')' {
                        out.push(Token::RParen);
                    } else if c == ':' {
                        out.push(Token::Colon);
                    } else {
                        return false;
                    }
                },
            }
            i = i + 1;
        }
        let ghost ts = out@;
        self.result.append(&mut out);
        self.input = String::new();
        proof {
            assert(lexes(cs@, ts));
        }
        true
    }
}

/// `i` is the de Bruijn index of the innermost binder named `s` in `names`
/// (the written names of the binders in scope, innermost last).
pub open spec fn innermost(names: Seq<Seq<char>>, s: Seq<char>, i: int) -> bool {
    &&& 0 <= i < names.len()
    &&& names[names.len() - 1 - i] == s
    &&& forall|j: int| names.len() - 1 - i < j < names.len() ==> names[j] != s
}

/// The tokens `ts` spell the term `t` in the scope `scope`:
/// `λ x : Bool . term`, or an application.
pub open spec fn spells_term(ts: Seq<Token>, scope: Seq<(Seq<char>, Type)>, t: Term) -> bool
    decreases t, ts.len(), 3nat,
{
    spells_lambda(ts, scope, t) || spells_app(ts, scope, t)
}

/// `λ x : Bool . body`: the abstraction carries `x` made fresh against the scope and the
/// type `Bool`, and the body is spelled with `x` bound innermost.
pub open spec fn spells_lambda(ts: Seq<Token>, scope: Seq<(Seq<char>, Type)>, t: Term) -> bool
    decreases t, ts.len(), 0nat,
{
    &&& ts.len() >= 5
    &&& ts[0] == Token::Lambda
    &&& ts[1] is Var
    &&& ts[2] == Token::Colon
    &&& ts[3] == Token::Bool
    &&& ts[4] == Token::Dot
    &&& t is TmAbs
    &&& t->TmAbs_0@ == fresh_name(names_of(scope), ts[1]->Var_0@)
    &&& t->TmAbs_1 == Type::TyBool
    &&& spells_term(ts.skip(5), scope.push((ts[1]->Var_0@, Type::TyBool)), *t->TmAbs_2)
}

/// An atom, or an application `f a` of an application or atom `f` to an atom `a`.
pub open spec fn spells_app(ts: Seq<Token>, scope: Seq<(Seq<char>, Type)>, t: Term) -> bool
    decreases t, ts.len(), 2nat,
{
    ||| spells_atom(ts, scope, t)
    ||| t is TmApp && exists|k: int|
        #![trigger ts.take(k)]
        0 < k < ts.len() && spells_app(ts.take(k), scope, *t->TmApp_0) && spells_atom(
            ts.skip(k),
            scope,
            *t->TmApp_1,
        )
}

/// `( term )`; a variable, which stands for the innermost binder of its name and records
/// the depth of the scope; `true`; `false`; or a conditional.
pub open spec fn spells_atom(ts: Seq<Token>, scope: Seq<(Seq<char>, Type)>, t: Term) -> bool
    decreases t, ts.len(), 1nat,
{
    ||| ts.len() >= 2 && ts[0] == Token::LParen && ts.last() == Token::RParen && spells_term(
        ts.subrange(1, ts.len() - 1),
        scope,
        t,
    )
    ||| ts.len() == 1 && ts[0] is Var && t is TmVar && innermost(
        names_of(scope),
        ts[0]->Var_0@,
        t->TmVar_0 as int,
    ) && t->TmVar_1 == scope.len()
    ||| ts =~= seq![Token::True] && t == Term::TmTrue
    ||| ts =~= seq![Token::False] && t == Term::TmFalse
    ||| spells_if(ts, scope, t)
}

/// `if c then a else e`, each part an atom.
pub open spec fn spells_if(ts: Seq<Token>, scope: Seq<(Seq<char>, Type)>, t: Term) -> bool
    decreases t, ts.len(), 0nat,
{
    &&& ts.len() >= 1
    &&& ts[0] == Token::If
    &&& t is TmIf
    &&& exists|k1: int, k2: int|
        #![trigger ts.subrange(1, k1), ts.subrange(k1 + 1, k2)]
        {
            &&& 1 < k1 < k2 < ts.len()
            &&& ts[k1] == Token::Then
            &&& ts[k2] == Token::Else
            &&& spells_atom(ts.subrange(1, k1), scope, *t->TmIf_0)
            &&& spells_atom(ts.subrange(k1 + 1, k2), scope, *t->TmIf_1)
            &&& spells_atom(ts.skip(k2 + 1), scope, *t->TmIf_2)
        }
}

/// The tokens an atom can start with.
pub open spec fn atom_start(tok: Token) -> bool {
    tok == Token::LParen || tok is Var || tok == Token::True || tok == Token::False || tok
        == Token::If
}

/// Where the parts of a conditional spelled by `ts` end: the `then` and the `else`.
pub open spec fn if_split(ts: Seq<Token>, names: Seq<(Seq<char>, Type)>, t: Term) -> (int, int) {
    choose|k1: int, k2: int|
        #![trigger ts.subrange(1, k1), ts.subrange(k1 + 1, k2)]
        {
            &&& 1 < k1 < k2 < ts.len()
            &&& ts[k1] == Token::Then
            &&& ts[k2] == Token::Else
            &&& spells_atom(ts.subrange(1, k1), names, *t->TmIf_0)
            &&& spells_atom(ts.subrange(k1 + 1, k2), names, *t->TmIf_1)
            &&& spells_atom(ts.skip(k2 + 1), names, *t->TmIf_2)
        }
}

/// The parts of a conditional spelled by `ts`.
proof fn lemma_if_split(tk: Seq<Token>, names: Seq<(Seq<char>, Type)>, p: int, e: int, t: Term)
    requires
        0 <= p <= e <= tk.len(),
        spells_if(tk.subrange(p, e), names, t),
    ensures
        p + 1 < p + if_split(tk.subrange(p, e), names, t).0,
        p + if_split(tk.subrange(p, e), names, t).0 < p + if_split(tk.subrange(p, e), names, t).1,
        p + if_split(tk.subrange(p, e), names, t).1 + 1 <= e,
        tk[p] == Token::If,
        tk[p + if_split(tk.subrange(p, e), names, t).0] == Token::Then,
        tk[p + if_split(tk.subrange(p, e), names, t).1] == Token::Else,
        spells_atom(
            tk.subrange(p + 1, p + if_split(tk.subrange(p, e), names, t).0),
            names,
            *t->TmIf_0,
        ),
        spells_atom(
            tk.subrange(
                p + if_split(tk.subrange(p, e), names, t).0 + 1,
                p + if_split(tk.subrange(p, e), names, t).1,
            ),
            names,
            *t->TmIf_1,
        ),
        spells_atom(
            tk.subrange(p + if_split(tk.subrange(p, e), names, t).1 + 1, e),
            names,
            *t->TmIf_2,
        ),
{
    let ts = tk.subrange(p, e);
    let (k1, k2) = if_split(ts, names, t);
    assert(ts[0] == tk[p]);
    assert(ts[k1] == tk[p + k1]);
    assert(ts[k2] == tk[p + k2]);
    assert(ts.subrange(1, k1) =~= tk.subrange(p + 1, p + k1));
    assert(ts.subrange(k1 + 1, k2) =~= tk.subrange(p + k1 + 1, p + k2));
    assert(ts.skip(k2 + 1) =~= tk.subrange(p + k2 + 1, e));
}

/// A term may end at position `q` of `ts`: at the end, or before a `)`.
pub open spec fn may_end(ts: Seq<Token>, q: int) -> bool {
    q == ts.len() || (0 <= q < ts.len() && ts[q] == Token::RParen)
}

/// `ts` is a run of zero or more atoms in the scope `names`.
pub open spec fn atoms(ts: Seq<Token>, names: Seq<(Seq<char>, Type)>) -> bool
    decreases ts.len(),
{
    ts.len() == 0 || exists|k: int|
        #![trigger ts.take(k)]
        0 < k <= ts.len() && (exists|a: Term| #[trigger] spells_atom(ts.take(k), names, a))
            && atoms(ts.skip(k), names)
}

/// An atom starts with `(` or a variable.
proof fn lemma_atom_start(ts: Seq<Token>, names: Seq<(Seq<char>, Type)>, a: Term)
    requires
        spells_atom(ts, names, a),
    ensures
        ts.len() >= 1,
        atom_start(ts[0]),
{
}

/// A run of atoms followed by one more atom is a run of atoms.
proof fn lemma_atoms_append(xs: Seq<Token>, ys: Seq<Token>, names: Seq<(Seq<char>, Type)>, a: Term)
    requires
        atoms(xs, names),
        spells_atom(ys, names, a),
    ensures
        atoms(xs + ys, names),
    decreases xs.len(),
{
    lemma_atom_start(ys, names, a);
    let zs = xs + ys;
    if xs.len() == 0 {
        assert(zs.take(ys.len() as int) =~= ys);
        assert(zs.skip(ys.len() as int) =~= Seq::<Token>::empty());
        assert(spells_atom(zs.take(ys.len() as int), names, a));
        assert(atoms(zs.skip(ys.len() as int), names));
    } else {
        let k = choose|k: int|
            #![trigger xs.take(k)]
            0 < k <= xs.len() && (exists|b: Term| #[trigger] spells_atom(xs.take(k), names, b))
                && atoms(xs.skip(k), names);
        let b = choose|b: Term| #[trigger] spells_atom(xs.take(k), names, b);
        lemma_atoms_append(xs.skip(k), ys, names, a);
        assert(zs.take(k) =~= xs.take(k));
        assert(zs.skip(k) =~= xs.skip(k) + ys);
        assert(spells_atom(zs.take(k), names, b));
    }
}

/// An application is a non-empty run of atoms.
proof fn lemma_app_atoms(ts: Seq<Token>, names: Seq<(Seq<char>, Type)>, t: Term)
    requires
        spells_app(ts, names, t),
    ensures
        ts.len() >= 1,
        atom_start(ts[0]),
        atoms(ts, names),
    decreases t,
{
    if spells_atom(ts, names, t) {
        lemma_atom_start(ts, names, t);
        assert(ts.take(ts.len() as int) =~= ts);
        assert(ts.skip(ts.len() as int) =~= Seq::<Token>::empty());
        assert(atoms(ts.skip(ts.len() as int), names));
    } else {
        let k = choose|k: int|
            #![trigger ts.take(k)]
            0 < k < ts.len() && spells_app(ts.take(k), names, *t->TmApp_0) && spells_atom(
                ts.skip(k),
                names,
                *t->TmApp_1,
            );
        lemma_app_atoms(ts.take(k), names, *t->TmApp_0);
        lemma_atoms_append(ts.take(k), ts.skip(k), names, *t->TmApp_1);
        assert(ts.take(k) + ts.skip(k) =~= ts);
    }
}

/// The first atom of a non-empty run of atoms, and where it ends.
proof fn first_atom(ts: Seq<Token>, names: Seq<(Seq<char>, Type)>) -> (res: (int, Term))
    requires
        atoms(ts, names),
        ts.len() > 0,
    ensures
        0 < res.0 <= ts.len(),
        spells_atom(ts.take(res.0), names, res.1),
        atoms(ts.skip(res.0), names),
{
    let k = choose|k: int|
        #![trigger ts.take(k)]
        0 < k <= ts.len() && (exists|a: Term| #[trigger] spells_atom(ts.take(k), names, a))
            && atoms(ts.skip(k), names);
    let a = choose|a: Term| #[trigger] spells_atom(ts.take(k), names, a);
    (k, a)
}

/// An application starting at `p` of `ts` may end at `q`.
pub open spec fn app_end(ts: Seq<Token>, names: Seq<(Seq<char>, Type)>, p: int, q: int) -> bool {
    &&& p <= q <= ts.len()
    &&& may_end(ts, q)
    &&& exists|t: Term| spells_app(ts.subrange(p, q), names, t)
}

/// Parses a token sequence into a nameless term. A variable resolves to the innermost
/// enclosing binder of that name; each abstraction records a name made fresh against
/// the binders around it, for display.
pub struct Parser {
    pub ctx: Context,
    token: Vec<Token>,
    pos: usize,
    pub result: Option<Term>,
}

impl Parser {
    /// The tokens being parsed.
    pub closed spec fn tokens(&self) -> Seq<Token> {
        self.token@
    }

    /// The position of the next token.
    pub closed spec fn position(&self) -> nat {
        self.pos as nat
    }

    /// The binders in scope.
    pub closed spec fn scope(&self) -> Seq<(Seq<char>, Type)> {
        self.ctx@
    }

    spec fn remaining(&self) -> int {
        self.token@.len() - self.pos
    }

    /// The position is within the tokens, and the context can grow by one binder per
    /// remaining token without its length leaving the range of `isize`.
    spec fn inv(&self) -> bool {
        &&& self.pos <= self.token@.len()
        &&& self.ctx@.len() + self.remaining() <= isize::MAX
    }

    /// A parser positioned on the first of `input`, with an empty context.
    pub fn new(input: Vec<Token>) -> (r: Parser)
        ensures
            r.tokens() == input@,
            r.position() == 0,
            r.scope() == Seq::<(Seq<char>, Type)>::empty(),
    {
        Parser { ctx: Context::new(), token: input, pos: 0, result: None }
    }

    fn current(&self) -> (r: Option<Token>)
        ensures
            r == (if self.pos < self.token@.len() {
                Some(self.token@[self.pos as int])
            } else {
                None::<Token>
            }),
    {
        if self.pos < self.token.len() {
            Some(self.token[self.pos].clone())
        } else {
            None
        }
    }

    /// Moves past the current token, and returns it.
    fn next_token(&mut self) -> (r: Option<Token>)
        requires
            old(self).inv(),
        ensures
            final(self).inv(),
            final(self).ctx == old(self).ctx,
            final(self).token == old(self).token,
            r == (if old(self).pos < old(self).token@.len() {
                Some(old(self).token@[old(self).pos as int])
            } else {
                None::<Token>
            }),
            final(self).pos == (if old(self).pos < old(self).token@.len() {
                old(self).pos + 1
            } else {
                old(self).pos as int
            }),
    {
        let r = self.current();
        if self.pos < self.token.len() {
            self.pos = self.pos + 1;
        }
        r
    }

    /// `λ x : Bool . term`, on the `λ`.
    fn lambda(&mut self) -> (r: Option<Term>)
        requires
            old(self).inv(),
            old(self).pos < old(self).token@.len(),
            old(self).token@[old(self).pos as int] == Token::Lambda,
        ensures
            final(self).inv(),
            final(self).ctx@ == old(self).ctx@,
            final(self).token == old(self).token,
            old(self).pos < final(self).pos,
            r matches Some(t) ==> well_scoped(t, old(self).ctx@.len() as int),
            r matches Some(t) ==> spells_lambda(
                final(self).token@.subrange(old(self).pos as int, final(self).pos as int),
                old(self).ctx@,
                t,
            ),
            forall|q: int, t: Term|
                old(self).pos <= q <= old(self).token@.len() && may_end(old(self).token@, q)
                    && #[trigger] spells_lambda(
                    old(self).token@.subrange(old(self).pos as int, q),
                    old(self).ctx@,
                    t,
                ) ==> r is Some && final(self).pos == q,
        decreases old(self).remaining(), 0nat,
    {
        let ghost p0 = self.pos;
        let ghost tk = self.token@;
        let ghost names = self.ctx@;
        self.next_token();
        let var_name = match self.current() {
            Some(Token::Var(v)) => v,
            _ => {
                proof {
                    assert forall|q: int, t: Term|
                        p0 <= q <= tk.len() implies !spells_lambda(
                        tk.subrange(p0 as int, q),
                        names,
                        t,
                    ) by {
                        if spells_lambda(tk.subrange(p0 as int, q), names, t) {
                            assert(tk.subrange(p0 as int, q)[1] == tk[p0 + 1]);
                        }
                    }
                }
                return None;
            },
        };
        self.next_token();
        match self.current() {
            Some(Token::Colon) => {},
            _ => {
                proof {
                    assert forall|q: int, t: Term|
                        p0 <= q <= tk.len() implies !spells_lambda(
                        tk.subrange(p0 as int, q),
                        names,
                        t,
                    ) by {
                        if spells_lambda(tk.subrange(p0 as int, q), names, t) {
                            assert(tk.subrange(p0 as int, q)[2] == tk[p0 + 2]);
                        }
                    }
                }
                return None;
            },
        }
        self.next_token();
        match self.current() {
            Some(Token::Bool) => {},
            _ => {
                proof {
                    assert forall|q: int, t: Term|
                        p0 <= q <= tk.len() implies !spells_lambda(
                        tk.subrange(p0 as int, q),
                        names,
                        t,
                    ) by {
                        if spells_lambda(tk.subrange(p0 as int, q), names, t) {
                            assert(tk.subrange(p0 as int, q)[3] == tk[p0 + 3]);
                        }
                    }
                }
                return None;
            },
        }
        self.next_token();
        match self.current() {
            Some(Token::Dot) => {},
            _ => {
                proof {
                    assert forall|q: int, t: Term|
                        p0 <= q <= tk.len() implies !spells_lambda(
                        tk.subrange(p0 as int, q),
                        names,
                        t,
                    ) by {
                        if spells_lambda(tk.subrange(p0 as int, q), names, t) {
                            assert(tk.subrange(p0 as int, q)[4] == tk[p0 + 4]);
                        }
                    }
                }
                return None;
            },
        }
        self.next_token();
        let (_, name) = self.ctx.pick_fresh_name(var_name.as_str(), Type::TyBool);
        let mut prev_ctx = self.ctx.bind(var_name.as_str(), Type::TyBool);
        std::mem::swap(&mut self.ctx, &mut prev_ctx);
        let body = self.term();
        self.ctx = prev_ctx;
        proof {
            assert forall|q: int, t: Term|
                p0 <= q <= tk.len() && may_end(tk, q) && #[trigger] spells_lambda(
                    tk.subrange(p0 as int, q),
                    names,
                    t,
                ) implies body is Some && self.pos == q by {
                let ts = tk.subrange(p0 as int, q);
                assert(ts[1] == tk[p0 + 1]);
                assert(ts.skip(5) =~= tk.subrange(p0 + 5, q));
                assert(spells_term(
                    tk.subrange(p0 + 5, q),
                    names.push((var_name@, Type::TyBool)),
                    *t->TmAbs_2,
                ));
            }
        }
        match body {
            Some(body) => {
                assert(self.token@.subrange(p0 as int, self.pos as int).skip(5) =~= self.token@.subrange(
                    p0 + 5,
                    self.pos as int,
                ));
                Some(Term::TmAbs(name, Type::TyBool, Box::new(body)))
            },
            None => None,
        }
    }

    /// `λ x : Bool . term`, or an application.
    fn term(&mut self) -> (r: Option<Term>)
        requires
            old(self).inv(),
        ensures
            final(self).inv(),
            final(self).ctx@ == old(self).ctx@,
            final(self).token == old(self).token,
            old(self).pos <= final(self).pos,
            r matches Some(t) ==> well_scoped(t, old(self).ctx@.len() as int),
            r matches Some(t) ==> spells_term(
                final(self).token@.subrange(old(self).pos as int, final(self).pos as int),
                old(self).ctx@,
                t,
            ),
            forall|q: int, t: Term|
                old(self).pos <= q <= old(self).token@.len() && may_end(old(self).token@, q)
                    && #[trigger] spells_term(
                    old(self).token@.subrange(old(self).pos as int, q),
                    old(self).ctx@,
                    t,
                ) ==> r is Some && final(self).pos == q,
        decreases old(self).remaining(), 3nat,
    {
        let ghost p0 = self.pos;
        let ghost tk = self.token@;
        let ghost names = self.ctx@;
        match self.current() {
            Some(Token::Lambda) => {
                let r = self.lambda();
                proof {
                    assert forall|q: int, t: Term|
                        p0 <= q <= tk.len() && may_end(tk, q) && #[trigger] spells_term(
                            tk.subrange(p0 as int, q),
                            names,
                            t,
                        ) implies r is Some && self.pos == q by {
                        if spells_app(tk.subrange(p0 as int, q), names, t) {
                            lemma_app_atoms(tk.subrange(p0 as int, q), names, t);
                        }
                        assert(spells_lambda(tk.subrange(p0 as int, q), names, t));
                    }
                }
                r
            },
            _ => {
                let r = self.application();
                proof {
                    assert forall|q: int, t: Term|
                        p0 <= q <= tk.len() && may_end(tk, q) && #[trigger] spells_term(
                            tk.subrange(p0 as int, q),
                            names,
                            t,
                        ) implies r is Some && self.pos == q by {
                        if spells_lambda(tk.subrange(p0 as int, q), names, t) {
                            assert(tk.subrange(p0 as int, q)[0] == tk[p0 as int]);
                        }
                        assert(spells_app(tk.subrange(p0 as int, q), names, t));
                    }
                }
                r
            },
        }
    }

    /// `( term )`, a variable in scope, `true`, `false`, or a conditional.
    fn atom(&mut self) -> (r: Option<Term>)
        requires
            old(self).inv(),
        ensures
            final(self).inv(),
            final(self).ctx@ == old(self).ctx@,
            final(self).token == old(self).token,
            old(self).pos <= final(self).pos,
            r is Some ==> old(self).pos < final(self).pos,
            r matches Some(t) ==> well_scoped(t, old(self).ctx@.len() as int),
            r matches Some(t) ==> spells_atom(
                final(self).token@.subrange(old(self).pos as int, final(self).pos as int),
                old(self).ctx@,
                t,
            ),
            forall|e: int, t: Term|
                old(self).pos <= e <= old(self).token@.len() && #[trigger] spells_atom(
                    old(self).token@.subrange(old(self).pos as int, e),
                    old(self).ctx@,
                    t,
                ) ==> r is Some && final(self).pos == e,
        decreases old(self).remaining(), 1nat,
    {
        let ghost p0 = self.pos;
        let ghost tk = self.token@;
        let ghost names = self.ctx@;
        let tok = match self.current() {
            Some(tok) => tok,
            None => {
                proof {
                    assert forall|e: int, a: Term|
                        p0 <= e <= tk.len() implies !spells_atom(
                        tk.subrange(p0 as int, e),
                        names,
                        a,
                    ) by {
                        if spells_atom(tk.subrange(p0 as int, e), names, a) {
                            lemma_atom_start(tk.subrange(p0 as int, e), names, a);
                        }
                    }
                }
                return None;
            },
        };
        match tok {
            Token::LParen => {
                self.next_token();
                let term = self.term();
                let ghost q = self.pos;
                proof {
                    assert forall|e: int, a: Term|
                        p0 <= e <= tk.len() && #[trigger] spells_atom(
                            tk.subrange(p0 as int, e),
                            names,
                            a,
                        ) implies term is Some && q == e - 1 && tk[e - 1] == Token::RParen by {
                        let ts = tk.subrange(p0 as int, e);
                        assert(ts[0] == tk[p0 as int]);
                        assert(ts.subrange(1, ts.len() - 1) =~= tk.subrange(p0 + 1, e - 1));
                        assert(ts.last() == tk[e - 1]);
                        assert(spells_term(tk.subrange(p0 + 1, e - 1), names, a));
                    }
                }
                match self.current() {
                    Some(Token::RParen) => {
                        self.next_token();
                        assert(self.token@.subrange(p0 as int, self.pos as int).subrange(
                            1,
                            self.pos - p0 - 1,
                        ) =~= self.token@.subrange(p0 + 1, q as int));
                        term
                    },
                    _ => None,
                }
            },
            Token::True => {
                self.next_token();
                assert(self.token@.subrange(p0 as int, self.pos as int) =~= seq![Token::True]);
                proof {
                    assert forall|e: int, a: Term|
                        p0 <= e <= tk.len() && #[trigger] spells_atom(
                            tk.subrange(p0 as int, e),
                            names,
                            a,
                        ) implies e == p0 + 1 by {
                        assert(tk.subrange(p0 as int, e)[0] == tk[p0 as int]);
                    }
                }
                Some(Term::TmTrue)
            },
            Token::False => {
                self.next_token();
                assert(self.token@.subrange(p0 as int, self.pos as int) =~= seq![Token::False]);
                proof {
                    assert forall|e: int, a: Term|
                        p0 <= e <= tk.len() && #[trigger] spells_atom(
                            tk.subrange(p0 as int, e),
                            names,
                            a,
                        ) implies e == p0 + 1 by {
                        assert(tk.subrange(p0 as int, e)[0] == tk[p0 as int]);
                    }
                }
                Some(Term::TmFalse)
            },
            Token::If => {
                let r = self.if_then_expr();
                proof {
                    assert forall|e: int, a: Term|
                        p0 <= e <= tk.len() && #[trigger] spells_atom(
                            tk.subrange(p0 as int, e),
                            names,
                            a,
                        ) implies r is Some && self.pos == e by {
                        assert(tk.subrange(p0 as int, e)[0] == tk[p0 as int]);
                        assert(spells_if(tk.subrange(p0 as int, e), names, a));
                    }
                }
                r
            },
            Token::Var(var_name) => {
                self.next_token();
                let found = self.ctx.name_to_index(var_name.as_str());
                proof {
                    assert forall|e: int, a: Term|
                        p0 <= e <= tk.len() && #[trigger] spells_atom(
                            tk.subrange(p0 as int, e),
                            names,
                            a,
                        ) implies found is Some && e == p0 + 1 by {
                        let ts = tk.subrange(p0 as int, e);
                        assert(ts[0] == tk[p0 as int]);
                        let i = a->TmVar_0 as int;
                        assert(names_of(names)[names.len() - 1 - i] == var_name@);
                    }
                }
                match found {
                    Some(idx) => Some(Term::TmVar(idx, self.ctx.len())),
                    None => None,
                }
            },
            _ => {
                proof {
                    assert forall|e: int, a: Term|
                        p0 <= e <= tk.len() implies !spells_atom(
                        tk.subrange(p0 as int, e),
                        names,
                        a,
                    ) by {
                        if spells_atom(tk.subrange(p0 as int, e), names, a) {
                            lemma_atom_start(tk.subrange(p0 as int, e), names, a);
                            assert(tk.subrange(p0 as int, e)[0] == tk[p0 as int]);
                        }
                    }
                }
                None
            },
        }
    }

    /// `if atom then atom else atom`, on the `if`.
    fn if_then_expr(&mut self) -> (r: Option<Term>)
        requires
            old(self).inv(),
            old(self).pos < old(self).token@.len(),
            old(self).token@[old(self).pos as int] == Token::If,
        ensures
            final(self).inv(),
            final(self).ctx@ == old(self).ctx@,
            final(self).token == old(self).token,
            old(self).pos < final(self).pos,
            r matches Some(t) ==> well_scoped(t, old(self).ctx@.len() as int),
            r matches Some(t) ==> spells_if(
                final(self).token@.subrange(old(self).pos as int, final(self).pos as int),
                old(self).ctx@,
                t,
            ),
            forall|e: int, t: Term|
                old(self).pos <= e <= old(self).token@.len() && #[trigger] spells_if(
                    old(self).token@.subrange(old(self).pos as int, e),
                    old(self).ctx@,
                    t,
                ) ==> r is Some && final(self).pos == e,
        decreases old(self).remaining(), 0nat,
    {
        let ghost p0 = self.pos;
        let ghost tk = self.token@;
        let ghost names = self.ctx@;
        self.next_token();
        let ghost p1 = self.pos;
        let cond = self.atom();
        let ghost q1 = self.pos;
        proof {
            assert forall|e: int, t: Term|
                p0 <= e <= tk.len() && #[trigger] spells_if(tk.subrange(p0 as int, e), names, t)
                    implies cond is Some && q1 == p0 + if_split(
                    tk.subrange(p0 as int, e),
                    names,
                    t,
                ).0 by {
                lemma_if_split(tk, names, p0 as int, e, t);
            }
        }
        let cond = match cond {
            Some(t) => t,
            None => {
                return None;
            },
        };
        match self.current() {
            Some(Token::Then) => {},
            _ => {
                proof {
                    assert forall|e: int, t: Term|
                        p0 <= e <= tk.len() implies !spells_if(
                        tk.subrange(p0 as int, e),
                        names,
                        t,
                    ) by {
                        if spells_if(tk.subrange(p0 as int, e), names, t) {
                            lemma_if_split(tk, names, p0 as int, e, t);
                        }
                    }
                }
                return None;
            },
        }
        self.next_token();
        let ghost p2 = self.pos;
        let then_expr = self.atom();
        let ghost q2 = self.pos;
        proof {
            assert forall|e: int, t: Term|
                p0 <= e <= tk.len() && #[trigger] spells_if(tk.subrange(p0 as int, e), names, t)
                    implies then_expr is Some && q2 == p0 + if_split(
                    tk.subrange(p0 as int, e),
                    names,
                    t,
                ).1 by {
                lemma_if_split(tk, names, p0 as int, e, t);
            }
        }
        let then_expr = match then_expr {
            Some(t) => t,
            None => {
                return None;
            },
        };
        match self.current() {
            Some(Token::Else) => {},
            _ => {
                proof {
                    assert forall|e: int, t: Term|
                        p0 <= e <= tk.len() implies !spells_if(
                        tk.subrange(p0 as int, e),
                        names,
                        t,
                    ) by {
                        if spells_if(tk.subrange(p0 as int, e), names, t) {
                            lemma_if_split(tk, names, p0 as int, e, t);
                        }
                    }
                }
                return None;
            },
        }
        self.next_token();
        let ghost p3 = self.pos;
        let else_expr = self.atom();
        proof {
            assert forall|e: int, t: Term|
                p0 <= e <= tk.len() && #[trigger] spells_if(tk.subrange(p0 as int, e), names, t)
                    implies else_expr is Some && self.pos == e by {
                lemma_if_split(tk, names, p0 as int, e, t);
            }
        }
        match else_expr {
            Some(else_expr) => {
                let ghost ts = self.token@.subrange(p0 as int, self.pos as int);
                let ghost k1 = q1 - p0;
                let ghost k2 = q2 - p0;
                assert(ts.subrange(1, k1) =~= self.token@.subrange(p1 as int, q1 as int));
                assert(ts.subrange(k1 + 1, k2) =~= self.token@.subrange(p2 as int, q2 as int));
                assert(ts.skip(k2 + 1) =~= self.token@.subrange(p3 as int, self.pos as int));
                assert(ts[k1] == Token::Then && ts[k2] == Token::Else);
                Some(Term::TmIf(Box::new(cond), Box::new(then_expr), Box::new(else_expr)))
            },
            None => None,
        }
    }

    /// Parses `if atom then atom else atom` from the current position, which must hold
    /// the `if`. The result is well scoped in the context, which is left as it was. When
    /// the tokens from there spell a conditional, parsing succeeds and reads them.
    pub fn parse_if_then_expr(&mut self) -> (r: Option<Term>)
        ensures
            final(self).scope() == old(self).scope(),
            final(self).tokens() == old(self).tokens(),
            old(self).position() <= final(self).position(),
            r matches Some(t) ==> well_scoped(t, old(self).scope().len() as int),
            r matches Some(t) ==> spells_if(
                old(self).tokens().subrange(
                    old(self).position() as int,
                    final(self).position() as int,
                ),
                old(self).scope(),
                t,
            ),
            forall|e: int, t: Term|
                old(self).position() <= e <= old(self).tokens().len() && old(self).scope().len()
                    + old(self).tokens().len() <= isize::MAX && #[trigger] spells_if(
                    old(self).tokens().subrange(old(self).position() as int, e),
                    old(self).scope(),
                    t,
                ) ==> r is Some && final(self).position() == e,
    {
        if !self.bounded() {
            return None;
        }
        match self.current() {
            Some(Token::If) => self.if_then_expr(),
            _ => {
                proof {
                    assert forall|e: int, t: Term|
                        self.pos <= e <= self.token@.len() implies !spells_if(
                        self.token@.subrange(self.pos as int, e),
                        self.ctx@,
                        t,
                    ) by {
                        if spells_if(self.token@.subrange(self.pos as int, e), self.ctx@, t) {
                            assert(self.token@.subrange(self.pos as int, e)[0]
                                == self.token@[self.pos as int]);
                        }
                    }
                }
                None
            },
        }
    }

    /// One or more atoms, applied left to right. Tokens read by an atom that fails are
    /// left unconsumed.
    fn application(&mut self) -> (r: Option<Term>)
        requires
            old(self).inv(),
        ensures
            final(self).inv(),
            final(self).ctx@ == old(self).ctx@,
            final(self).token == old(self).token,
            old(self).pos <= final(self).pos,
            r matches Some(t) ==> well_scoped(t, old(self).ctx@.len() as int),
            r matches Some(t) ==> spells_app(
                final(self).token@.subrange(old(self).pos as int, final(self).pos as int),
                old(self).ctx@,
                t,
            ),
            forall|q: int, t: Term|
                old(self).pos <= q <= old(self).token@.len() && may_end(old(self).token@, q)
                    && #[trigger] spells_app(
                    old(self).token@.subrange(old(self).pos as int, q),
                    old(self).ctx@,
                    t,
                ) ==> r is Some && final(self).pos == q,
        decreases old(self).remaining(), 2nat,
    {
        let ghost p0 = self.pos;
        let ghost tk = self.token@;
        let ghost names = self.ctx@;
        let first = self.atom();
        proof {
            assert forall|q: int| #[trigger] app_end(tk, names, p0 as int, q) implies first is Some
                && self.pos <= q && atoms(tk.subrange(self.pos as int, q), names) by {
                let t = choose|t: Term| spells_app(tk.subrange(p0 as int, q), names, t);
                let ts = tk.subrange(p0 as int, q);
                lemma_app_atoms(ts, names, t);
                let (k, a) = first_atom(ts, names);
                assert(ts.take(k) =~= tk.subrange(p0 as int, p0 + k));
                assert(spells_atom(tk.subrange(p0 as int, p0 + k), names, a));
                assert(ts.skip(k) =~= tk.subrange(p0 + k, q));
            }
        }
        let mut lhs = match first {
            Some(t) => t,
            None => {
                proof {
                    assert forall|q: int, t: Term|
                        p0 <= q <= tk.len() && may_end(tk, q) implies !spells_app(
                        tk.subrange(p0 as int, q),
                        names,
                        t,
                    ) by {
                        if spells_app(tk.subrange(p0 as int, q), names, t) {
                            assert(app_end(tk, names, p0 as int, q));
                        }
                    }
                }
                return None;
            },
        };
        assert(spells_app(self.token@.subrange(p0 as int, self.pos as int), self.ctx@, lhs));
        loop
            invariant
                self.inv(),
                self.ctx@ == names,
                self.token@ == tk,
                self.token == old(self).token,
                tk == old(self).token@,
                names == old(self).ctx@,
                p0 == old(self).pos,
                p0 < self.pos,
                well_scoped(lhs, old(self).ctx@.len() as int),
                spells_app(self.token@.subrange(p0 as int, self.pos as int), self.ctx@, lhs),
                forall|q: int| #[trigger]
                    app_end(tk, names, p0 as int, q) ==> self.pos <= q && atoms(
                        tk.subrange(self.pos as int, q),
                        names,
                    ),
            decreases self.remaining(),
        {
            let p1 = self.pos;
            match self.atom() {
                Some(rhs) => {
                    let ghost ts = self.token@.subrange(p0 as int, self.pos as int);
                    let ghost k = p1 - p0;
                    let ghost prev = lhs;
                    assert(ts.take(k) =~= self.token@.subrange(p0 as int, p1 as int));
                    assert(ts.skip(k) =~= self.token@.subrange(p1 as int, self.pos as int));
                    assert(spells_app(ts.take(k), self.ctx@, prev));
                    proof {
                        let p2 = self.pos;
                        lemma_atom_start(tk.subrange(p1 as int, p2 as int), names, rhs);
                        assert(tk.subrange(p1 as int, p2 as int)[0] == tk[p1 as int]);
                        assert forall|q: int| #[trigger]
                            app_end(tk, names, p0 as int, q) implies p2 <= q && atoms(
                            tk.subrange(p2 as int, q),
                            names,
                        ) by {
                            let us = tk.subrange(p1 as int, q);
                            assert(us.len() > 0);
                            let (j, b) = first_atom(us, names);
                            assert(us.take(j) =~= tk.subrange(p1 as int, p1 + j));
                            assert(spells_atom(tk.subrange(p1 as int, p1 + j), names, b));
                            assert(us.skip(j) =~= tk.subrange(p1 + j, q));
                        }
                    }
                    lhs = Term::TmApp(Box::new(lhs), Box::new(rhs));
                    assert(spells_app(ts, self.ctx@, lhs));
                },
                None => {
                    self.pos = p1;
                    proof {
                        assert forall|q: int, t: Term|
                            p0 <= q <= tk.len() && may_end(tk, q) && #[trigger] spells_app(
                                tk.subrange(p0 as int, q),
                                names,
                                t,
                            ) implies p1 == q by {
                            assert(app_end(tk, names, p0 as int, q));
                            if p1 < q {
                                let us = tk.subrange(p1 as int, q);
                                let (j, b) = first_atom(us, names);
                                assert(us.take(j) =~= tk.subrange(p1 as int, p1 + j));
                                assert(spells_atom(tk.subrange(p1 as int, p1 + j), names, b));
                            }
                        }
                    }
                    return Some(lhs);
                },
            }
        }
    }

    /// Parses a term from the current position. A variable must be bound by an enclosing
    /// `λ` or by the context; the result is well scoped in the context, which is left as
    /// it was. When the remaining tokens spell a term, parsing succeeds and reads them all.
    pub fn parse(&mut self) -> (r: Option<Term>)
        ensures
            final(self).scope() == old(self).scope(),
            final(self).tokens() == old(self).tokens(),
            old(self).position() <= final(self).position(),
            r matches Some(t) ==> well_scoped(t, old(self).scope().len() as int),
            r matches Some(t) ==> spells_term(
                old(self).tokens().subrange(
                    old(self).position() as int,
                    final(self).position() as int,
                ),
                old(self).scope(),
                t,
            ),
            forall|t: Term|
                old(self).position() <= old(self).tokens().len() && old(self).scope().len()
                    + old(self).tokens().len() <= isize::MAX && #[trigger] spells_term(
                    old(self).tokens().subrange(
                        old(self).position() as int,
                        old(self).tokens().len() as int,
                    ),
                    old(self).scope(),
                    t,
                ) ==> r is Some && final(self).position() == old(self).tokens().len(),
    {
        if !self.bounded() {
            return None;
        }
        self.term()
    }

    /// Whether the invariant of the parser holds.
    fn bounded(&self) -> (r: bool)
        ensures
            r == self.inv(),
    {
        if self.pos > self.token.len() {
            return false;
        }
        let depth = self.ctx.count();
        depth <= isize::MAX as usize && self.token.len() - self.pos <= isize::MAX as usize - depth
    }
}

} // verus!
