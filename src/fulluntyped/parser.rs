//! Recursive-descent parser of the lambda calculus with booleans and naturals:
//! `term ::= λ x . term | atom atom*`; an atom is `( term )`, a variable, a number,
//! `true`, `false`, `zero`, `succ atom`, `pred atom`, `iszero atom`,
//! `if atom then atom [else atom]`, or one of the built-ins `+`, `*`, `-`.
use vstd::prelude::*;

use crate::fulluntyped::builtin::{is_mult, is_plus, is_sub, mult_term, plus_term, sub_term};
use crate::fulluntyped::lexer::Token;
use crate::fulluntyped::syntax::{lemma_well_scoped_mono, well_scoped, Context, Term};
use crate::names::fresh_name;

verus! {

/// `i` is the de Bruijn index of the innermost binder named `s` in `names`
/// (the written names of the binders in scope, innermost last).
pub open spec fn innermost(names: Seq<Seq<char>>, s: Seq<char>, i: int) -> bool {
    &&& 0 <= i < names.len()
    &&& names[names.len() - 1 - i] == s
    &&& forall|j: int| names.len() - 1 - i < j < names.len() ==> names[j] != s
}

/// The tokens `ts`, followed by the token `nx` (`None` at the end), spell the term `t`
/// in the scope `names`: `λ x . term`, or an application.
pub open spec fn spells_term(ts: Seq<Token>, names: Seq<Seq<char>>, t: Term, nx: Option<Token>) -> bool
    decreases t, ts.len(), 4nat,
{
    spells_lambda(ts, names, t, nx) || spells_app(ts, names, t, nx)
}

/// `λ x . body`: the abstraction carries `x` made fresh against the scope, and the body
/// is spelled with `x` bound innermost.
pub open spec fn spells_lambda(ts: Seq<Token>, names: Seq<Seq<char>>, t: Term, nx: Option<Token>) -> bool
    decreases t, ts.len(), 0nat,
{
    &&& ts.len() >= 3
    &&& ts[0] == Token::Lambda
    &&& ts[1] is Var
    &&& ts[2] == Token::Dot
    &&& t is TmAbs
    &&& t->TmAbs_0@ == fresh_name(names, ts[1]->Var_0@)
    &&& spells_term(ts.skip(3), names.push(ts[1]->Var_0@), *t->TmAbs_1, nx)
}

/// An atom, or an application `f a` of an application or atom `f` to an atom `a`.
pub open spec fn spells_app(ts: Seq<Token>, names: Seq<Seq<char>>, t: Term, nx: Option<Token>) -> bool
    decreases t, ts.len(), 3nat,
{
    ||| spells_atom(ts, names, t, nx)
    ||| t is TmApp && exists|k: int|
        #![trigger ts.take(k)]
        0 < k < ts.len() && spells_app(ts.take(k), names, *t->TmApp_0, Some(ts[k]))
            && spells_atom(ts.skip(k), names, *t->TmApp_1, nx)
}

/// `( term )`; a variable, which stands for the innermost binder of its name and records
/// the depth of the scope; a literal; a built-in; `succ`, `pred` or `iszero` of an atom;
/// or a conditional.
pub open spec fn spells_atom(ts: Seq<Token>, names: Seq<Seq<char>>, t: Term, nx: Option<Token>) -> bool
    decreases t, ts.len(), 2nat,
{
    ||| ts.len() >= 2 && ts[0] == Token::LParen && ts.last() == Token::RParen && spells_term(
        ts.subrange(1, ts.len() - 1),
        names,
        t,
        Some(Token::RParen),
    )
    ||| ts.len() == 1 && ts[0] is Var && t is TmVar && innermost(
        names,
        ts[0]->Var_0@,
        t->TmVar_0 as int,
    ) && t->TmVar_1 == names.len()
    ||| ts.len() == 1 && ts[0] is Number && t == Term::Number(ts[0]->Number_0)
    ||| ts =~= seq![Token::True] && t == Term::True
    ||| ts =~= seq![Token::False] && t == Term::False
    ||| ts =~= seq![Token::Zero] && t == Term::Zero
    ||| ts =~= seq![Token::Plus] && is_plus(t)
    ||| ts =~= seq![Token::Mult] && is_mult(t)
    ||| ts =~= seq![Token::Sub] && is_sub(t)
    ||| ts.len() >= 1 && ts[0] == Token::Succ && t is Succ && spells_atom(
        ts.skip(1),
        names,
        *t->Succ_0,
        nx,
    )
    ||| ts.len() >= 1 && ts[0] == Token::Pred && t is Pred && spells_atom(
        ts.skip(1),
        names,
        *t->Pred_0,
        nx,
    )
    ||| ts.len() >= 1 && ts[0] == Token::IsZero && t is IsZero && spells_atom(
        ts.skip(1),
        names,
        *t->IsZero_0,
        nx,
    )
    ||| spells_if(ts, names, t, nx)
}

/// `if c then a else e`, or `if c then a` where no `else` follows; each part an atom.
pub open spec fn spells_if(ts: Seq<Token>, names: Seq<Seq<char>>, t: Term, nx: Option<Token>) -> bool
    decreases t, ts.len(), 1nat,
{
    &&& ts.len() >= 1
    &&& ts[0] == Token::If
    &&& t is If
    &&& exists|k1: int, k2: int|
        #![trigger ts.subrange(1, k1), ts.subrange(k1 + 1, k2)]
        if_parts(ts, names, t, nx, k1, k2)
}

/// The `then` of the conditional `t` spelled by `ts` is at `k1`, and its then-branch
/// ends at `k2`.
pub open spec fn if_parts(
    ts: Seq<Token>,
    names: Seq<Seq<char>>,
    t: Term,
    nx: Option<Token>,
    k1: int,
    k2: int,
) -> bool
    decreases t, ts.len(), 0nat,
{
    &&& t is If
    &&& 1 < k1 < k2 <= ts.len()
    &&& ts[k1] == Token::Then
    &&& spells_atom(ts.subrange(1, k1), names, *t->If_0, Some(Token::Then))
    &&& match t->If_2 {
        None => {
            &&& k2 == ts.len()
            &&& nx != Some(Token::Else)
            &&& spells_atom(ts.subrange(k1 + 1, k2), names, *t->If_1, nx)
        },
        Some(e) => {
            &&& k2 < ts.len()
            &&& ts[k2] == Token::Else
            &&& spells_atom(ts.subrange(k1 + 1, k2), names, *t->If_1, Some(Token::Else))
            &&& spells_atom(ts.skip(k2 + 1), names, *e, nx)
        },
    }
}

/// The token at position `q` of `ts`, if any.
pub open spec fn next_of(ts: Seq<Token>, q: int) -> Option<Token> {
    if 0 <= q < ts.len() {
        Some(ts[q])
    } else {
        None
    }
}

/// A term may end at position `q` of `ts`: at the end, or before a `)`.
pub open spec fn may_end(ts: Seq<Token>, q: int) -> bool {
    q == ts.len() || (0 <= q < ts.len() && ts[q] == Token::RParen)
}

/// The tokens an atom can start with.
pub open spec fn atom_start(tok: Token) -> bool {
    ||| tok == Token::LParen
    ||| tok is Var
    ||| tok is Number
    ||| tok == Token::True
    ||| tok == Token::False
    ||| tok == Token::Zero
    ||| tok == Token::Plus
    ||| tok == Token::Mult
    ||| tok == Token::Sub
    ||| tok == Token::Succ
    ||| tok == Token::Pred
    ||| tok == Token::IsZero
    ||| tok == Token::If
}

/// The token after the first `k` of `ts`, which `nx` follows.
pub open spec fn next_in(ts: Seq<Token>, k: int, nx: Option<Token>) -> Option<Token> {
    if k < ts.len() {
        Some(ts[k])
    } else {
        nx
    }
}

/// `ts`, followed by `nx`, is a run of zero or more atoms in the scope `names`.
pub open spec fn atoms(ts: Seq<Token>, names: Seq<Seq<char>>, nx: Option<Token>) -> bool
    decreases ts.len(),
{
    ts.len() == 0 || exists|k: int|
        #![trigger ts.take(k)]
        0 < k <= ts.len() && (exists|a: Term|
            #[trigger] spells_atom(ts.take(k), names, a, next_in(ts, k, nx))) && atoms(
            ts.skip(k),
            names,
            nx,
        )
}

proof fn lemma_atom_start(ts: Seq<Token>, names: Seq<Seq<char>>, a: Term, nx: Option<Token>)
    requires
        spells_atom(ts, names, a, nx),
    ensures
        ts.len() >= 1,
        atom_start(ts[0]),
{
    if spells_if(ts, names, a, nx) {
        assert(ts[0] == Token::If);
    } else if ts =~= seq![Token::True] || ts =~= seq![Token::False] || ts =~= seq![Token::Zero]
        || ts =~= seq![Token::Plus] || ts =~= seq![Token::Mult] || ts =~= seq![Token::Sub] {
        assert(ts.len() == 1);
    }
}

proof fn lemma_atoms_append(
    xs: Seq<Token>,
    ys: Seq<Token>,
    names: Seq<Seq<char>>,
    a: Term,
    nx: Option<Token>,
)
    requires
        ys.len() >= 1,
        atoms(xs, names, Some(ys[0])),
        spells_atom(ys, names, a, nx),
    ensures
        atoms(xs + ys, names, nx),
    decreases xs.len(),
{
    let zs = xs + ys;
    if xs.len() == 0 {
        assert(zs.take(ys.len() as int) =~= ys);
        assert(zs.skip(ys.len() as int) =~= Seq::<Token>::empty());
        assert(next_in(zs, ys.len() as int, nx) == nx);
        assert(spells_atom(zs.take(ys.len() as int), names, a, next_in(zs, ys.len() as int, nx)));
        assert(atoms(zs.skip(ys.len() as int), names, nx));
    } else {
        let k = choose|k: int|
            #![trigger xs.take(k)]
            0 < k <= xs.len() && (exists|b: Term|
                #[trigger] spells_atom(xs.take(k), names, b, next_in(xs, k, Some(ys[0]))))
                && atoms(xs.skip(k), names, Some(ys[0]));
        let b = choose|b: Term|
            #[trigger] spells_atom(xs.take(k), names, b, next_in(xs, k, Some(ys[0])));
        assert(xs.skip(k).len() == 0 || xs.skip(k).len() > 0);
        lemma_atoms_append(xs.skip(k), ys, names, a, nx);
        assert(zs.take(k) =~= xs.take(k));
        assert(zs.skip(k) =~= xs.skip(k) + ys);
        assert(next_in(zs, k, nx) == next_in(xs, k, Some(ys[0])));
        assert(spells_atom(zs.take(k), names, b, next_in(zs, k, nx)));
    }
}

proof fn lemma_app_atoms(ts: Seq<Token>, names: Seq<Seq<char>>, t: Term, nx: Option<Token>)
    requires
        spells_app(ts, names, t, nx),
    ensures
        ts.len() >= 1,
        atom_start(ts[0]),
        atoms(ts, names, nx),
    decreases t,
{
    if spells_atom(ts, names, t, nx) {
        lemma_atom_start(ts, names, t, nx);
        assert(ts.take(ts.len() as int) =~= ts);
        assert(ts.skip(ts.len() as int) =~= Seq::<Token>::empty());
        assert(spells_atom(ts.take(ts.len() as int), names, t, next_in(ts, ts.len() as int, nx)));
        assert(atoms(ts.skip(ts.len() as int), names, nx));
    } else {
        let k = choose|k: int|
            #![trigger ts.take(k)]
            0 < k < ts.len() && spells_app(ts.take(k), names, *t->TmApp_0, Some(ts[k]))
                && spells_atom(ts.skip(k), names, *t->TmApp_1, nx);
        lemma_app_atoms(ts.take(k), names, *t->TmApp_0, Some(ts[k]));
        assert(ts.skip(k)[0] == ts[k]);
        lemma_atoms_append(ts.take(k), ts.skip(k), names, *t->TmApp_1, nx);
        assert(ts.take(k) + ts.skip(k) =~= ts);
        assert(ts.take(k)[0] == ts[0]);
    }
}

/// What an atom's first token says about it.
proof fn lemma_atom_cases(ts: Seq<Token>, names: Seq<Seq<char>>, a: Term, nx: Option<Token>)
    requires
        spells_atom(ts, names, a, nx),
    ensures
        ts.len() >= 1,
        atom_start(ts[0]),
        ts[0] == Token::LParen ==> ts.len() >= 2 && ts.last() == Token::RParen && spells_term(
            ts.subrange(1, ts.len() - 1),
            names,
            a,
            Some(Token::RParen),
        ),
        ts[0] is Var ==> ts.len() == 1 && a is TmVar && innermost(
            names,
            ts[0]->Var_0@,
            a->TmVar_0 as int,
        ),
        !(ts[0] == Token::LParen || ts[0] == Token::Succ || ts[0] == Token::Pred || ts[0]
            == Token::IsZero || ts[0] == Token::If) ==> ts.len() == 1,
        ts[0] == Token::Succ ==> a is Succ && spells_atom(ts.skip(1), names, *a->Succ_0, nx),
        ts[0] == Token::Pred ==> a is Pred && spells_atom(ts.skip(1), names, *a->Pred_0, nx),
        ts[0] == Token::IsZero ==> a is IsZero && spells_atom(ts.skip(1), names, *a->IsZero_0, nx),
        ts[0] == Token::If ==> spells_if(ts, names, a, nx),
{
    lemma_atom_start(ts, names, a, nx);
    if spells_if(ts, names, a, nx) {
        assert(ts[0] == Token::If);
    }
    if ts =~= seq![Token::True] || ts =~= seq![Token::False] || ts =~= seq![Token::Zero] || ts
        =~= seq![Token::Plus] || ts =~= seq![Token::Mult] || ts =~= seq![Token::Sub] {
        assert(ts.len() == 1);
        assert(ts[0] != Token::LParen && !(ts[0] is Var));
    }
}

/// The first atom of a non-empty run of atoms, and where it ends.
proof fn first_atom(ts: Seq<Token>, names: Seq<Seq<char>>, nx: Option<Token>) -> (res: (int, Term))
    requires
        atoms(ts, names, nx),
        ts.len() > 0,
    ensures
        0 < res.0 <= ts.len(),
        spells_atom(ts.take(res.0), names, res.1, next_in(ts, res.0, nx)),
        atoms(ts.skip(res.0), names, nx),
{
    let k = choose|k: int|
        #![trigger ts.take(k)]
        0 < k <= ts.len() && (exists|a: Term|
            #[trigger] spells_atom(ts.take(k), names, a, next_in(ts, k, nx))) && atoms(
            ts.skip(k),
            names,
            nx,
        );
    let a = choose|a: Term| #[trigger] spells_atom(ts.take(k), names, a, next_in(ts, k, nx));
    (k, a)
}

/// An application starting at `p` of `ts` may end at `q`.
pub open spec fn app_end(ts: Seq<Token>, names: Seq<Seq<char>>, p: int, q: int) -> bool {
    &&& p <= q <= ts.len()
    &&& may_end(ts, q)
    &&& exists|t: Term| spells_app(ts.subrange(p, q), names, t, next_of(ts, q))
}

/// Where the parts of the conditional spelled at `p..e` of `tk` lie.
pub open spec fn if_split(tk: Seq<Token>, names: Seq<Seq<char>>, p: int, e: int, t: Term) -> (
    int,
    int,
) {
    choose|k1: int, k2: int|
        #![trigger tk.subrange(p, e).subrange(1, k1), tk.subrange(p, e).subrange(k1 + 1, k2)]
        if_parts(tk.subrange(p, e), names, t, next_of(tk, e), k1, k2)
}

/// The parts of the conditional spelled at `p..e` of `tk`, in positions of `tk`.
proof fn lemma_if_split(tk: Seq<Token>, names: Seq<Seq<char>>, p: int, e: int, t: Term)
    requires
        0 <= p <= e <= tk.len(),
        spells_if(tk.subrange(p, e), names, t, next_of(tk, e)),
    ensures
        ({
            let (k1, k2) = if_split(tk, names, p, e, t);
            &&& t is If
            &&& tk[p] == Token::If
            &&& p + 1 < p + k1 < p + k2 <= e
            &&& tk[p + k1] == Token::Then
            &&& spells_atom(tk.subrange(p + 1, p + k1), names, *t->If_0, next_of(tk, p + k1))
            &&& spells_atom(tk.subrange(p + k1 + 1, p + k2), names, *t->If_1, next_of(tk, p + k2))
            &&& t->If_2 is None ==> p + k2 == e && next_of(tk, e) != Some(Token::Else)
            &&& t->If_2 is Some ==> p + k2 < e && tk[p + k2] == Token::Else && spells_atom(
                tk.subrange(p + k2 + 1, e),
                names,
                *t->If_2->Some_0,
                next_of(tk, e),
            )
        }),
{
    let ts = tk.subrange(p, e);
    let (k1, k2) = if_split(tk, names, p, e, t);
    assert(if_parts(ts, names, t, next_of(tk, e), k1, k2));
    assert(ts[0] == tk[p]);
    assert(ts[k1] == tk[p + k1]);
    assert(ts.subrange(1, k1) =~= tk.subrange(p + 1, p + k1));
    assert(ts.subrange(k1 + 1, k2) =~= tk.subrange(p + k1 + 1, p + k2));
    if k2 < ts.len() {
        assert(ts[k2] == tk[p + k2]);
        assert(ts.skip(k2 + 1) =~= tk.subrange(p + k2 + 1, e));
    }
}

/// Parses a token sequence into a nameless term. A variable resolves to the innermost
/// enclosing binder of that name; each abstraction records a name made fresh against
/// the binders around it, for display.
pub struct Parser {
    pub ctx: Context,
    token: Vec<Token>,
    pos: usize,
    pub result: Option<Term>,
}

impl Parser {
    /// The tokens being parsed.
    pub closed spec fn tokens(&self) -> Seq<Token> {
        self.token@
    }

    /// The position of the next token.
    pub closed spec fn position(&self) -> nat {
        self.pos as nat
    }

    /// The binders in scope.
    pub closed spec fn scope(&self) -> Seq<Seq<char>> {
        self.ctx@
    }

    spec fn remaining(&self) -> int {
        self.token@.len() - self.pos
    }

    /// The position is within the tokens, and the context can grow by one binder per
    /// remaining token without its length leaving the range of `isize`.
    spec fn inv(&self) -> bool {
        &&& self.pos <= self.token@.len()
        &&& self.ctx@.len() + self.remaining() <= isize::MAX
    }

    /// A parser positioned on the first of `input`, with an empty context.
    pub fn new(input: Vec<Token>) -> (r: Parser)
        ensures
            r.tokens() == input@,
            r.position() == 0,
            r.scope() == Seq::<Seq<char>>::empty(),
    {
        Parser { ctx: Context::new(), token: input, pos: 0, result: None }
    }

    fn current(&self) -> (r: Option<Token>)
        ensures
            r == (if self.pos < self.token@.len() {
                Some(self.token@[self.pos as int])
            } else {
                None::<Token>
            }),
    {
        if self.pos < self.token.len() {
            Some(self.token[self.pos].clone())
        } else {
            None
        }
    }

    /// Moves past the current token, and returns it.
    fn next_token(&mut self) -> (r: Option<Token>)
        requires
            old(self).inv(),
        ensures
            final(self).inv(),
            final(self).ctx == old(self).ctx,
            final(self).token == old(self).token,
            r == (if old(self).pos < old(self).token@.len() {
                Some(old(self).token@[old(self).pos as int])
            } else {
                None::<Token>
            }),
            final(self).pos == (if old(self).pos < old(self).token@.len() {
                old(self).pos + 1
            } else {
                old(self).pos as int
            }),
    {
        let r = self.current();
        if self.pos < self.token.len() {
            self.pos = self.pos + 1;
        }
        r
    }

    /// `λ x . term`, on the `λ`.
    fn lambda(&mut self) -> (r: Option<Term>)
        requires
            old(self).inv(),
            old(self).pos < old(self).token@.len(),
            old(self).token@[old(self).pos as int] == Token::Lambda,
        ensures
            final(self).inv(),
            final(self).ctx@ == old(self).ctx@,
            final(self).token == old(self).token,
            old(self).pos < final(self).pos,
            r matches Some(t) ==> well_scoped(t, old(self).ctx@.len() as int),
            r matches Some(t) ==> spells_lambda(
                final(self).token@.subrange(old(self).pos as int, final(self).pos as int),
                old(self).ctx@,
                t,
                next_of(final(self).token@, final(self).pos as int),
            ),
            forall|q: int, t: Term|
                old(self).pos <= q <= old(self).token@.len() && may_end(old(self).token@, q)
                    && #[trigger] spells_lambda(
                    old(self).token@.subrange(old(self).pos as int, q),
                    old(self).ctx@,
                    t,
                    next_of(old(self).token@, q),
                ) ==> r is Some && final(self).pos == q,
        decreases old(self).remaining(), 0nat,
    {
        let ghost p0 = self.pos;
        let ghost tk = self.token@;
        let ghost names = self.ctx@;
        self.next_token();
        let var_name = match self.current() {
            Some(Token::Var(v)) => v,
            _ => {
                proof {
                    assert forall|q: int, t: Term|
                        p0 <= q <= tk.len() implies !spells_lambda(
                        tk.subrange(p0 as int, q),
                        names,
                        t,
                        next_of(tk, q),
                    ) by {
                        if spells_lambda(tk.subrange(p0 as int, q), names, t, next_of(tk, q)) {
                            assert(tk.subrange(p0 as int, q)[1] == tk[p0 + 1]);
                        }
                    }
                }
                return None;
            },
        };
        self.next_token();
        match self.current() {
            Some(Token::Dot) => {},
            _ => {
                proof {
                    assert forall|q: int, t: Term|
                        p0 <= q <= tk.len() implies !spells_lambda(
                        tk.subrange(p0 as int, q),
                        names,
                        t,
                        next_of(tk, q),
                    ) by {
                        if spells_lambda(tk.subrange(p0 as int, q), names, t, next_of(tk, q)) {
                            assert(tk.subrange(p0 as int, q)[2] == tk[p0 + 2]);
                        }
                    }
                }
                return None;
            },
        }
        self.next_token();
        let (_, name) = self.ctx.pick_fresh_name(var_name.as_str());
        let mut prev_ctx = self.ctx.bind(var_name.as_str());
        std::mem::swap(&mut self.ctx, &mut prev_ctx);
        let body = self.term();
        self.ctx = prev_ctx;
        proof {
            assert forall|q: int, t: Term|
                p0 <= q <= tk.len() && may_end(tk, q) && #[trigger] spells_lambda(
                    tk.subrange(p0 as int, q),
                    names,
                    t,
                    next_of(tk, q),
                ) implies body is Some && self.pos == q by {
                let ts = tk.subrange(p0 as int, q);
                assert(ts[1] == tk[p0 + 1]);
                assert(ts.skip(3) =~= tk.subrange(p0 + 3, q));
                assert(spells_term(
                    tk.subrange(p0 + 3, q),
                    names.push(var_name@),
                    *t->TmAbs_1,
                    next_of(tk, q),
                ));
            }
        }
        match body {
            Some(body) => {
                let r = Term::TmAbs(name, Box::new(body));
                assert(self.token@.subrange(p0 as int, self.pos as int).skip(3) =~= self.token@.subrange(
                    p0 + 3,
                    self.pos as int,
                ));
                Some(r)
            },
            None => None,
        }
    }

    /// `λ x . term`, or an application.
    fn term(&mut self) -> (r: Option<Term>)
        requires
            old(self).inv(),
        ensures
            final(self).inv(),
            final(self).ctx@ == old(self).ctx@,
            final(self).token == old(self).token,
            old(self).pos <= final(self).pos,
            r matches Some(t) ==> well_scoped(t, old(self).ctx@.len() as int),
            r matches Some(t) ==> spells_term(
                final(self).token@.subrange(old(self).pos as int, final(self).pos as int),
                old(self).ctx@,
                t,
                next_of(final(self).token@, final(self).pos as int),
            ),
            forall|q: int, t: Term|
                old(self).pos <= q <= old(self).token@.len() && may_end(old(self).token@, q)
                    && #[trigger] spells_term(
                    old(self).token@.subrange(old(self).pos as int, q),
                    old(self).ctx@,
                    t,
                    next_of(old(self).token@, q),
                ) ==> r is Some && final(self).pos == q,
        decreases old(self).remaining(), 3nat,
    {
        let ghost p0 = self.pos;
        let ghost tk = self.token@;
        let ghost names = self.ctx@;
        match self.current() {
            Some(Token::Lambda) => {
                let r = self.lambda();
                proof {
                    assert forall|q: int, t: Term|
                        p0 <= q <= tk.len() && may_end(tk, q) && #[trigger] spells_term(
                            tk.subrange(p0 as int, q),
                            names,
                            t,
                            next_of(tk, q),
                        ) implies r is Some && self.pos == q by {
                        if spells_app(tk.subrange(p0 as int, q), names, t, next_of(tk, q)) {
                            lemma_app_atoms(tk.subrange(p0 as int, q), names, t, next_of(tk, q));
                        }
                        assert(spells_lambda(tk.subrange(p0 as int, q), names, t, next_of(tk, q)));
                    }
                }
                r
            },
            _ => {
                let r = self.application();
                proof {
                    assert forall|q: int, t: Term|
                        p0 <= q <= tk.len() && may_end(tk, q) && #[trigger] spells_term(
                            tk.subrange(p0 as int, q),
                            names,
                            t,
                            next_of(tk, q),
                        ) implies r is Some && self.pos == q by {
                        if spells_lambda(tk.subrange(p0 as int, q), names, t, next_of(tk, q)) {
                            assert(tk.subrange(p0 as int, q)[0] == tk[p0 as int]);
                        }
                        assert(spells_app(tk.subrange(p0 as int, q), names, t, next_of(tk, q)));
                    }
                }
                r
            },
        }
    }

    /// `( term )`, a variable in scope, a literal, a built-in, or a prefix form.
    fn atom(&mut self) -> (r: Option<Term>)
        requires
            old(self).inv(),
        ensures
            final(self).inv(),
            final(self).ctx@ == old(self).ctx@,
            final(self).token == old(self).token,
            old(self).pos <= final(self).pos,
            r is Some ==> old(self).pos < final(self).pos,
            r matches Some(t) ==> well_scoped(t, old(self).ctx@.len() as int),
            r matches Some(t) ==> spells_atom(
                final(self).token@.subrange(old(self).pos as int, final(self).pos as int),
                old(self).ctx@,
                t,
                next_of(final(self).token@, final(self).pos as int),
            ),
            forall|e: int, t: Term|
                old(self).pos <= e <= old(self).token@.len() && #[trigger] spells_atom(
                    old(self).token@.subrange(old(self).pos as int, e),
                    old(self).ctx@,
                    t,
                    next_of(old(self).token@, e),
                ) ==> r is Some && final(self).pos == e,
        decreases old(self).remaining(), 1nat,
    {
        let k = self.ctx.count();
        let ghost p0 = self.pos;
        let ghost tk = self.token@;
        let ghost names = self.ctx@;
        let tok = match self.current() {
            Some(tok) => tok,
            None => {
                proof {
                    assert forall|e: int, a: Term|
                        p0 <= e <= tk.len() implies !spells_atom(
                        tk.subrange(p0 as int, e),
                        names,
                        a,
                        next_of(tk, e),
                    ) by {
                        if spells_atom(tk.subrange(p0 as int, e), names, a, next_of(tk, e)) {
                            lemma_atom_start(tk.subrange(p0 as int, e), names, a, next_of(tk, e));
                            assert(tk.subrange(p0 as int, e)[0] == tk[p0 as int]);
                        }
                    }
                }
                return None;
            },
        };
        match tok {
            Token::LParen => {
                self.next_token();
                let term = self.term();
                let ghost q = self.pos;
                proof {
                    assert forall|e: int, a: Term|
                        p0 <= e <= tk.len() && #[trigger] spells_atom(
                            tk.subrange(p0 as int, e),
                            names,
                            a,
                            next_of(tk, e),
                        ) implies term is Some && q == e - 1 && tk[e - 1] == Token::RParen by {
                        let ts = tk.subrange(p0 as int, e);
                        lemma_atom_start(ts, names, a, next_of(tk, e));
                        assert(ts[0] == tk[p0 as int]);
                        if spells_if(ts, names, a, next_of(tk, e)) {
                            assert(ts[0] == Token::If);
                        }
                        if ts =~= seq![Token::True] || ts =~= seq![Token::False] || ts =~= seq![
                            Token::Zero,
                        ] || ts =~= seq![Token::Plus] || ts =~= seq![Token::Mult] || ts =~= seq![
                            Token::Sub,
                        ] {
                            assert(ts[0] != Token::LParen);
                        }
                        assert(ts.subrange(1, ts.len() - 1) =~= tk.subrange(p0 + 1, e - 1));
                        assert(ts.last() == tk[e - 1]);
                        assert(next_of(tk, e - 1) == Some(Token::RParen));
                        assert(spells_term(tk.subrange(p0 + 1, e - 1), names, a, next_of(tk, e - 1)));
                    }
                }
                match self.current() {
                    Some(Token::RParen) => {
                        self.next_token();
                        assert(self.token@.subrange(p0 as int, self.pos as int).subrange(
                            1,
                            self.pos - p0 - 1,
                        ) =~= self.token@.subrange(p0 + 1, q as int));
                        term
                    },
                    _ => None,
                }
            },
            Token::Number(num) => {
                self.next_token();
                assert(self.token@.subrange(p0 as int, self.pos as int) =~= seq![Token::Number(num)]);
                proof {
                    assert forall|e: int, a: Term|
                        p0 <= e <= tk.len() && #[trigger] spells_atom(
                            tk.subrange(p0 as int, e),
                            names,
                            a,
                            next_of(tk, e),
                        ) implies e == p0 + 1 by {
                        lemma_atom_cases(tk.subrange(p0 as int, e), names, a, next_of(tk, e));
                        assert(tk.subrange(p0 as int, e)[0] == tk[p0 as int]);
                    }
                }
                Some(Term::Number(num))
            },
            Token::Succ => {
                self.next_token();
                let ghost p1 = self.pos;
                let inner = self.atom();
                proof {
                    assert forall|e: int, a: Term|
                        p0 <= e <= tk.len() && #[trigger] spells_atom(
                            tk.subrange(p0 as int, e),
                            names,
                            a,
                            next_of(tk, e),
                        ) implies inner is Some && self.pos == e by {
                        let ts = tk.subrange(p0 as int, e);
                        lemma_atom_cases(ts, names, a, next_of(tk, e));
                        assert(ts[0] == tk[p0 as int]);
                        assert(ts.skip(1) =~= tk.subrange(p1 as int, e));
                        assert(spells_atom(tk.subrange(p1 as int, e), names, *a->Succ_0, next_of(tk, e)));
                    }
                }
                match inner {
                    Some(t) => {
                        assert(self.token@.subrange(p0 as int, self.pos as int).skip(1) =~= self.token@.subrange(
                            p1 as int,
                            self.pos as int,
                        ));
                        Some(Term::Succ(Box::new(t)))
                    },
                    None => None,
                }
            },
            Token::Pred => {
                self.next_token();
                let ghost p1 = self.pos;
                let inner = self.atom();
                proof {
                    assert forall|e: int, a: Term|
                        p0 <= e <= tk.len() && #[trigger] spells_atom(
                            tk.subrange(p0 as int, e),
                            names,
                            a,
                            next_of(tk, e),
                        ) implies inner is Some && self.pos == e by {
                        let ts = tk.subrange(p0 as int, e);
                        lemma_atom_cases(ts, names, a, next_of(tk, e));
                        assert(ts[0] == tk[p0 as int]);
                        assert(ts.skip(1) =~= tk.subrange(p1 as int, e));
                        assert(spells_atom(tk.subrange(p1 as int, e), names, *a->Pred_0, next_of(tk, e)));
                    }
                }
                match inner {
                    Some(t) => {
                        assert(self.token@.subrange(p0 as int, self.pos as int).skip(1) =~= self.token@.subrange(
                            p1 as int,
                            self.pos as int,
                        ));
                        Some(Term::Pred(Box::new(t)))
                    },
                    None => None,
                }
            },
            Token::IsZero => {
                self.next_token();
                let ghost p1 = self.pos;
                let inner = self.atom();
                proof {
                    assert forall|e: int, a: Term|
                        p0 <= e <= tk.len() && #[trigger] spells_atom(
                            tk.subrange(p0 as int, e),
                            names,
                            a,
                            next_of(tk, e),
                        ) implies inner is Some && self.pos == e by {
                        let ts = tk.subrange(p0 as int, e);
                        lemma_atom_cases(ts, names, a, next_of(tk, e));
                        assert(ts[0] == tk[p0 as int]);
                        assert(ts.skip(1) =~= tk.subrange(p1 as int, e));
                        assert(spells_atom(tk.subrange(p1 as int, e), names, *a->IsZero_0, next_of(tk, e)));
                    }
                }
                match inner {
                    Some(t) => {
                        assert(self.token@.subrange(p0 as int, self.pos as int).skip(1) =~= self.token@.subrange(
                            p1 as int,
                            self.pos as int,
                        ));
                        Some(Term::IsZero(Box::new(t)))
                    },
                    None => None,
                }
            },
            Token::Plus => {
                self.next_token();
                assert(self.token@.subrange(p0 as int, self.pos as int) =~= seq![Token::Plus]);
                proof {
                    assert forall|e: int, a: Term|
                        p0 <= e <= tk.len() && #[trigger] spells_atom(
                            tk.subrange(p0 as int, e),
                            names,
                            a,
                            next_of(tk, e),
                        ) implies e == p0 + 1 by {
                        lemma_atom_cases(tk.subrange(p0 as int, e), names, a, next_of(tk, e));
                        assert(tk.subrange(p0 as int, e)[0] == tk[p0 as int]);
                    }
                }
                let t = plus_term();
                proof {
                    lemma_well_scoped_mono(t, 0, k as int);
                }
                Some(t)
            },
            Token::Mult => {
                self.next_token();
                assert(self.token@.subrange(p0 as int, self.pos as int) =~= seq![Token::Mult]);
                proof {
                    assert forall|e: int, a: Term|
                        p0 <= e <= tk.len() && #[trigger] spells_atom(
                            tk.subrange(p0 as int, e),
                            names,
                            a,
                            next_of(tk, e),
                        ) implies e == p0 + 1 by {
                        lemma_atom_cases(tk.subrange(p0 as int, e), names, a, next_of(tk, e));
                        assert(tk.subrange(p0 as int, e)[0] == tk[p0 as int]);
                    }
                }
                let t = mult_term();
                proof {
                    lemma_well_scoped_mono(t, 0, k as int);
                }
                Some(t)
            },
            Token::Sub => {
                self.next_token();
                assert(self.token@.subrange(p0 as int, self.pos as int) =~= seq![Token::Sub]);
                proof {
                    assert forall|e: int, a: Term|
                        p0 <= e <= tk.len() && #[trigger] spells_atom(
                            tk.subrange(p0 as int, e),
                            names,
                            a,
                            next_of(tk, e),
                        ) implies e == p0 + 1 by {
                        lemma_atom_cases(tk.subrange(p0 as int, e), names, a, next_of(tk, e));
                        assert(tk.subrange(p0 as int, e)[0] == tk[p0 as int]);
                    }
                }
                let t = sub_term();
                proof {
                    lemma_well_scoped_mono(t, 0, k as int);
                }
                Some(t)
            },
            Token::True => {
                self.next_token();
                assert(self.token@.subrange(p0 as int, self.pos as int) =~= seq![Token::True]);
                proof {
                    assert forall|e: int, a: Term|
                        p0 <= e <= tk.len() && #[trigger] spells_atom(
                            tk.subrange(p0 as int, e),
                            names,
                            a,
                            next_of(tk, e),
                        ) implies e == p0 + 1 by {
                        lemma_atom_cases(tk.subrange(p0 as int, e), names, a, next_of(tk, e));
                        assert(tk.subrange(p0 as int, e)[0] == tk[p0 as int]);
                    }
                }
                Some(Term::True)
            },
            Token::False => {
                self.next_token();
                assert(self.token@.subrange(p0 as int, self.pos as int) =~= seq![Token::False]);
                proof {
                    assert forall|e: int, a: Term|
                        p0 <= e <= tk.len() && #[trigger] spells_atom(
                            tk.subrange(p0 as int, e),
                            names,
                            a,
                            next_of(tk, e),
                        ) implies e == p0 + 1 by {
                        lemma_atom_cases(tk.subrange(p0 as int, e), names, a, next_of(tk, e));
                        assert(tk.subrange(p0 as int, e)[0] == tk[p0 as int]);
                    }
                }
                Some(Term::False)
            },
            Token::Zero => {
                self.next_token();
                assert(self.token@.subrange(p0 as int, self.pos as int) =~= seq![Token::Zero]);
                proof {
                    assert forall|e: int, a: Term|
                        p0 <= e <= tk.len() && #[trigger] spells_atom(
                            tk.subrange(p0 as int, e),
                            names,
                            a,
                            next_of(tk, e),
                        ) implies e == p0 + 1 by {
                        lemma_atom_cases(tk.subrange(p0 as int, e), names, a, next_of(tk, e));
                        assert(tk.subrange(p0 as int, e)[0] == tk[p0 as int]);
                    }
                }
                Some(Term::Zero)
            },
            Token::If => {
                let r = self.if_then_expr();
                proof {
                    assert forall|e: int, a: Term|
                        p0 <= e <= tk.len() && #[trigger] spells_atom(
                            tk.subrange(p0 as int, e),
                            names,
                            a,
                            next_of(tk, e),
                        ) implies r is Some && self.pos == e by {
                        lemma_atom_cases(tk.subrange(p0 as int, e), names, a, next_of(tk, e));
                        assert(tk.subrange(p0 as int, e)[0] == tk[p0 as int]);
                        assert(spells_if(tk.subrange(p0 as int, e), names, a, next_of(tk, e)));
                    }
                }
                r
            },
            Token::Var(var_name) => {
                self.next_token();
                let found = self.ctx.name_to_index(var_name.as_str());
                proof {
                    assert forall|e: int, a: Term|
                        p0 <= e <= tk.len() && #[trigger] spells_atom(
                            tk.subrange(p0 as int, e),
                            names,
                            a,
                            next_of(tk, e),
                        ) implies found is Some && e == p0 + 1 by {
                        let ts = tk.subrange(p0 as int, e);
                        lemma_atom_cases(ts, names, a, next_of(tk, e));
                        assert(ts[0] == tk[p0 as int]);
                        let i = a->TmVar_0 as int;
                        assert(names[names.len() - 1 - i] == var_name@);
                    }
                }
                match found {
                    Some(idx) => {
                        assert(self.token@.subrange(p0 as int, self.pos as int) =~= seq![
                            Token::Var(var_name),
                        ]);
                        Some(Term::TmVar(idx, self.ctx.len()))
                    },
                    None => None,
                }
            },
            _ => {
                proof {
                    assert forall|e: int, a: Term|
                        p0 <= e <= tk.len() implies !spells_atom(
                        tk.subrange(p0 as int, e),
                        names,
                        a,
                        next_of(tk, e),
                    ) by {
                        if spells_atom(tk.subrange(p0 as int, e), names, a, next_of(tk, e)) {
                            lemma_atom_start(tk.subrange(p0 as int, e), names, a, next_of(tk, e));
                            assert(tk.subrange(p0 as int, e)[0] == tk[p0 as int]);
                        }
                    }
                }
                None
            },
        }
    }

    /// `if atom then atom [else atom]`, on the `if`.
    fn if_then_expr(&mut self) -> (r: Option<Term>)
        requires
            old(self).inv(),
            old(self).pos < old(self).token@.len(),
            old(self).token@[old(self).pos as int] == Token::If,
        ensures
            final(self).inv(),
            final(self).ctx@ == old(self).ctx@,
            final(self).token == old(self).token,
            old(self).pos < final(self).pos,
            r matches Some(t) ==> well_scoped(t, old(self).ctx@.len() as int),
            r matches Some(t) ==> spells_if(
                final(self).token@.subrange(old(self).pos as int, final(self).pos as int),
                old(self).ctx@,
                t,
                next_of(final(self).token@, final(self).pos as int),
            ),
            forall|e: int, t: Term|
                old(self).pos <= e <= old(self).token@.len() && #[trigger] spells_if(
                    old(self).token@.subrange(old(self).pos as int, e),
                    old(self).ctx@,
                    t,
                    next_of(old(self).token@, e),
                ) ==> r is Some && final(self).pos == e,
        decreases old(self).remaining(), 0nat,
    {
        let ghost p0 = self.pos;
        let ghost tk = self.token@;
        let ghost names = self.ctx@;
        self.next_token();
        let ghost p1 = self.pos;
        let cond = self.atom();
        let ghost q1 = self.pos;
        proof {
            assert forall|e: int, t: Term|
                p0 <= e <= tk.len() && #[trigger] spells_if(
                    tk.subrange(p0 as int, e),
                    names,
                    t,
                    next_of(tk, e),
                ) implies cond is Some && q1 == p0 + if_split(tk, names, p0 as int, e, t).0 by {
                lemma_if_split(tk, names, p0 as int, e, t);
            }
        }
        let cond = match cond {
            Some(t) => t,
            None => {
                return None;
            },
        };
        match self.current() {
            Some(Token::Then) => {},
            _ => {
                proof {
                    assert forall|e: int, t: Term|
                        p0 <= e <= tk.len() implies !spells_if(
                        tk.subrange(p0 as int, e),
                        names,
                        t,
                        next_of(tk, e),
                    ) by {
                        if spells_if(tk.subrange(p0 as int, e), names, t, next_of(tk, e)) {
                            lemma_if_split(tk, names, p0 as int, e, t);
                        }
                    }
                }
                return None;
            },
        }
        self.next_token();
        let ghost p2 = self.pos;
        let then_expr = self.atom();
        let ghost q2 = self.pos;
        proof {
            assert forall|e: int, t: Term|
                p0 <= e <= tk.len() && #[trigger] spells_if(
                    tk.subrange(p0 as int, e),
                    names,
                    t,
                    next_of(tk, e),
                ) implies then_expr is Some && q2 == p0 + if_split(tk, names, p0 as int, e, t).1 by {
                lemma_if_split(tk, names, p0 as int, e, t);
            }
        }
        let then_expr = match then_expr {
            Some(t) => t,
            None => {
                return None;
            },
        };
        match self.current() {
            Some(Token::Else) => {
                self.next_token();
                let ghost p3 = self.pos;
                let else_expr = self.atom();
                proof {
                    assert forall|e: int, t: Term|
                        p0 <= e <= tk.len() && #[trigger] spells_if(
                            tk.subrange(p0 as int, e),
                            names,
                            t,
                            next_of(tk, e),
                        ) implies else_expr is Some && self.pos == e by {
                        lemma_if_split(tk, names, p0 as int, e, t);
                    }
                }
                match else_expr {
                    Some(else_expr) => {
                        let ghost ts = self.token@.subrange(p0 as int, self.pos as int);
                        let ghost k1 = q1 - p0;
                        let ghost k2 = q2 - p0;
                        let ghost nx = next_of(self.token@, self.pos as int);
                        let r = Term::If(Box::new(cond), Box::new(then_expr), Some(Box::new(else_expr)));
                        assert(ts.subrange(1, k1) =~= self.token@.subrange(p1 as int, q1 as int));
                        assert(ts.subrange(k1 + 1, k2) =~= self.token@.subrange(p2 as int, q2 as int));
                        assert(ts.skip(k2 + 1) =~= self.token@.subrange(p3 as int, self.pos as int));
                        assert(ts[k1] == Token::Then && ts[k2] == Token::Else);
                        assert(if_parts(ts, names, r, nx, k1, k2));
                        Some(r)
                    },
                    None => None,
                }
            },
            _ => {
                let ghost ts = self.token@.subrange(p0 as int, self.pos as int);
                let ghost k1 = q1 - p0;
                let ghost k2 = q2 - p0;
                let ghost nx = next_of(self.token@, self.pos as int);
                let r = Term::If(Box::new(cond), Box::new(then_expr), None);
                proof {
                    assert forall|e: int, t: Term|
                        p0 <= e <= tk.len() && #[trigger] spells_if(
                            tk.subrange(p0 as int, e),
                            names,
                            t,
                            next_of(tk, e),
                        ) implies q2 == e by {
                        lemma_if_split(tk, names, p0 as int, e, t);
                    }
                }
                assert(ts.subrange(1, k1) =~= self.token@.subrange(p1 as int, q1 as int));
                assert(ts.subrange(k1 + 1, k2) =~= self.token@.subrange(p2 as int, q2 as int));
                assert(ts[k1] == Token::Then);
                assert(if_parts(ts, names, r, nx, k1, k2));
                Some(r)
            },
        }
    }

    /// Parses `if atom then atom [else atom]` from the current position, which must hold
    /// the `if`. The result is well scoped in the context, which is left as it was. When
    /// the tokens from there spell a conditional, parsing succeeds and reads them.
    pub fn parse_if_then_expr(&mut self) -> (r: Option<Term>)
        ensures
            final(self).scope() == old(self).scope(),
            final(self).tokens() == old(self).tokens(),
            old(self).position() <= final(self).position(),
            r matches Some(t) ==> well_scoped(t, old(self).scope().len() as int),
            r matches Some(t) ==> spells_if(
                old(self).tokens().subrange(
                    old(self).position() as int,
                    final(self).position() as int,
                ),
                old(self).scope(),
                t,
                next_of(old(self).tokens(), final(self).position() as int),
            ),
            forall|e: int, t: Term|
                old(self).position() <= e <= old(self).tokens().len() && old(self).scope().len()
                    + old(self).tokens().len() <= isize::MAX && #[trigger] spells_if(
                    old(self).tokens().subrange(old(self).position() as int, e),
                    old(self).scope(),
                    t,
                    next_of(old(self).tokens(), e),
                ) ==> r is Some && final(self).position() == e,
    {
        if !self.bounded() {
            return None;
        }
        match self.current() {
            Some(Token::If) => self.if_then_expr(),
            _ => {
                proof {
                    assert forall|e: int, t: Term|
                        self.pos <= e <= self.token@.len() implies !spells_if(
                        self.token@.subrange(self.pos as int, e),
                        self.ctx@,
                        t,
                        next_of(self.token@, e),
                    ) by {
                        if spells_if(self.token@.subrange(self.pos as int, e), self.ctx@, t, next_of(self.token@, e)) {
                            assert(self.token@.subrange(self.pos as int, e)[0]
                                == self.token@[self.pos as int]);
                        }
                    }
                }
                None
            },
        }
    }

    /// One or more atoms, applied left to right. Tokens read by an atom that fails are
    /// left unconsumed.
    fn application(&mut self) -> (r: Option<Term>)
        requires
            old(self).inv(),
        ensures
            final(self).inv(),
            final(self).ctx@ == old(self).ctx@,
            final(self).token == old(self).token,
            old(self).pos <= final(self).pos,
            r matches Some(t) ==> well_scoped(t, old(self).ctx@.len() as int),
            r matches Some(t) ==> spells_app(
                final(self).token@.subrange(old(self).pos as int, final(self).pos as int),
                old(self).ctx@,
                t,
                next_of(final(self).token@, final(self).pos as int),
            ),
            forall|q: int, t: Term|
                old(self).pos <= q <= old(self).token@.len() && may_end(old(self).token@, q)
                    && #[trigger] spells_app(
                    old(self).token@.subrange(old(self).pos as int, q),
                    old(self).ctx@,
                    t,
                    next_of(old(self).token@, q),
                ) ==> r is Some && final(self).pos == q,
        decreases old(self).remaining(), 2nat,
    {
        let ghost p0 = self.pos;
        let ghost tk = self.token@;
        let ghost names = self.ctx@;
        let first = self.atom();
        proof {
            assert forall|q: int| #[trigger] app_end(tk, names, p0 as int, q) implies first is Some
                && self.pos <= q && atoms(tk.subrange(self.pos as int, q), names, next_of(tk, q)) by {
                let t = choose|t: Term| spells_app(tk.subrange(p0 as int, q), names, t, next_of(tk, q));
                let ts = tk.subrange(p0 as int, q);
                lemma_app_atoms(ts, names, t, next_of(tk, q));
                let (k, a) = first_atom(ts, names, next_of(tk, q));
                assert(ts.take(k) =~= tk.subrange(p0 as int, p0 + k));
                assert(next_in(ts, k, next_of(tk, q)) == next_of(tk, p0 + k));
                assert(spells_atom(tk.subrange(p0 as int, p0 + k), names, a, next_of(tk, p0 + k)));
                assert(ts.skip(k) =~= tk.subrange(p0 + k, q));
            }
        }
        let mut lhs = match first {
            Some(t) => t,
            None => {
                proof {
                    assert forall|q: int, t: Term|
                        p0 <= q <= tk.len() && may_end(tk, q) implies !spells_app(
                        tk.subrange(p0 as int, q),
                        names,
                        t,
                        next_of(tk, q),
                    ) by {
                        if spells_app(tk.subrange(p0 as int, q), names, t, next_of(tk, q)) {
                            assert(app_end(tk, names, p0 as int, q));
                        }
                    }
                }
                return None;
            },
        };
        assert(spells_app(
            self.token@.subrange(p0 as int, self.pos as int),
            self.ctx@,
            lhs,
            next_of(self.token@, self.pos as int),
        ));
        loop
            invariant
                self.inv(),
                self.ctx@ == names,
                self.token@ == tk,
                self.token == old(self).token,
                tk == old(self).token@,
                names == old(self).ctx@,
                p0 == old(self).pos,
                p0 < self.pos,
                well_scoped(lhs, old(self).ctx@.len() as int),
                spells_app(
                    self.token@.subrange(p0 as int, self.pos as int),
                    self.ctx@,
                    lhs,
                    next_of(self.token@, self.pos as int),
                ),
                forall|q: int| #[trigger]
                    app_end(tk, names, p0 as int, q) ==> self.pos <= q && atoms(
                        tk.subrange(self.pos as int, q),
                        names,
                        next_of(tk, q),
                    ),
            decreases self.remaining(),
        {
            let p1 = self.pos;
            match self.atom() {
                Some(rhs) => {
                    let ghost ts = self.token@.subrange(p0 as int, self.pos as int);
                    let ghost k = p1 - p0;
                    let ghost prev = lhs;
                    assert(ts.take(k) =~= self.token@.subrange(p0 as int, p1 as int));
                    assert(ts.skip(k) =~= self.token@.subrange(p1 as int, self.pos as int));
                    assert(ts[k] == tk[p1 as int]);
                    assert(spells_app(ts.take(k), self.ctx@, prev, Some(ts[k])));
                    proof {
                        let p2 = self.pos;
                        lemma_atom_start(
                            tk.subrange(p1 as int, p2 as int),
                            names,
                            rhs,
                            next_of(tk, p2 as int),
                        );
                        assert(tk.subrange(p1 as int, p2 as int)[0] == tk[p1 as int]);
                        assert forall|q: int| #[trigger]
                            app_end(tk, names, p0 as int, q) implies p2 <= q && atoms(
                            tk.subrange(p2 as int, q),
                            names,
                            next_of(tk, q),
                        ) by {
                            let us = tk.subrange(p1 as int, q);
                            assert(us.len() > 0);
                            let (j, b) = first_atom(us, names, next_of(tk, q));
                            assert(us.take(j) =~= tk.subrange(p1 as int, p1 + j));
                            assert(next_in(us, j, next_of(tk, q)) == next_of(tk, p1 + j));
                            assert(spells_atom(tk.subrange(p1 as int, p1 + j), names, b, next_of(tk, p1 + j)));
                            assert(us.skip(j) =~= tk.subrange(p1 + j, q));
                        }
                    }
                    lhs = Term::TmApp(Box::new(lhs), Box::new(rhs));
                    assert(spells_app(ts, self.ctx@, lhs, next_of(self.token@, self.pos as int)));
                },
                None => {
                    self.pos = p1;
                    proof {
                        assert forall|q: int, t: Term|
                            p0 <= q <= tk.len() && may_end(tk, q) && #[trigger] spells_app(
                                tk.subrange(p0 as int, q),
                                names,
                                t,
                                next_of(tk, q),
                            ) implies p1 == q by {
                            assert(app_end(tk, names, p0 as int, q));
                            if p1 < q {
                                let us = tk.subrange(p1 as int, q);
                                let (j, b) = first_atom(us, names, next_of(tk, q));
                                assert(us.take(j) =~= tk.subrange(p1 as int, p1 + j));
                                assert(next_in(us, j, next_of(tk, q)) == next_of(tk, p1 + j));
                                assert(spells_atom(tk.subrange(p1 as int, p1 + j), names, b, next_of(tk, p1 + j)));
                            }
                        }
                    }
                    return Some(lhs);
                },
            }
        }
    }

    /// Parses a term from the current position. A variable must be bound by an enclosing
    /// `λ` or by the context; the result is well scoped in the context, which is left as
    /// it was. When the remaining tokens spell a term, parsing succeeds and reads them all.
    pub fn parse(&mut self) -> (r: Option<Term>)
        ensures
            final(self).scope() == old(self).scope(),
            final(self).tokens() == old(self).tokens(),
            old(self).position() <= final(self).position(),
            r matches Some(t) ==> well_scoped(t, old(self).scope().len() as int),
            r matches Some(t) ==> spells_term(
                old(self).tokens().subrange(
                    old(self).position() as int,
                    final(self).position() as int,
                ),
                old(self).scope(),
                t,
                next_of(old(self).tokens(), final(self).position() as int),
            ),
            forall|t: Term|
                old(self).position() <= old(self).tokens().len() && old(self).scope().len()
                    + old(self).tokens().len() <= isize::MAX && #[trigger] spells_term(
                    old(self).tokens().subrange(
                        old(self).position() as int,
                        old(self).tokens().len() as int,
                    ),
                    old(self).scope(),
                    t,
                    None,
                ) ==> r is Some && final(self).position() == old(self).tokens().len(),
    {
        if !self.bounded() {
            return None;
        }
        let r = self.term();
        proof {
            assert(next_of(self.token@, self.token@.len() as int) == None::<Token>);
        }
        r
    }

    /// Whether the invariant of the parser holds.
    fn bounded(&self) -> (r: bool)
        ensures
            r == self.inv(),
    {
        if self.pos > self.token.len() {
            return false;
        }
        let depth = self.ctx.count();
        depth <= isize::MAX as usize && self.token.len() - self.pos <= isize::MAX as usize - depth
    }
}

} // verus!
