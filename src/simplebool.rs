//! The simply typed lambda calculus with booleans: terms, typed contexts, type checking.
pub mod parser;

use vstd::prelude::*;

use crate::names::{fresh_name, lemma_fresh_name_is_fresh, lemma_max_len, max_len};

verus! {

/// `Bool`, or a function type `domain -> range`.
#[derive(Debug)]
pub enum Type {
    TyArr(Box<Type>, Box<Type>),
    TyBool,
}

/// Structural equality of types.
fn same_type(a: &Type, b: &Type) -> (r: bool)
    ensures
        r == (*a == *b),
    decreases a,
{
    match (a, b) {
        (Type::TyBool, Type::TyBool) => true,
        (Type::TyArr(d1, r1), Type::TyArr(d2, r2)) => same_type(d1, d2) && same_type(r1, r2),
        _ => false,
    }
}

impl PartialEq for Type {
    fn eq(&self, o: &Type) -> (r: bool) {
        same_type(self, o)
    }
}

impl vstd::std_specs::cmp::PartialEqSpecImpl for Type {
    open spec fn obeys_eq_spec() -> bool {
        true
    }

    open spec fn eq_spec(&self, o: &Type) -> bool {
        *self == *o
    }
}

impl Clone for Type {
    fn clone(&self) -> (r: Self)
        ensures
            r == *self,
        decreases self,
    {
        match self {
            Type::TyArr(d, r) => Type::TyArr(Box::new((**d).clone()), Box::new((**r).clone())),
            Type::TyBool => Type::TyBool,
        }
    }
}

/// The names and declared types of the binders in scope, outermost first.
#[derive(Debug)]
pub struct Context {
    contexts: Vec<(String, Type)>,
}

impl View for Context {
    type V = Seq<(Seq<char>, Type)>;

    closed spec fn view(&self) -> Seq<(Seq<char>, Type)> {
        self.contexts@.map_values(|p: (String, Type)| (p.0@, p.1))
    }
}

/// The binder names of a typed context.
pub open spec fn names_of(ctx: Seq<(Seq<char>, Type)>) -> Seq<Seq<char>> {
    ctx.map_values(|p: (Seq<char>, Type)| p.0)
}

/// The declared types of a typed context.
pub open spec fn types_of(ctx: Seq<(Seq<char>, Type)>) -> Seq<Type> {
    ctx.map_values(|p: (Seq<char>, Type)| p.1)
}

impl Context {
    /// The empty context.
    pub fn new() -> (r: Context)
        ensures
            r@ == Seq::<(Seq<char>, Type)>::empty(),
    {
        let r = Context { contexts: Vec::new() };
        proof {
            assert(r@ =~= Seq::<(Seq<char>, Type)>::empty());
        }
        r
    }

    fn contains_name(&self, name: &String) -> (r: bool)
        ensures
            r == names_of(self@).contains(name@),
    {
        let mut i: usize = 0;
        while i < self.contexts.len()
            invariant
                i <= self.contexts@.len(),
                forall|j: int| 0 <= j < i ==> names_of(self@)[j] != name@,
            decreases self.contexts@.len() - i,
        {
            if self.contexts[i].0 == *name {
                assert(names_of(self@)[i as int] == name@);
                return true;
            }
            i = i + 1;
        }
        proof {
            if names_of(self@).contains(name@) {
                let j = choose|j: int|
                    0 <= j < names_of(self@).len() && names_of(self@)[j] == name@;
                assert(names_of(self@)[j] != name@);
            }
        }
        false
    }

    /// A copy of this context with `name` bound innermost, as it is written, with type `ty`.
    pub fn bind(&self, name: &str, ty: Type) -> (r: Context)
        ensures
            r@ == self@.push((name@, ty)),
    {
        self.extended(name.to_owned(), ty)
    }

    fn extended(&self, name: String, ty: Type) -> (r: Context)
        ensures
            r@ == self@.push((name@, ty)),
    {
        let mut contexts: Vec<(String, Type)> = Vec::new();
        let mut i: usize = 0;
        while i < self.contexts.len()
            invariant
                i <= self.contexts@.len(),
                contexts@.len() == i,
                forall|j: int|
                    0 <= j < i ==> contexts@[j].0@ == self.contexts@[j].0@ && contexts@[j].1
                        == self.contexts@[j].1,
            decreases self.contexts@.len() - i,
        {
            contexts.push((self.contexts[i].0.clone(), self.contexts[i].1.clone()));
            i = i + 1;
        }
        contexts.push((name.clone(), ty));
        let r = Context { contexts };
        proof {
            assert(r@ =~= self@.push((name@, ty)));
        }
        r
    }

    /// Binds `x` with type `ty` innermost, primed until it differs from every name in
    /// scope. Returns the extended context and the name chosen.
    pub fn pick_fresh_name(&self, x: &str, ty: Type) -> (r: (Context, String))
        ensures
            r.1@ == fresh_name(names_of(self@), x@),
            !names_of(self@).contains(r.1@),
            r.0@ == self@.push((r.1@, ty)),
    {
        proof {
            lemma_fresh_name_is_fresh(names_of(self@), x@);
        }
        let mut name = x.to_owned();
        while self.contains_name(&name)
            invariant
                fresh_name(names_of(self@), name@) == fresh_name(names_of(self@), x@),
            decreases max_len(names_of(self@)) + 1 - name@.len(),
        {
            let ghost prev = name@;
            proof {
                lemma_max_len(names_of(self@), name@);
                reveal_strlit("'");
                assert("'"@ =~= seq!['\'']);
            }
            name.append("'");
            assert(name@ == prev + seq!['\'']);
        }
        let r = self.extended(name.clone(), ty);
        (r, name)
    }

    /// The de Bruijn index of the innermost binder named `name`, if any.
    pub fn name_to_index(&self, name: &str) -> (r: Option<isize>)
        requires
            self@.len() <= isize::MAX,
        ensures
            r is Some <==> names_of(self@).contains(name@),
            r matches Some(k) ==> {
                let p = self@.len() - 1 - k;
                &&& 0 <= k < self@.len()
                &&& self@[p].0 == name@
                &&& forall|j: int| p < j < self@.len() ==> self@[j].0 != name@
            },
    {
        let target = name.to_owned();
        let n = self.contexts.len();
        let mut k: usize = 0;
        while k < n
            invariant
                n == self@.len(),
                k <= n,
                n <= isize::MAX,
                target@ == name@,
                forall|j: int| n - k <= j < n ==> self@[j].0 != name@,
            decreases n - k,
        {
            let p = n - 1 - k;
            if self.contexts[p].0 == target {
                assert(self@[p as int].0 == name@);
                assert(names_of(self@)[p as int] == name@);
                return Some(k as isize);
            }
            k = k + 1;
        }
        proof {
            if names_of(self@).contains(name@) {
                let j = choose|j: int| 0 <= j < self@.len() && names_of(self@)[j] == name@;
                assert(self@[j].0 != name@);
            }
        }
        None
    }

    /// The name of the binder with de Bruijn index `idx`, if it is in scope.
    pub fn index_to_name(&self, idx: isize) -> (r: Option<String>)
        ensures
            r is Some <==> 0 <= idx < self@.len(),
            r matches Some(s) ==> s@ == self@[self@.len() - 1 - idx].0,
    {
        let con_len = self.contexts.len();
        if 0 <= idx && (idx as usize) < con_len {
            Some(self.contexts[con_len - 1 - idx as usize].0.clone())
        } else {
            None
        }
    }

    /// The declared type of the binder with de Bruijn index `idx`, if it is in scope.
    pub fn get_type(&self, idx: isize) -> (r: Option<Type>)
        ensures
            r is Some <==> 0 <= idx < self@.len(),
            r matches Some(ty) ==> ty == self@[self@.len() - 1 - idx].1,
    {
        let con_len = self.contexts.len();
        if 0 <= idx && (idx as usize) < con_len {
            Some(self.contexts[con_len - 1 - idx as usize].1.clone())
        } else {
            None
        }
    }

    /// The number of binders in scope, as a `usize`.
    pub fn count(&self) -> (r: usize)
        ensures
            r == self@.len(),
    {
        self.contexts.len()
    }

    /// The number of binders in scope.
    pub fn len(&self) -> (r: isize)
        requires
            self@.len() <= isize::MAX,
        ensures
            r == self@.len(),
    {
        self.contexts.len() as isize
    }
}

/// A term of the simply typed lambda calculus; abstractions declare their argument type.
#[derive(Debug)]
pub enum Term {
    TmVar(isize, isize),
    TmAbs(String, Type, Box<Term>),
    TmApp(Box<Term>, Box<Term>),
    TmTrue,
    TmFalse,
    TmIf(Box<Term>, Box<Term>, Box<Term>),
}

/// Every variable index is at least 0 and below the number of binders around it
/// plus `k`: the term is well scoped in a context of `k` binders.
pub open spec fn well_scoped(t: Term, k: int) -> bool
    decreases t,
{
    match t {
        Term::TmVar(i, _) => 0 <= i < k,
        Term::TmAbs(_, _, b) => well_scoped(*b, k + 1),
        Term::TmApp(f, a) => well_scoped(*f, k) && well_scoped(*a, k),
        Term::TmIf(c, a, b) => well_scoped(*c, k) && well_scoped(*a, k) && well_scoped(*b, k),
        _ => true,
    }
}

/// No typing rule derives a type for the term.
#[derive(Debug, PartialEq, Eq, Structural)]
pub enum TypeError {
    TyErr,
}

/// The typing judgment in a context of declared types, innermost last.
pub open spec fn type_in(ctx: Seq<Type>, t: Term) -> Result<Type, TypeError>
    decreases t,
{
    match t {
        Term::TmVar(i, _) => if 0 <= i < ctx.len() {
            Ok(ctx[ctx.len() - 1 - i])
        } else {
            Err(TypeError::TyErr)
        },
        Term::TmAbs(_, ty, b) => match type_in(ctx.push(ty), *b) {
            Ok(tb) => Ok(Type::TyArr(Box::new(ty), Box::new(tb))),
            Err(err) => Err(err),
        },
        Term::TmApp(f, a) => match (type_in(ctx, *f), type_in(ctx, *a)) {
            (Ok(Type::TyArr(d, r)), Ok(ta)) => if *d == ta {
                Ok(*r)
            } else {
                Err(TypeError::TyErr)
            },
            _ => Err(TypeError::TyErr),
        },
        Term::TmTrue | Term::TmFalse => Ok(Type::TyBool),
        Term::TmIf(c, a, b) => match (type_in(ctx, *c), type_in(ctx, *a), type_in(ctx, *b)) {
            (Ok(Type::TyBool), Ok(ta), Ok(tb)) => if ta == tb {
                Ok(ta)
            } else {
                Err(TypeError::TyErr)
            },
            _ => Err(TypeError::TyErr),
        },
    }
}

/// The type of `t` in `ctx`: variables take their declared type, an abstraction
/// `λx:T. b` has type `T -> B` where `b : B` under the extended context, an
/// application needs a function type whose domain is exactly the argument's type,
/// and both branches of an `if` on a boolean must have the same type.
pub fn type_of(t: &Term, ctx: &Context) -> (r: Result<Type, TypeError>)
    ensures
        r == type_in(types_of(ctx@), *t),
    decreases t,
{
    match t {
        Term::TmVar(id, _) => match ctx.get_type(*id) {
            Some(ty) => Ok(ty),
            None => Err(TypeError::TyErr),
        },
        Term::TmApp(term1, term2) => {
            let ty1 = match type_of(term1, ctx) {
                Ok(ty) => ty,
                Err(_) => {
                    return Err(TypeError::TyErr);
                },
            };
            let ty2 = match type_of(term2, ctx) {
                Ok(ty) => ty,
                Err(_) => {
                    return Err(TypeError::TyErr);
                },
            };
            match ty1 {
                Type::TyArr(type1, type2) => {
                    if same_type(&type1, &ty2) {
                        Ok(*type2)
                    } else {
                        Err(TypeError::TyErr)
                    }
                },
                _ => Err(TypeError::TyErr),
            }
        },
        Term::TmAbs(name, ty, term1) => {
            let (ctx1, _name) = ctx.pick_fresh_name(name.as_str(), ty.clone());
            proof {
                assert(types_of(ctx1@) =~= types_of(ctx@).push(*ty));
            }
            match type_of(term1, &ctx1) {
                Ok(tb) => Ok(Type::TyArr(Box::new(ty.clone()), Box::new(tb))),
                Err(err) => Err(err),
            }
        },
        Term::TmTrue | Term::TmFalse => Ok(Type::TyBool),
        Term::TmIf(t1, t2, t3) => {
            match type_of(t1, ctx) {
                Ok(Type::TyBool) => {},
                _ => {
                    return Err(TypeError::TyErr);
                },
            }
            let ty2 = match type_of(t2, ctx) {
                Ok(ty) => ty,
                Err(_) => {
                    return Err(TypeError::TyErr);
                },
            };
            let ty3 = match type_of(t3, ctx) {
                Ok(ty) => ty,
                Err(_) => {
                    return Err(TypeError::TyErr);
                },
            };
            if same_type(&ty2, &ty3) {
                Ok(ty2)
            } else {
                Err(TypeError::TyErr)
            }
        },
    }
}

/// The text of a type: `Bool`, or `(domain -> range)`.
pub open spec fn type_text(ty: Type) -> Seq<char>
    decreases ty,
{
    match ty {
        Type::TyBool => seq!['B', 'o', 'o', 'l'],
        Type::TyArr(d, r) => seq!['('] + type_text(*d) + seq![' ', '-', '>', ' '] + type_text(*r)
            + seq![')'],
    }
}

/// The text of a term in a context: an abstraction shows the fresh name it binds and its
/// declared type, `(λ x: T. body)`; a variable shows the name of its binder;
/// `(f a)`; `(if c a b)`. `None` when a variable is not in scope.
pub open spec fn term_text(ctx: Seq<(Seq<char>, Type)>, t: Term) -> Option<Seq<char>>
    decreases t,
{
    match t {
        Term::TmAbs(x, ty, b) => {
            let n = fresh_name(names_of(ctx), x@);
            match term_text(ctx.push((n, ty)), *b) {
                Some(body) => Some(seq!['(', 'λ', ' '] + n + seq![':', ' '] + type_text(ty) + seq![
                    '.',
                    ' ',
                ] + body + seq![')']),
                None => None,
            }
        },
        Term::TmApp(f, a) => match (term_text(ctx, *f), term_text(ctx, *a)) {
            (Some(tf), Some(ta)) => Some(seq!['('] + tf + seq![' '] + ta + seq![')']),
            _ => None,
        },
        Term::TmVar(i, _) => if 0 <= i < ctx.len() {
            Some(ctx[ctx.len() - 1 - i].0)
        } else {
            None
        },
        Term::TmTrue => Some(seq!['t', 'r', 'u', 'e']),
        Term::TmFalse => Some(seq!['f', 'a', 'l', 's', 'e']),
        Term::TmIf(c, a, b) => match (term_text(ctx, *c), term_text(ctx, *a), term_text(ctx, *b)) {
            (Some(tc), Some(ta), Some(tb)) => Some(seq!['(', 'i', 'f', ' '] + tc + seq![' '] + ta
                + seq![' '] + tb + seq![')']),
            _ => None,
        },
    }
}

impl Type {
    /// The text of the type, e.g. `(Bool -> Bool)`.
    pub fn to_text(&self) -> (r: String)
        ensures
            r@ == type_text(*self),
        decreases self,
    {
        proof {
            reveal_strlit("Bool");
            reveal_strlit("(");
            reveal_strlit(" -> ");
            reveal_strlit(")");
        }
        match self {
            Type::TyBool => "Bool".to_owned(),
            Type::TyArr(d, r) => {
                let mut out = "(".to_owned();
                let td = d.to_text();
                out.append(td.as_str());
                out.append(" -> ");
                let tr = r.to_text();
                out.append(tr.as_str());
                out.append(")");
                assert(out@ =~= type_text(*self));
                out
            },
        }
    }
}

/// A term together with the context its variables refer to, for display.
pub struct ContextTerm<'a> {
    context: &'a Context,
    term: &'a Term,
}

impl<'a> ContextTerm<'a> {
    /// Pairs `t` with the context `ctx`.
    pub fn new(ctx: &'a Context, t: &'a Term) -> (r: Self)
        ensures
            r.context() == ctx@,
            r.term() == *t,
    {
        ContextTerm { context: ctx, term: t }
    }

    /// The context.
    pub closed spec fn context(&self) -> Seq<(Seq<char>, Type)> {
        self.context@
    }

    /// The term.
    pub closed spec fn term(&self) -> Term {
        *self.term
    }

    /// The text of the term, binders named afresh against the context; `None` when a
    /// variable is out of scope.
    pub fn to_text(&self) -> (r: Option<String>)
        ensures
            r is Some <==> term_text(self.context(), self.term()) is Some,
            r matches Some(s) ==> s@ == term_text(self.context(), self.term())->Some_0,
    {
        term_to_text(self.context, self.term)
    }
}

fn term_to_text(ctx: &Context, t: &Term) -> (r: Option<String>)
    ensures
        r is Some <==> term_text(ctx@, *t) is Some,
        r matches Some(s) ==> s@ == term_text(ctx@, *t)->Some_0,
    decreases t,
{
    proof {
        reveal_strlit("(λ ");
        reveal_strlit(": ");
        reveal_strlit(". ");
        reveal_strlit("(");
        reveal_strlit(")");
        reveal_strlit(" ");
        reveal_strlit("true");
        reveal_strlit("false");
        reveal_strlit("(if ");
    }
    match t {
        Term::TmAbs(x, ty, b) => {
            let (ctx1, name) = ctx.pick_fresh_name(x.as_str(), ty.clone());
            let body = match term_to_text(&ctx1, b) {
                Some(body) => body,
                None => {
                    return None;
                },
            };
            let mut out = "(λ ".to_owned();
            out.append(name.as_str());
            out.append(": ");
            let tt = ty.to_text();
            out.append(tt.as_str());
            out.append(". ");
            out.append(body.as_str());
            out.append(")");
            assert(out@ =~= term_text(ctx@, *t)->Some_0);
            Some(out)
        },
        Term::TmApp(f, a) => {
            let tf = match term_to_text(ctx, f) {
                Some(s) => s,
                None => {
                    return None;
                },
            };
            let ta = match term_to_text(ctx, a) {
                Some(s) => s,
                None => {
                    return None;
                },
            };
            let mut out = "(".to_owned();
            out.append(tf.as_str());
            out.append(" ");
            out.append(ta.as_str());
            out.append(")");
            assert(out@ =~= term_text(ctx@, *t)->Some_0);
            Some(out)
        },
        Term::TmVar(idx, _) => ctx.index_to_name(*idx),
        Term::TmTrue => Some("true".to_owned()),
        Term::TmFalse => Some("false".to_owned()),
        Term::TmIf(c, a, b) => {
            let tc = match term_to_text(ctx, c) {
                Some(s) => s,
                None => {
                    return None;
                },
            };
            let ta = match term_to_text(ctx, a) {
                Some(s) => s,
                None => {
                    return None;
                },
            };
            let tb = match term_to_text(ctx, b) {
                Some(s) => s,
                None => {
                    return None;
                },
            };
            let mut out = "(if ".to_owned();
            out.append(tc.as_str());
            out.append(" ");
            out.append(ta.as_str());
            out.append(" ");
            out.append(tb.as_str());
            out.append(")");
            assert(out@ =~= term_text(ctx@, *t)->Some_0);
            Some(out)
        },
    }
}

} // verus!
