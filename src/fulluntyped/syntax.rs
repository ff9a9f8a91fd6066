//! Nameless terms, binder contexts, and the shift and substitution engine.
use vstd::prelude::*;

use crate::names::{fresh_name, lemma_fresh_name_is_fresh, lemma_max_len, max_len};

verus! {

/// A nameless term. `TmVar(index, depth)` refers to the binder `index` levels out and
/// records the binder depth at which it occurs; the name in `TmAbs` is only for display.
#[derive(Debug, PartialEq)]
pub enum Term {
    True,
    False,
    Zero,
    Number(u64),
    IsZero(Box<Term>),
    If(Box<Term>, Box<Term>, Option<Box<Term>>),
    Succ(Box<Term>),
    Pred(Box<Term>),
    TmVar(isize, isize),
    TmAbs(String, Box<Term>),
    TmApp(Box<Term>, Box<Term>),
}

impl Clone for Term {
    fn clone(&self) -> (r: Self)
        ensures
            r == *self,
        decreases self,
    {
        match self {
            Term::True => Term::True,
            Term::False => Term::False,
            Term::Zero => Term::Zero,
            Term::Number(n) => Term::Number(*n),
            Term::IsZero(a) => Term::IsZero(Box::new((**a).clone())),
            Term::If(g, a, b) => {
                let b2 = match b {
                    Some(e) => Some(Box::new((**e).clone())),
                    None => None,
                };
                Term::If(Box::new((**g).clone()), Box::new((**a).clone()), b2)
            },
            Term::Succ(a) => Term::Succ(Box::new((**a).clone())),
            Term::Pred(a) => Term::Pred(Box::new((**a).clone())),
            Term::TmVar(i, n) => Term::TmVar(*i, *n),
            Term::TmAbs(x, b) => Term::TmAbs(x.clone(), Box::new((**b).clone())),
            Term::TmApp(f, a) => Term::TmApp(Box::new((**f).clone()), Box::new((**a).clone())),
        }
    }
}

/// Why evaluation stopped short of a normal form, or why a term takes no step.
#[derive(Debug)]
pub enum EvalError {
    /// No reduction rule applies to this (sub)term.
    NoRule(Term),
    /// This `If` has a false condition and no else-branch.
    NoElse(Term),
    /// The step budget ran out; the term reached so far.
    OutOfSteps(Term),
    /// A de Bruijn index or depth in this term would leave the range of `isize`.
    IndexOverflow(Term),
}

/// `x` is representable as an `isize`.
pub open spec fn fits(x: int) -> bool {
    isize::MIN <= x <= isize::MAX
}

/// `shift_walk(d, c, t)`: free variables (index at least the cutoff, which grows by one
/// under each binder) move by `d`; every variable's depth moves by `d`.
pub open spec fn shifted(d: int, c: int, t: Term) -> Term
    decreases t,
{
    match t {
        Term::TmVar(i, n) => if i >= c {
            Term::TmVar((i + d) as isize, (n + d) as isize)
        } else {
            Term::TmVar(i, (n + d) as isize)
        },
        Term::TmAbs(x, b) => Term::TmAbs(x, Box::new(shifted(d, c + 1, *b))),
        Term::TmApp(f, a) => Term::TmApp(Box::new(shifted(d, c, *f)), Box::new(shifted(d, c, *a))),
        Term::IsZero(a) => Term::IsZero(Box::new(shifted(d, c, *a))),
        Term::Succ(a) => Term::Succ(Box::new(shifted(d, c, *a))),
        Term::Pred(a) => Term::Pred(Box::new(shifted(d, c, *a))),
        Term::If(g, a, b) => Term::If(
            Box::new(shifted(d, c, *g)),
            Box::new(shifted(d, c, *a)),
            match b {
                Some(e) => Some(Box::new(shifted(d, c, *e))),
                None => None,
            },
        ),
        _ => t,
    }
}

/// Every index, depth and cutoff that `shift_walk(d, c, t)` computes fits in an `isize`.
pub open spec fn shift_ok(d: int, c: int, t: Term) -> bool
    decreases t,
{
    match t {
        Term::TmVar(i, n) => fits(n + d) && (i >= c ==> fits(i + d)),
        Term::TmAbs(_, b) => c < isize::MAX && shift_ok(d, c + 1, *b),
        Term::TmApp(f, a) => shift_ok(d, c, *f) && shift_ok(d, c, *a),
        Term::IsZero(a) => shift_ok(d, c, *a),
        Term::Succ(a) => shift_ok(d, c, *a),
        Term::Pred(a) => shift_ok(d, c, *a),
        Term::If(g, a, b) => shift_ok(d, c, *g) && shift_ok(d, c, *a) && match b {
            Some(e) => shift_ok(d, c, *e),
            None => true,
        },
        _ => true,
    }
}

/// `subst_walk(j, s, c, t)`: under `c` extra binders, variable `j + c` is replaced by `s`
/// shifted up by `c`.
pub open spec fn substituted(j: int, s: Term, c: int, t: Term) -> Term
    decreases t,
{
    match t {
        Term::TmVar(i, _) => if i == j + c {
            shifted(c, 0, s)
        } else {
            t
        },
        Term::TmAbs(x, b) => Term::TmAbs(x, Box::new(substituted(j, s, c + 1, *b))),
        Term::TmApp(f, a) => Term::TmApp(
            Box::new(substituted(j, s, c, *f)),
            Box::new(substituted(j, s, c, *a)),
        ),
        Term::IsZero(a) => Term::IsZero(Box::new(substituted(j, s, c, *a))),
        Term::Succ(a) => Term::Succ(Box::new(substituted(j, s, c, *a))),
        Term::Pred(a) => Term::Pred(Box::new(substituted(j, s, c, *a))),
        Term::If(g, a, b) => Term::If(
            Box::new(substituted(j, s, c, *g)),
            Box::new(substituted(j, s, c, *a)),
            match b {
                Some(e) => Some(Box::new(substituted(j, s, c, *e))),
                None => None,
            },
        ),
        _ => t,
    }
}

/// Every index and cutoff that `subst_walk(j, s, c, t)` computes fits in an `isize`.
pub open spec fn subst_ok(j: int, s: Term, c: int, t: Term) -> bool
    decreases t,
{
    match t {
        Term::TmVar(i, _) => fits(j + c) && (i == j + c ==> shift_ok(c, 0, s)),
        Term::TmAbs(_, b) => c < isize::MAX && subst_ok(j, s, c + 1, *b),
        Term::TmApp(f, a) => subst_ok(j, s, c, *f) && subst_ok(j, s, c, *a),
        Term::IsZero(a) => subst_ok(j, s, c, *a),
        Term::Succ(a) => subst_ok(j, s, c, *a),
        Term::Pred(a) => subst_ok(j, s, c, *a),
        Term::If(g, a, b) => subst_ok(j, s, c, *g) && subst_ok(j, s, c, *a) && match b {
            Some(e) => subst_ok(j, s, c, *e),
            None => true,
        },
        _ => true,
    }
}

/// Beta-substitution of `s` for the outermost bound variable of `t`:
/// shift `s` up by one, substitute it for variable 0, then shift the result down by one.
pub open spec fn subst_top(s: Term, t: Term) -> Term {
    shifted(-1, 0, substituted(0, shifted(1, 0, s), 0, t))
}

/// All three passes of [`subst_top`] stay within the range of `isize`.
pub open spec fn subst_top_ok(s: Term, t: Term) -> bool {
    &&& shift_ok(1, 0, s)
    &&& subst_ok(0, shifted(1, 0, s), 0, t)
    &&& shift_ok(-1, 0, substituted(0, shifted(1, 0, s), 0, t))
}

fn add_fits(a: isize, b: isize) -> (r: bool)
    ensures
        r == fits(a + b),
{
    let v: i128 = a as i128 + b as i128;
    isize::MIN as i128 <= v && v <= isize::MAX as i128
}

/// Decides [`shift_ok`].
pub fn shift_fits(d: isize, c: isize, t: &Term) -> (r: bool)
    ensures
        r == shift_ok(d as int, c as int, *t),
    decreases t,
{
    match t {
        Term::TmVar(i, n) => add_fits(*n, d) && (*i < c || add_fits(*i, d)),
        Term::TmAbs(_, b) => c < isize::MAX && shift_fits(d, c + 1, b),
        Term::TmApp(f, a) => shift_fits(d, c, f) && shift_fits(d, c, a),
        Term::IsZero(a) => shift_fits(d, c, a),
        Term::Succ(a) => shift_fits(d, c, a),
        Term::Pred(a) => shift_fits(d, c, a),
        Term::If(g, a, b) => shift_fits(d, c, g) && shift_fits(d, c, a) && match b {
            Some(e) => shift_fits(d, c, e),
            None => true,
        },
        _ => true,
    }
}

/// Shifts the free variables of `t` (those at or above cutoff `c`) by `d`.
fn shift_walk(d: isize, c: isize, t: &Term) -> (r: Term)
    requires
        shift_ok(d as int, c as int, *t),
    ensures
        r == shifted(d as int, c as int, *t),
    decreases t,
{
    match t {
        Term::TmVar(idx, n) => {
            if *idx >= c {
                Term::TmVar(*idx + d, *n + d)
            } else {
                Term::TmVar(*idx, *n + d)
            }
        },
        Term::TmAbs(name, term) => Term::TmAbs(name.clone(), Box::new(shift_walk(d, c + 1, term))),
        Term::TmApp(f, a) => Term::TmApp(
            Box::new(shift_walk(d, c, f)),
            Box::new(shift_walk(d, c, a)),
        ),
        Term::IsZero(a) => Term::IsZero(Box::new(shift_walk(d, c, a))),
        Term::Succ(a) => Term::Succ(Box::new(shift_walk(d, c, a))),
        Term::Pred(a) => Term::Pred(Box::new(shift_walk(d, c, a))),
        Term::If(g, a, b) => {
            let b2 = match b {
                Some(e) => Some(Box::new(shift_walk(d, c, e))),
                None => None,
            };
            Term::If(Box::new(shift_walk(d, c, g)), Box::new(shift_walk(d, c, a)), b2)
        },
        Term::True => Term::True,
        Term::False => Term::False,
        Term::Zero => Term::Zero,
        Term::Number(k) => Term::Number(*k),
    }
}

/// Shifts the free variables of `t` by `d`.
pub fn shift(d: isize, t: &Term) -> (r: Term)
    requires
        shift_ok(d as int, 0, *t),
    ensures
        r == shifted(d as int, 0, *t),
{
    shift_walk(d, 0, t)
}

/// Decides [`subst_ok`].
pub fn subst_fits(j: isize, s: &Term, c: isize, t: &Term) -> (r: bool)
    ensures
        r == subst_ok(j as int, *s, c as int, *t),
    decreases t,
{
    match t {
        Term::TmVar(i, _) => add_fits(j, c) && (*i != j + c || shift_fits(c, 0, s)),
        Term::TmAbs(_, b) => c < isize::MAX && subst_fits(j, s, c + 1, b),
        Term::TmApp(f, a) => subst_fits(j, s, c, f) && subst_fits(j, s, c, a),
        Term::IsZero(a) => subst_fits(j, s, c, a),
        Term::Succ(a) => subst_fits(j, s, c, a),
        Term::Pred(a) => subst_fits(j, s, c, a),
        Term::If(g, a, b) => subst_fits(j, s, c, g) && subst_fits(j, s, c, a) && match b {
            Some(e) => subst_fits(j, s, c, e),
            None => true,
        },
        _ => true,
    }
}

/// Replaces variable `j + c` of `t` (under `c` extra binders) by `s` shifted up by `c`.
fn subst_walk(j: isize, s: &Term, c: isize, t: &Term) -> (r: Term)
    requires
        subst_ok(j as int, *s, c as int, *t),
    ensures
        r == substituted(j as int, *s, c as int, *t),
    decreases t,
{
    match t {
        Term::TmVar(idx, n) => {
            if *idx == j + c {
                shift(c, s)
            } else {
                Term::TmVar(*idx, *n)
            }
        },
        Term::TmAbs(name, term) => Term::TmAbs(
            name.clone(),
            Box::new(subst_walk(j, s, c + 1, term)),
        ),
        Term::TmApp(f, a) => Term::TmApp(
            Box::new(subst_walk(j, s, c, f)),
            Box::new(subst_walk(j, s, c, a)),
        ),
        Term::IsZero(a) => Term::IsZero(Box::new(subst_walk(j, s, c, a))),
        Term::Succ(a) => Term::Succ(Box::new(subst_walk(j, s, c, a))),
        Term::Pred(a) => Term::Pred(Box::new(subst_walk(j, s, c, a))),
        Term::If(g, a, b) => {
            let b2 = match b {
                Some(e) => Some(Box::new(subst_walk(j, s, c, e))),
                None => None,
            };
            Term::If(Box::new(subst_walk(j, s, c, g)), Box::new(subst_walk(j, s, c, a)), b2)
        },
        Term::True => Term::True,
        Term::False => Term::False,
        Term::Zero => Term::Zero,
        Term::Number(k) => Term::Number(*k),
    }
}

/// Replaces the free variable `j` of `t` by `s`.
pub fn subst(j: isize, s: &Term, t: &Term) -> (r: Term)
    requires
        subst_ok(j as int, *s, 0, *t),
    ensures
        r == substituted(j as int, *s, 0, *t),
{
    subst_walk(j, s, 0, t)
}

/// Substitutes `s` for the outermost bound variable of the abstraction body `t`.
pub fn term_subst_top(s: &Term, t: &Term) -> (r: Term)
    requires
        subst_top_ok(*s, *t),
    ensures
        r == subst_top(*s, *t),
{
    shift(-1, &subst(0, &shift(1, s), t))
}

/// [`term_subst_top`] where every index fits in an `isize`, and `None` where one would not.
pub fn checked_subst_top(s: &Term, t: &Term) -> (r: Option<Term>)
    ensures
        r == (if subst_top_ok(*s, *t) {
            Some(subst_top(*s, *t))
        } else {
            None::<Term>
        }),
{
    if !shift_fits(1, 0, s) {
        return None;
    }
    let s1 = shift(1, s);
    if !subst_fits(0, &s1, 0, t) {
        return None;
    }
    let u = subst(0, &s1, t);
    if !shift_fits(-1, 0, &u) {
        return None;
    }
    Some(shift(-1, &u))
}

/// Numerals: `Zero` under any number of `Succ`.
pub open spec fn is_numeric(t: Term) -> bool
    decreases t,
{
    match t {
        Term::Zero => true,
        Term::Succ(a) => is_numeric(*a),
        _ => false,
    }
}

/// Values: boolean literals, numerals, number literals and abstractions.
pub open spec fn is_value(t: Term) -> bool {
    t is True || t is False || t is Number || t is TmAbs || is_numeric(t)
}

/// Decides whether `t` is a numeral.
pub fn is_numeric_val(t: &Term) -> (r: bool)
    ensures
        r == is_numeric(*t),
    decreases t,
{
    match t {
        Term::Zero => true,
        Term::Succ(a) => is_numeric_val(a),
        _ => false,
    }
}

/// Decides whether `t` is a value.
pub fn is_val(t: &Term) -> (r: bool)
    ensures
        r == is_value(*t),
{
    match t {
        Term::Number(_) | Term::TmAbs(_, _) | Term::True | Term::False => true,
        _ => is_numeric_val(t),
    }
}

/// Every variable index is at least 0 and below the number of binders around it
/// plus `k`: the term is well scoped in a context of `k` binders.
pub open spec fn well_scoped(t: Term, k: int) -> bool
    decreases t,
{
    match t {
        Term::TmVar(i, _) => 0 <= i < k,
        Term::TmAbs(_, b) => well_scoped(*b, k + 1),
        Term::TmApp(f, a) => well_scoped(*f, k) && well_scoped(*a, k),
        Term::IsZero(a) => well_scoped(*a, k),
        Term::Succ(a) => well_scoped(*a, k),
        Term::Pred(a) => well_scoped(*a, k),
        Term::If(g, a, b) => well_scoped(*g, k) && well_scoped(*a, k) && match b {
            Some(e) => well_scoped(*e, k),
            None => true,
        },
        _ => true,
    }
}

/// Every free variable (at or above the cutoff) stays at or above the cutoff when
/// moved by `d`.
pub open spec fn keeps_free(d: int, c: int, t: Term) -> bool
    decreases t,
{
    match t {
        Term::TmVar(i, _) => i >= c ==> i + d >= c,
        Term::TmAbs(_, b) => keeps_free(d, c + 1, *b),
        Term::TmApp(f, a) => keeps_free(d, c, *f) && keeps_free(d, c, *a),
        Term::IsZero(a) => keeps_free(d, c, *a),
        Term::Succ(a) => keeps_free(d, c, *a),
        Term::Pred(a) => keeps_free(d, c, *a),
        Term::If(g, a, b) => keeps_free(d, c, *g) && keeps_free(d, c, *a) && match b {
            Some(e) => keeps_free(d, c, *e),
            None => true,
        },
        _ => true,
    }
}

/// Shifting by zero changes nothing, at any cutoff.
pub proof fn lemma_shift_zero(c: int, t: Term)
    ensures
        shifted(0, c, t) == t,
    decreases t,
{
    match t {
        Term::TmAbs(_, b) => lemma_shift_zero(c + 1, *b),
        Term::TmApp(f, a) => {
            lemma_shift_zero(c, *f);
            lemma_shift_zero(c, *a);
        },
        Term::IsZero(a) => lemma_shift_zero(c, *a),
        Term::Succ(a) => lemma_shift_zero(c, *a),
        Term::Pred(a) => lemma_shift_zero(c, *a),
        Term::If(g, a, b) => {
            lemma_shift_zero(c, *g);
            lemma_shift_zero(c, *a);
            if let Some(e) = b {
                lemma_shift_zero(c, *e);
            }
        },
        _ => {},
    }
}

/// Identity law: `shift(0, t) == t` for every term.
pub proof fn lemma_shift_identity(t: Term)
    ensures
        shifted(0, 0, t) == t,
{
    lemma_shift_zero(0, t);
}

/// Two shifts at the same cutoff compose into one, provided every index involved is
/// representable and either the second shift is by zero or the first one leaves every
/// free variable free.
pub proof fn lemma_shift_compose(d1: int, d2: int, c: int, t: Term)
    requires
        shift_ok(d1, c, t),
        shift_ok(d1 + d2, c, t),
        d2 == 0 || keeps_free(d1, c, t),
    ensures
        shifted(d2, c, shifted(d1, c, t)) == shifted(d1 + d2, c, t),
    decreases t,
{
    match t {
        Term::TmAbs(_, b) => lemma_shift_compose(d1, d2, c + 1, *b),
        Term::TmApp(f, a) => {
            lemma_shift_compose(d1, d2, c, *f);
            lemma_shift_compose(d1, d2, c, *a);
        },
        Term::IsZero(a) => lemma_shift_compose(d1, d2, c, *a),
        Term::Succ(a) => lemma_shift_compose(d1, d2, c, *a),
        Term::Pred(a) => lemma_shift_compose(d1, d2, c, *a),
        Term::If(g, a, b) => {
            lemma_shift_compose(d1, d2, c, *g);
            lemma_shift_compose(d1, d2, c, *a);
            if let Some(e) = b {
                lemma_shift_compose(d1, d2, c, *e);
            }
        },
        _ => {},
    }
}

/// Shift composition at cutoff 0: `shift(d2, shift(d1, t)) == shift(d1 + d2, t)`.
pub proof fn lemma_shift_shift(d1: int, d2: int, t: Term)
    requires
        shift_ok(d1, 0, t),
        shift_ok(d1 + d2, 0, t),
        d2 == 0 || keeps_free(d1, 0, t),
    ensures
        shifted(d2, 0, shifted(d1, 0, t)) == shifted(d1 + d2, 0, t),
{
    lemma_shift_compose(d1, d2, 0, t);
}

/// Scoping is monotone in the number of binders.
pub proof fn lemma_well_scoped_mono(t: Term, k: int, k2: int)
    requires
        well_scoped(t, k),
        k <= k2,
    ensures
        well_scoped(t, k2),
    decreases t,
{
    match t {
        Term::TmAbs(_, b) => lemma_well_scoped_mono(*b, k + 1, k2 + 1),
        Term::TmApp(f, a) => {
            lemma_well_scoped_mono(*f, k, k2);
            lemma_well_scoped_mono(*a, k, k2);
        },
        Term::IsZero(a) => lemma_well_scoped_mono(*a, k, k2),
        Term::Succ(a) => lemma_well_scoped_mono(*a, k, k2),
        Term::Pred(a) => lemma_well_scoped_mono(*a, k, k2),
        Term::If(g, a, b) => {
            lemma_well_scoped_mono(*g, k, k2);
            lemma_well_scoped_mono(*a, k, k2);
            if let Some(e) = b {
                lemma_well_scoped_mono(*e, k, k2);
            }
        },
        _ => {},
    }
}

/// A shift whose cutoff is at least the scope leaves every index alone.
pub proof fn lemma_shift_well_scoped(d: int, c: int, t: Term, k: int)
    requires
        well_scoped(t, k),
        k <= c,
    ensures
        well_scoped(shifted(d, c, t), k),
    decreases t,
{
    match t {
        Term::TmAbs(_, b) => lemma_shift_well_scoped(d, c + 1, *b, k + 1),
        Term::TmApp(f, a) => {
            lemma_shift_well_scoped(d, c, *f, k);
            lemma_shift_well_scoped(d, c, *a, k);
        },
        Term::IsZero(a) => lemma_shift_well_scoped(d, c, *a, k),
        Term::Succ(a) => lemma_shift_well_scoped(d, c, *a, k),
        Term::Pred(a) => lemma_shift_well_scoped(d, c, *a, k),
        Term::If(g, a, b) => {
            lemma_shift_well_scoped(d, c, *g, k);
            lemma_shift_well_scoped(d, c, *a, k);
            if let Some(e) = b {
                lemma_shift_well_scoped(d, c, *e, k);
            }
        },
        _ => {},
    }
}

/// Substituting a closed term for variable `c` (the outermost one, under `c` binders)
/// removes one binder from the scope.
pub proof fn lemma_subst_well_scoped(s: Term, c: int, t: Term)
    requires
        well_scoped(s, 0),
        well_scoped(t, c + 1),
        c >= 0,
    ensures
        well_scoped(substituted(0, s, c, t), c),
    decreases t,
{
    match t {
        Term::TmVar(i, _) => {
            if i == c {
                lemma_shift_well_scoped(c, 0, s, 0);
                lemma_well_scoped_mono(shifted(c, 0, s), 0, c);
            }
        },
        Term::TmAbs(_, b) => lemma_subst_well_scoped(s, c + 1, *b),
        Term::TmApp(f, a) => {
            lemma_subst_well_scoped(s, c, *f);
            lemma_subst_well_scoped(s, c, *a);
        },
        Term::IsZero(a) => lemma_subst_well_scoped(s, c, *a),
        Term::Succ(a) => lemma_subst_well_scoped(s, c, *a),
        Term::Pred(a) => lemma_subst_well_scoped(s, c, *a),
        Term::If(g, a, b) => {
            lemma_subst_well_scoped(s, c, *g);
            lemma_subst_well_scoped(s, c, *a);
            if let Some(e) = b {
                lemma_subst_well_scoped(s, c, *e);
            }
        },
        _ => {},
    }
}

/// Beta-substitution leaves no dangling reference: for a closed abstraction with
/// body `body` and a closed argument `v`, the substituted body is closed.
pub proof fn lemma_subst_top_closed(v: Term, body: Term)
    requires
        well_scoped(body, 1),
        well_scoped(v, 0),
    ensures
        well_scoped(subst_top(v, body), 0),
{
    lemma_shift_well_scoped(1, 0, v, 0);
    let s1 = shifted(1, 0, v);
    lemma_subst_well_scoped(s1, 0, body);
    lemma_shift_well_scoped(-1, 0, substituted(0, s1, 0, body), 0);
}

/// The names of the binders in scope, outermost first. Its view lists them as
/// character sequences; the binder of de Bruijn index `i` is the `i`-th from the end.
#[derive(Debug)]
pub struct Context {
    contexts: Vec<String>,
}

impl View for Context {
    type V = Seq<Seq<char>>;

    closed spec fn view(&self) -> Seq<Seq<char>> {
        self.contexts@.map_values(|s: String| s@)
    }
}

impl Context {
    /// The empty context.
    pub fn new() -> (r: Context)
        ensures
            r@ == Seq::<Seq<char>>::empty(),
    {
        let r = Context { contexts: Vec::new() };
        proof {
            assert(r@ =~= Seq::<Seq<char>>::empty());
        }
        r
    }

    /// Whether `name` is bound in this context.
    fn contains_name(&self, name: &String) -> (r: bool)
        ensures
            r == self@.contains(name@),
    {
        let mut i: usize = 0;
        while i < self.contexts.len()
            invariant
                i <= self.contexts@.len(),
                forall|j: int| 0 <= j < i ==> self@[j] != name@,
            decreases self.contexts@.len() - i,
        {
            if self.contexts[i] == *name {
                assert(self@[i as int] == name@);
                return true;
            }
            i = i + 1;
        }
        proof {
            if self@.contains(name@) {
                let j = choose|j: int| 0 <= j < self@.len() && self@[j] == name@;
                assert(self@[j] != name@);
            }
        }
        false
    }

    /// A copy of this context with `name` bound innermost, as it is written.
    pub fn bind(&self, name: &str) -> (r: Context)
        ensures
            r@ == self@.push(name@),
    {
        self.extended(name.to_owned())
    }

    /// A copy of this context with `name` bound innermost.
    fn extended(&self, name: String) -> (r: Context)
        ensures
            r@ == self@.push(name@),
    {
        let mut contexts: Vec<String> = Vec::new();
        let mut i: usize = 0;
        while i < self.contexts.len()
            invariant
                i <= self.contexts@.len(),
                contexts@.len() == i,
                forall|j: int| 0 <= j < i ==> contexts@[j]@ == self.contexts@[j]@,
            decreases self.contexts@.len() - i,
        {
            contexts.push(self.contexts[i].clone());
            i = i + 1;
        }
        contexts.push(name);
        let r = Context { contexts };
        proof {
            assert(r@ =~= self@.push(name@));
        }
        r
    }

    /// Binds `x` innermost, primed until it differs from every name in scope.
    /// Returns the extended context and the name chosen; `self` is left as it was.
    pub fn pick_fresh_name(&self, x: &str) -> (r: (Context, String))
        ensures
            r.1@ == fresh_name(self@, x@),
            !self@.contains(r.1@),
            r.0@ == self@.push(r.1@),
    {
        proof {
            lemma_fresh_name_is_fresh(self@, x@);
        }
        let mut name = x.to_owned();
        while self.contains_name(&name)
            invariant
                fresh_name(self@, name@) == fresh_name(self@, x@),
            decreases max_len(self@) + 1 - name@.len(),
        {
            let ghost prev = name@;
            proof {
                lemma_max_len(self@, name@);
                reveal_strlit("'");
                assert("'"@ =~= seq!['\'']);
            }
            name.append("'");
            assert(name@ == prev + seq!['\'']);
        }
        let ctx = self.extended(name.clone());
        (ctx, name)
    }

    /// The de Bruijn index of the innermost binder named `name`, if any.
    pub fn name_to_index(&self, name: &str) -> (r: Option<isize>)
        requires
            self@.len() <= isize::MAX,
        ensures
            r is Some <==> self@.contains(name@),
            r matches Some(k) ==> {
                let p = self@.len() - 1 - k;
                &&& 0 <= k < self@.len()
                &&& self@[p] == name@
                &&& forall|j: int| p < j < self@.len() ==> self@[j] != name@
            },
    {
        let target = name.to_owned();
        let n = self.contexts.len();
        let mut k: usize = 0;
        while k < n
            invariant
                n == self@.len(),
                k <= n,
                n <= isize::MAX,
                target@ == name@,
                forall|j: int| n - k <= j < n ==> self@[j] != name@,
            decreases n - k,
        {
            let p = n - 1 - k;
            if self.contexts[p] == target {
                assert(self@[p as int] == name@);
                
                return Some(k as isize);
            }
            k = k + 1;
        }
        proof {
            if self@.contains(name@) {
                let j = choose|j: int| 0 <= j < self@.len() && self@[j] == name@;
                assert(self@[j] != name@);
            }
        }
        None
    }

    /// The name of the binder with de Bruijn index `idx`, if it is in scope.
    pub fn index_to_name(&self, idx: isize) -> (r: Option<String>)
        ensures
            r is Some <==> 0 <= idx < self@.len(),
            r matches Some(s) ==> s@ == self@[self@.len() - 1 - idx],
    {
        let con_len = self.contexts.len();
        if 0 <= idx && (idx as usize) < con_len {
            Some(self.contexts[con_len - 1 - idx as usize].clone())
        } else {
            None
        }
    }

    /// The number of binders in scope, as a `usize`.
    pub fn count(&self) -> (r: usize)
        ensures
            r == self@.len(),
    {
        self.contexts.len()
    }

    /// The number of binders in scope.
    pub fn len(&self) -> (r: isize)
        requires
            self@.len() <= isize::MAX,
        ensures
            r == self@.len(),
    {
        self.contexts.len() as isize
    }
}

/// The decimal digits of `n`.
pub open spec fn decimal(n: nat) -> Seq<char>
    decreases n,
{
    if n < 10 {
        seq![digit_char(n)]
    } else {
        decimal(n / 10).push(digit_char(n % 10))
    }
}

/// The character of a decimal digit.
pub open spec fn digit_char(d: nat) -> char {
    if d == 0 {
        '0'
    } else if d == 1 {
        '1'
    } else if d == 2 {
        '2'
    } else if d == 3 {
        '3'
    } else if d == 4 {
        '4'
    } else if d == 5 {
        '5'
    } else if d == 6 {
        '6'
    } else if d == 7 {
        '7'
    } else if d == 8 {
        '8'
    } else {
        '9'
    }
}

/// An integer in decimal, with a leading `-` when negative.
pub open spec fn signed_decimal(i: int) -> Seq<char> {
    if i < 0 {
        seq!['-'] + decimal((-i) as nat)
    } else {
        decimal(i as nat)
    }
}

/// The nameless display form: `(λ.body)`, a variable as its index, `(f a)`, and the
/// other constructs by their keywords, as in `(if c then a else b)`.
pub open spec fn nameless_form(t: Term) -> Seq<char>
    decreases t,
{
    match t {
        Term::TmVar(i, _) => signed_decimal(i as int),
        Term::TmAbs(_, b) => seq!['(', 'λ', '.'] + nameless_form(*b) + seq![')'],
        Term::TmApp(f, a) => seq!['('] + nameless_form(*f) + seq![' '] + nameless_form(*a) + seq![
            ')',
        ],
        Term::True => seq!['t', 'r', 'u', 'e'],
        Term::False => seq!['f', 'a', 'l', 's', 'e'],
        Term::Zero => seq!['z', 'e', 'r', 'o'],
        Term::Number(n) => decimal(n as nat),
        Term::IsZero(a) => seq!['(', 'i', 's', 'z', 'e', 'r', 'o', ' '] + nameless_form(*a) + seq![
            ')',
        ],
        Term::Succ(a) => seq!['(', 's', 'u', 'c', 'c', ' '] + nameless_form(*a) + seq![')'],
        Term::Pred(a) => seq!['(', 'p', 'r', 'e', 'd', ' '] + nameless_form(*a) + seq![')'],
        Term::If(c, a, b) => seq!['(', 'i', 'f', ' '] + nameless_form(*c) + seq![
            ' ',
            't',
            'h',
            'e',
            'n',
            ' ',
        ] + nameless_form(*a) + match b {
            Some(e) => seq![' ', 'e', 'l', 's', 'e', ' '] + nameless_form(*e),
            None => Seq::<char>::empty(),
        } + seq![')'],
    }
}

fn digit_str(d: u64) -> (r: &'static str)
    requires
        d < 10,
    ensures
        r@ == seq![digit_char(d as nat)],
{
    proof {
        reveal_strlit("0");
        reveal_strlit("1");
        reveal_strlit("2");
        reveal_strlit("3");
        reveal_strlit("4");
        reveal_strlit("5");
        reveal_strlit("6");
        reveal_strlit("7");
        reveal_strlit("8");
        reveal_strlit("9");
    }
    if d == 0 {
        "0"
    } else if d == 1 {
        "1"
    } else if d == 2 {
        "2"
    } else if d == 3 {
        "3"
    } else if d == 4 {
        "4"
    } else if d == 5 {
        "5"
    } else if d == 6 {
        "6"
    } else if d == 7 {
        "7"
    } else if d == 8 {
        "8"
    } else {
        "9"
    }
}

/// Appends the decimal digits of `n` to `out`.
fn push_decimal(out: &mut String, n: u64)
    ensures
        final(out)@ == old(out)@ + decimal(n as nat),
    decreases n,
{
    if n < 10 {
        out.append(digit_str(n));
    } else {
        push_decimal(out, n / 10);
        out.append(digit_str(n % 10));
        assert(decimal(n as nat) == decimal((n / 10) as nat).push(digit_char((n % 10) as nat)));
        assert(final(out)@ =~= old(out)@ + decimal(n as nat));
    }
}

/// Appends `open`, the nameless form of `t`, and `)` to `out`.
fn push_wrapped(out: &mut String, open: &str, t: &Term)
    ensures
        final(out)@ == old(out)@ + open@ + nameless_form(*t) + seq![')'],
    decreases t, 1nat,
{
    proof {
        reveal_strlit(")");
    }
    let ghost start = out@;
    out.append(open);
    push_nameless(out, t);
    out.append(")");
    assert(out@ =~= start + open@ + nameless_form(*t) + seq![')']);
}

/// Appends the nameless display form of `t` to `out`.
fn push_nameless(out: &mut String, t: &Term)
    ensures
        final(out)@ == old(out)@ + nameless_form(*t),
    decreases t, 0nat,
{
    let ghost start = out@;
    match t {
        Term::TmVar(i, _) => {
            if *i < 0 {
                proof {
                    reveal_strlit("-");
                }
                out.append("-");
                push_decimal(out, (-(*i as i128)) as u64);
            } else {
                push_decimal(out, *i as u64);
            }
            assert(out@ =~= start + nameless_form(*t));
        },
        Term::TmAbs(_, b) => {
            proof {
                reveal_strlit("(λ.");
            }
            push_wrapped(out, "(λ.", b);
            assert(out@ =~= start + nameless_form(*t));
        },
        Term::TmApp(f, a) => {
            proof {
                reveal_strlit("(");
                reveal_strlit(" ");
            }
            out.append("(");
            push_nameless(out, f);
            out.append(" ");
            push_wrapped(out, "", a);
            proof {
                reveal_strlit("");
            }
            assert(out@ =~= start + nameless_form(*t));
        },
        Term::True => {
            proof {
                reveal_strlit("true");
            }
            out.append("true");
        },
        Term::False => {
            proof {
                reveal_strlit("false");
            }
            out.append("false");
        },
        Term::Zero => {
            proof {
                reveal_strlit("zero");
            }
            out.append("zero");
        },
        Term::Number(n) => push_decimal(out, *n),
        Term::IsZero(a) => {
            proof {
                reveal_strlit("(iszero ");
            }
            push_wrapped(out, "(iszero ", a);
            assert(out@ =~= start + nameless_form(*t));
        },
        Term::Succ(a) => {
            proof {
                reveal_strlit("(succ ");
            }
            push_wrapped(out, "(succ ", a);
            assert(out@ =~= start + nameless_form(*t));
        },
        Term::Pred(a) => {
            proof {
                reveal_strlit("(pred ");
            }
            push_wrapped(out, "(pred ", a);
            assert(out@ =~= start + nameless_form(*t));
        },
        Term::If(c, a, b) => {
            proof {
                reveal_strlit("(if ");
                reveal_strlit(" then ");
                reveal_strlit(" else ");
                reveal_strlit(")");
            }
            out.append("(if ");
            push_nameless(out, c);
            out.append(" then ");
            push_nameless(out, a);
            if let Some(e) = b {
                out.append(" else ");
                push_nameless(out, e);
            }
            out.append(")");
            assert(out@ =~= start + nameless_form(*t));
        },
    }
}

impl Term {
    /// The nameless display form of the term, e.g. `(λ.(0 (λ.0)))`.
    pub fn to_nameless_string(&self) -> (r: String)
        ensures
            r@ == nameless_form(*self),
    {
        let mut out = String::new();
        push_nameless(&mut out, self);
        assert(out@ =~= nameless_form(*self));
        out
    }
}

} // verus!
