//! Splitting source text into lexemes: runs of letters, runs of digits, and single
//! symbols, with white space dropped. The lexers of each language map lexemes to tokens.
use vstd::prelude::*;

verus! {

/// A lexeme, by its position in the character sequence it came from.
#[derive(Debug, Clone, Copy, PartialEq, Eq, Structural)]
pub enum Lexeme {
    /// A maximal run of ASCII letters at positions `start..end`.
    Word(usize, usize),
    /// A maximal run of ASCII digits at positions `start..end`.
    Digits(usize, usize),
    /// Any other character that is not white space, at position `at`.
    Symbol(usize),
}

pub open spec fn is_letter(c: char) -> bool {
    ('a' <= c && c <= 'z') || ('A' <= c && c <= 'Z')
}

pub open spec fn is_digit(c: char) -> bool {
    '0' <= c && c <= '9'
}

pub open spec fn is_space(c: char) -> bool {
    c == ' ' || c == '\t' || c == '\n' || c == '\r'
}

/// The end of the run of letters that starts at `i`.
pub open spec fn letters_end(cs: Seq<char>, i: int) -> int
    decreases cs.len() - i,
{
    if 0 <= i < cs.len() && is_letter(cs[i]) {
        letters_end(cs, i + 1)
    } else {
        i
    }
}

/// The end of the run of digits that starts at `i`.
pub open spec fn digits_end(cs: Seq<char>, i: int) -> int
    decreases cs.len() - i,
{
    if 0 <= i < cs.len() && is_digit(cs[i]) {
        digits_end(cs, i + 1)
    } else {
        i
    }
}

pub proof fn lemma_letters_end(cs: Seq<char>, i: int)
    requires
        0 <= i <= cs.len(),
    ensures
        i <= letters_end(cs, i) <= cs.len(),
        i < cs.len() && is_letter(cs[i]) ==> i < letters_end(cs, i),
        forall|k: int| i <= k < letters_end(cs, i) ==> is_letter(cs[k]),
    decreases cs.len() - i,
{
    if i < cs.len() && is_letter(cs[i]) {
        lemma_letters_end(cs, i + 1);
    }
}

pub proof fn lemma_digits_end(cs: Seq<char>, i: int)
    requires
        0 <= i <= cs.len(),
    ensures
        i <= digits_end(cs, i) <= cs.len(),
        i < cs.len() && is_digit(cs[i]) ==> i < digits_end(cs, i),
        forall|k: int| i <= k < digits_end(cs, i) ==> is_digit(cs[k]),
    decreases cs.len() - i,
{
    if i < cs.len() && is_digit(cs[i]) {
        lemma_digits_end(cs, i + 1);
    }
}

/// The lexemes of `cs` from position `i` on.
pub open spec fn scan_from(cs: Seq<char>, i: int) -> Seq<Lexeme>
    decreases cs.len() - i,
    via scan_from_decreases
{
    if i < 0 || i >= cs.len() {
        seq![]
    } else if is_space(cs[i]) {
        scan_from(cs, i + 1)
    } else if is_letter(cs[i]) {
        let j = letters_end(cs, i);
        seq![Lexeme::Word(i as usize, j as usize)] + scan_from(cs, j)
    } else if is_digit(cs[i]) {
        let j = digits_end(cs, i);
        seq![Lexeme::Digits(i as usize, j as usize)] + scan_from(cs, j)
    } else {
        seq![Lexeme::Symbol(i as usize)] + scan_from(cs, i + 1)
    }
}

#[via_fn]
proof fn scan_from_decreases(cs: Seq<char>, i: int) {
    if 0 <= i < cs.len() {
        lemma_letters_end(cs, i);
        lemma_digits_end(cs, i);
    }
}

/// The lexemes of `cs`.
pub open spec fn lexemes(cs: Seq<char>) -> Seq<Lexeme> {
    scan_from(cs, 0)
}

/// A lexeme that spans positions of `cs` spans a non-empty run of letters or digits.
pub open spec fn in_bounds(cs: Seq<char>, l: Lexeme) -> bool {
    match l {
        Lexeme::Word(a, b) => a < b <= cs.len() && forall|k: int|
            a <= k < b ==> is_letter(#[trigger] cs[k]),
        Lexeme::Digits(a, b) => a < b <= cs.len() && forall|k: int|
            a <= k < b ==> is_digit(#[trigger] cs[k]),
        Lexeme::Symbol(a) => a < cs.len() && !is_space(cs[a as int]) && !is_letter(cs[a as int])
            && !is_digit(cs[a as int]),
    }
}

/// Every lexeme lies within the text it came from.
pub proof fn lemma_scan_in_bounds(cs: Seq<char>, i: int)
    requires
        cs.len() <= usize::MAX,
    ensures
        forall|k: int|
            0 <= k < scan_from(cs, i).len() ==> in_bounds(cs, #[trigger] scan_from(cs, i)[k]),
    decreases cs.len() - i,
{
    if 0 <= i < cs.len() {
        if is_space(cs[i]) {
            lemma_scan_in_bounds(cs, i + 1);
            assert(scan_from(cs, i) == scan_from(cs, i + 1));
        } else if is_letter(cs[i]) {
            lemma_letters_end(cs, i);
            lemma_scan_in_bounds(cs, letters_end(cs, i));
            let rest = scan_from(cs, letters_end(cs, i));
            assert forall|k: int| 0 <= k < scan_from(cs, i).len() implies in_bounds(
                cs,
                #[trigger] scan_from(cs, i)[k],
            ) by {
                if k > 0 {
                    assert(scan_from(cs, i)[k] == rest[k - 1]);
                }
            }
        } else if is_digit(cs[i]) {
            lemma_digits_end(cs, i);
            lemma_scan_in_bounds(cs, digits_end(cs, i));
            let rest = scan_from(cs, digits_end(cs, i));
            assert forall|k: int| 0 <= k < scan_from(cs, i).len() implies in_bounds(
                cs,
                #[trigger] scan_from(cs, i)[k],
            ) by {
                if k > 0 {
                    assert(scan_from(cs, i)[k] == rest[k - 1]);
                }
            }
        } else {
            lemma_scan_in_bounds(cs, i + 1);
            let rest = scan_from(cs, i + 1);
            assert forall|k: int| 0 <= k < scan_from(cs, i).len() implies in_bounds(
                cs,
                #[trigger] scan_from(cs, i)[k],
            ) by {
                if k > 0 {
                    assert(scan_from(cs, i)[k] == rest[k - 1]);
                }
            }
        }
    }
}

fn is_letter_char(c: char) -> (r: bool)
    ensures
        r == is_letter(c),
{
    ('a' <= c && c <= 'z') || ('A' <= c && c <= 'Z')
}

fn is_digit_char(c: char) -> (r: bool)
    ensures
        r == is_digit(c),
{
    '0' <= c && c <= '9'
}

fn is_space_char(c: char) -> (r: bool)
    ensures
        r == is_space(c),
{
    c == ' ' || c == '\t' || c == '\n' || c == '\r'
}

/// The characters of `s`, in order.
pub fn chars_of(s: &str) -> (r: Vec<char>)
    ensures
        r@ == s@,
        r@.len() <= usize::MAX,
{
    let n = s.unicode_len();
    let mut r: Vec<char> = Vec::new();
    let mut i: usize = 0;
    while i < n
        invariant
            n == s@.len(),
            i <= n,
            r@ == s@.subrange(0, i as int),
        decreases n - i,
    {
        r.push(s.get_char(i));
        i = i + 1;
    }
    assert(r@ =~= s@);
    r
}

/// Splits `cs` into lexemes.
pub fn scan(cs: &Vec<char>) -> (r: Vec<Lexeme>)
    ensures
        r@ == lexemes(cs@),
{
    let n = cs.len();
    let mut out: Vec<Lexeme> = Vec::new();
    let mut i: usize = 0;
    while i < n
        invariant
            n == cs@.len(),
            i <= n,
            out@ + scan_from(cs@, i as int) == lexemes(cs@),
        decreases n - i,
    {
        let c = cs[i];
        if is_space_char(c) {
            i = i + 1;
        } else if is_letter_char(c) {
            let mut j: usize = i + 1;
            while j < n && is_letter_char(cs[j])
                invariant
                    n == cs@.len(),
                    i < j <= n,
                    letters_end(cs@, j as int) == letters_end(cs@, i as int),
                decreases n - j,
            {
                j = j + 1;
            }
            proof {
                lemma_letters_end(cs@, i as int);
                assert(out@.push(Lexeme::Word(i, j)) + scan_from(cs@, j as int) =~= out@ + (seq![
                    Lexeme::Word(i, j),
                ] + scan_from(cs@, j as int)));
            }
            out.push(Lexeme::Word(i, j));
            i = j;
        } else if is_digit_char(c) {
            let mut j: usize = i + 1;
            while j < n && is_digit_char(cs[j])
                invariant
                    n == cs@.len(),
                    i < j <= n,
                    digits_end(cs@, j as int) == digits_end(cs@, i as int),
                decreases n - j,
            {
                j = j + 1;
            }
            proof {
                lemma_digits_end(cs@, i as int);
                assert(out@.push(Lexeme::Digits(i, j)) + scan_from(cs@, j as int) =~= out@ + (seq![
                    Lexeme::Digits(i, j),
                ] + scan_from(cs@, j as int)));
            }
            out.push(Lexeme::Digits(i, j));
            i = j;
        } else {
            proof {
                assert(out@.push(Lexeme::Symbol(i)) + scan_from(cs@, i + 1) =~= out@ + (seq![
                    Lexeme::Symbol(i),
                ] + scan_from(cs@, i + 1)));
            }
            out.push(Lexeme::Symbol(i));
            i = i + 1;
        }
    }
    assert(out@ =~= lexemes(cs@));
    out
}

/// The value of a decimal digit.
pub open spec fn digit_value(c: char) -> nat {
    ((c as u32) - ('0' as u32)) as nat
}

/// The value of a run of decimal digits.
pub open spec fn digits_value(ds: Seq<char>) -> nat
    decreases ds.len(),
{
    if ds.len() == 0 {
        0
    } else {
        digits_value(ds.drop_last()) * 10 + digit_value(ds.last())
    }
}

proof fn lemma_digits_value_mono(cs: Seq<char>, a: int, k: int, b: int)
    requires
        0 <= a <= k <= b <= cs.len(),
    ensures
        digits_value(cs.subrange(a, k)) <= digits_value(cs.subrange(a, b)),
    decreases b - k,
{
    if k < b {
        lemma_digits_value_mono(cs, a, k, b - 1);
        assert(cs.subrange(a, b).drop_last() =~= cs.subrange(a, b - 1));
        let v = digits_value(cs.subrange(a, b - 1));
        assert(v <= v * 10 + digit_value(cs[b - 1])) by (nonlinear_arith);
    }
}

/// The value of the digits at positions `a..b` of `cs`, if it fits in a `u64`.
pub fn number_value(cs: &Vec<char>, a: usize, b: usize) -> (r: Option<u64>)
    requires
        a <= b <= cs@.len(),
        forall|k: int| a <= k < b ==> is_digit(#[trigger] cs@[k]),
    ensures
        r == (if digits_value(cs@.subrange(a as int, b as int)) <= u64::MAX {
            Some(digits_value(cs@.subrange(a as int, b as int)) as u64)
        } else {
            None::<u64>
        }),
{
    let mut v: u64 = 0;
    let mut k: usize = a;
    assert(cs@.subrange(a as int, a as int) =~= Seq::<char>::empty());
    while k < b
        invariant
            a <= k <= b <= cs@.len(),
            forall|i: int| a <= i < b ==> is_digit(#[trigger] cs@[i]),
            v == digits_value(cs@.subrange(a as int, k as int)),
        decreases b - k,
    {
        let c = cs[k];
        assert(is_digit(cs@[k as int]));
        let d: u64 = ((c as u32) - ('0' as u32)) as u64;
        assert(cs@.subrange(a as int, k + 1).drop_last() =~= cs@.subrange(a as int, k as int));
        assert(digits_value(cs@.subrange(a as int, k + 1)) == v * 10 + d);
        if v > (u64::MAX - d) / 10 {
            proof {
                assert(v * 10 + d > u64::MAX) by (nonlinear_arith)
                    requires
                        v > (u64::MAX - d) / 10,
                        d <= 9,
                ;
                lemma_digits_value_mono(cs@, a as int, k + 1, b as int);
            }
            return None;
        }
        assert(v * 10 + d <= u64::MAX) by (nonlinear_arith)
            requires
                v <= (u64::MAX - d) / 10,
                d <= 9,
        ;
        v = v * 10 + d;
        k = k + 1;
    }
    Some(v)
}

/// The characters of `s` at positions `a..b`, as a `String`.
pub fn word_string(s: &str, a: usize, b: usize) -> (r: String)
    requires
        a <= b <= s@.len(),
    ensures
        r@ == s@.subrange(a as int, b as int),
{
    s.substring_char(a, b).to_owned()
}

/// The entry of the first row of `table` whose name is `w`.
pub open spec fn lookup<T>(table: Seq<(Seq<char>, T)>, w: Seq<char>) -> Option<T>
    decreases table.len(),
{
    if table.len() == 0 {
        None
    } else if table[0].0 == w {
        Some(table[0].1)
    } else {
        lookup(table.drop_first(), w)
    }
}

/// A table of names, viewed as character sequences.
pub open spec fn table_view<T>(table: Seq<(String, T)>) -> Seq<(Seq<char>, T)> {
    table.map_values(|p: (String, T)| (p.0@, p.1))
}

/// The position of the first row of `table` named `w`.
pub fn find_word<T>(table: &Vec<(String, T)>, w: &String) -> (r: Option<usize>)
    ensures
        r is Some <==> lookup(table_view(table@), w@) is Some,
        r matches Some(i) ==> i < table@.len() && lookup(table_view(table@), w@) == Some(
            table@[i as int].1,
        ),
{
    let mut i: usize = 0;
    assert(table_view(table@).skip(0) =~= table_view(table@));
    while i < table.len()
        invariant
            i <= table@.len(),
            lookup(table_view(table@), w@) == lookup(table_view(table@).skip(i as int), w@),
        decreases table@.len() - i,
    {
        let ghost rest = table_view(table@).skip(i as int);
        if table[i].0 == *w {
            return Some(i);
        }
        assert(rest.drop_first() =~= table_view(table@).skip(i + 1));
        i = i + 1;
    }
    None
}

} // verus!
