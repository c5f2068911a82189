//! Splitting a name into atoms: maximal runs of underscores, of decimal
//! digits, and of everything else.
//!
//! A name is modelled by its UTF-8 bytes. The two classes that end a run of
//! ordinary text are ASCII, so a run never ends inside a multi-byte character
//! and every atom is itself valid text.

use crate::order::{
    byte_ord, chains, followed_by, lemma_byte_order_total, lemma_equal_compares_alike,
    lemma_lexicographic_end, lemma_lexicographic_start, lemma_lexicographic_step,
    lemma_lexicographic_total, lexicographic, lexicographic_by, nat_order, pos, reversed, total,
};
use std::cmp::Ordering;
use vstd::prelude::*;
use vstd::string::StringSliceAdditionalSpecFns;
use vstd::utf8::*;

verus! {

/// The byte `_`.
pub const UNDERSCORE: u8 = 0x5f;

/// The byte `0`.
pub const ZERO: u8 = 0x30;

/// The byte `9`.
pub const NINE: u8 = 0x39;

/// The three kinds of byte that a name is made of.
#[derive(Copy, Clone, Debug, PartialEq, Eq, Structural)]
pub enum Class {
    /// The byte `_`.
    Underscore,
    /// One of the bytes `0` to `9`.
    Digit,
    /// Any other byte.
    Other,
}

/// The class of one byte.
pub open spec fn class_of(b: u8) -> Class {
    if b == UNDERSCORE {
        Class::Underscore
    } else if ZERO <= b <= NINE {
        Class::Digit
    } else {
        Class::Other
    }
}

/// How many bytes at the start of `s` are of class `c`.
pub open spec fn run_of(s: Seq<u8>, c: Class) -> nat
    decreases s.len(),
{
    if s.len() > 0 && class_of(s[0]) == c {
        1 + run_of(s.drop_first(), c)
    } else {
        0
    }
}

/// The length of the first atom of `s`: the longest run of bytes at its start
/// that are all of the class of its first byte. Zero exactly when `s` is empty.
pub open spec fn first_len(s: Seq<u8>) -> nat {
    if s.len() == 0 {
        0
    } else {
        run_of(s, class_of(s[0]))
    }
}

/// What an atom holds, as mathematics.
pub enum AtomView {
    /// A run of this many underscores.
    Underscore(nat),
    /// A run of digits, as the bytes of the run.
    Number(Seq<u8>),
    /// A run of other bytes.
    Chars(Seq<u8>),
}

impl AtomView {
    /// The bytes of the name that the atom covers.
    pub open spec fn span(self) -> Seq<u8> {
        match self {
            AtomView::Underscore(n) => Seq::new(n, |i: int| UNDERSCORE),
            AtomView::Number(s) => s,
            AtomView::Chars(s) => s,
        }
    }

    /// The length of the run if the atom is a run of underscores, else zero.
    pub open spec fn underscores(self) -> nat {
        match self {
            AtomView::Underscore(n) => n,
            _ => 0,
        }
    }

    /// The class of the bytes that an atom of this kind covers.
    pub open spec fn class(self) -> Class {
        match self {
            AtomView::Underscore(_) => Class::Underscore,
            AtomView::Number(_) => Class::Digit,
            AtomView::Chars(_) => Class::Other,
        }
    }

    /// The atom covers at least one byte, and every byte it covers is of its
    /// class.
    pub open spec fn is_run(self) -> bool {
        &&& self.span().len() > 0
        &&& forall|k: int|
            0 <= k < self.span().len() ==> class_of(#[trigger] self.span()[k]) == self.class()
    }
}

/// The atom at place `i` and the atom behind it are of different classes.
pub open spec fn alternates(a: Seq<AtomView>, i: int) -> bool {
    a[i].class() != a[i + 1].class()
}

/// The first atom of a name that is not empty.
pub open spec fn first_atom(s: Seq<u8>) -> AtomView
    recommends
        s.len() > 0,
{
    match class_of(s[0]) {
        Class::Underscore => AtomView::Underscore(first_len(s)),
        Class::Digit => AtomView::Number(s.take(first_len(s) as int)),
        Class::Other => AtomView::Chars(s.take(first_len(s) as int)),
    }
}

/// The atoms of a name, in order.
pub open spec fn atoms(s: Seq<u8>) -> Seq<AtomView>
    decreases s.len(),
{
    if s.len() == 0 {
        Seq::empty()
    } else {
        proof {
            lemma_first_len(s);
        }
        seq![first_atom(s)] + atoms(s.skip(first_len(s) as int))
    }
}

/// The bytes that a sequence of atoms covers, one atom after the other.
pub open spec fn spans(a: Seq<AtomView>) -> Seq<u8>
    decreases a.len(),
{
    if a.len() == 0 {
        Seq::empty()
    } else {
        a[0].span() + spans(a.drop_first())
    }
}

/// A run is no longer than the text it starts, every byte in it is of the
/// run's class, and the byte after it, if there is one, is not.
pub proof fn lemma_run_of(s: Seq<u8>, c: Class)
    ensures
        run_of(s, c) <= s.len(),
        forall|i: int| 0 <= i < run_of(s, c) ==> class_of(#[trigger] s[i]) == c,
        run_of(s, c) < s.len() ==> class_of(s[run_of(s, c) as int]) != c,
    decreases s.len(),
{
    if s.len() > 0 && class_of(s[0]) == c {
        let t = s.drop_first();
        lemma_run_of(t, c);
        assert forall|i: int| 0 <= i < run_of(s, c) implies class_of(#[trigger] s[i]) == c by {
            if i > 0 {
                assert(s[i] == t[i - 1]);
            }
        }
        if run_of(s, c) < s.len() {
            assert(s[run_of(s, c) as int] == t[run_of(t, c) as int]);
        }
    }
}

/// A run is the only prefix that is all of one class and cannot be extended.
pub proof fn lemma_run_of_unique(s: Seq<u8>, c: Class, n: int)
    requires
        0 <= n <= s.len(),
        forall|i: int| 0 <= i < n ==> class_of(#[trigger] s[i]) == c,
        n < s.len() ==> class_of(s[n]) != c,
    ensures
        run_of(s, c) == n,
    decreases s.len(),
{
    if n > 0 {
        let t = s.drop_first();
        assert(class_of(s[0]) == c);
        assert forall|i: int| 0 <= i < n - 1 implies class_of(#[trigger] t[i]) == c by {
            assert(t[i] == s[i + 1]);
        }
        lemma_run_of_unique(t, c, n - 1);
    }
}

/// The first atom of a name that is not empty covers at least one byte and no
/// more than the name has.
pub proof fn lemma_first_len(s: Seq<u8>)
    ensures
        first_len(s) <= s.len(),
        s.len() > 0 ==> first_len(s) >= 1,
        s.len() > 0 ==> first_atom(s).span() == s.take(first_len(s) as int),
{
    if s.len() > 0 {
        let c = class_of(s[0]);
        lemma_run_of(s, c);
        if c == Class::Underscore {
            assert(first_atom(s).span() =~= s.take(first_len(s) as int));
        }
    }
}

/// Tokenizing loses nothing: the atoms of a name, put together again in order,
/// are the name.
pub proof fn lemma_atoms_lossless(s: Seq<u8>)
    ensures
        spans(atoms(s)) == s,
    decreases s.len(),
{
    if s.len() > 0 {
        lemma_first_len(s);
        let n = first_len(s) as int;
        let rest = s.skip(n);
        lemma_atoms_lossless(rest);
        let a = atoms(s);
        assert(a.drop_first() =~= atoms(rest));
        assert(s =~= s.take(n) + rest);
    } else {
        assert(spans(atoms(s)) =~= s);
    }
}

/// The atoms of a name are its maximal runs: a name has atoms exactly when it
/// is not empty, every atom covers at least one byte, all of them of its
/// class, and no two atoms of one class follow one another.
pub proof fn lemma_atoms_are_runs(s: Seq<u8>)
    ensures
        s.len() > 0 <==> atoms(s).len() > 0,
        forall|i: int| 0 <= i < atoms(s).len() ==> (#[trigger] atoms(s)[i]).is_run(),
        forall|i: int| 0 <= i < atoms(s).len() - 1 ==> #[trigger] alternates(atoms(s), i),
    decreases s.len(),
{
    if s.len() > 0 {
        lemma_first_len(s);
        lemma_run_of(s, class_of(s[0]));
        let n = first_len(s) as int;
        let rest = s.skip(n);
        lemma_atoms_are_runs(rest);
        let first = first_atom(s);
        assert(first.is_run()) by {
            assert forall|k: int| 0 <= k < first.span().len() implies class_of(
                #[trigger] first.span()[k],
            ) == first.class() by {
                assert(first.span()[k] == s[k]);
            }
        }
        assert forall|i: int| 0 <= i < atoms(s).len() implies (#[trigger] atoms(s)[i]).is_run() by {
            if i > 0 {
                assert(atoms(s)[i] == atoms(rest)[i - 1]);
            }
        }
        assert forall|i: int| 0 <= i < atoms(s).len() - 1 implies #[trigger] alternates(
            atoms(s),
            i,
        ) by {
            assert(atoms(s)[i + 1] == atoms(rest)[i]);
            if i > 0 {
                assert(atoms(s)[i] == atoms(rest)[i - 1]);
                assert(alternates(atoms(rest), i - 1));
            } else {
                assert(rest[0] == s[n]);
            }
        }
    }
}

/// After a run of ASCII bytes at the start of valid text a character begins,
/// or the text ends.
proof fn lemma_boundary_after_ascii(bytes: Seq<u8>, n: int)
    requires
        valid_utf8(bytes),
        0 <= n <= bytes.len(),
        forall|i: int| 0 <= i < n ==> #[trigger] bytes[i] < 0x80,
    ensures
        is_char_boundary(bytes, n),
    decreases n,
{
    if n > 0 {
        assert(is_leading_byte_width_1(bytes[0]));
        let t = pop_first_scalar(bytes);
        assert forall|i: int| 0 <= i < n - 1 implies #[trigger] t[i] < 0x80 by {
            assert(t[i] == bytes[i + 1]);
        }
        lemma_boundary_after_ascii(t, n - 1);
    }
}

/// The first atom of a text ends where a character begins, or where the text
/// ends.
proof fn lemma_first_len_boundary(bytes: Seq<u8>)
    requires
        valid_utf8(bytes),
    ensures
        is_char_boundary(bytes, first_len(bytes) as int),
{
    let n = first_len(bytes) as int;
    if bytes.len() > 0 {
        let c = class_of(bytes[0]);
        lemma_run_of(bytes, c);
        if c == Class::Other {
            if n < bytes.len() {
                assert(!is_continuation_byte(bytes[n]));
                is_char_boundary_iff_not_is_continuation_byte(bytes, n);
            } else {
                is_char_boundary_start_end_of_seq(bytes);
            }
        } else {
            assert forall|i: int| 0 <= i < n implies #[trigger] bytes[i] < 0x80 by {
                assert(class_of(bytes[i]) == c);
            }
            lemma_boundary_after_ascii(bytes, n);
        }
    }
}

/// One maximal run within a name. An atom borrows its text from the name.
#[derive(Copy, Clone, Debug, PartialEq, Eq)]
pub enum Atom<'a> {
    /// A sequence of underscores, by its length.
    Underscore(usize),
    /// A sequence of digits.
    Number(&'a str),
    /// A sequence of characters that are neither underscores nor digits.
    Chars(&'a str),
}

impl View for Atom<'_> {
    type V = AtomView;

    open spec fn view(&self) -> AtomView {
        match *self {
            Atom::Underscore(n) => AtomView::Underscore(n as nat),
            Atom::Number(s) => AtomView::Number(s.spec_bytes()),
            Atom::Chars(s) => AtomView::Chars(s.spec_bytes()),
        }
    }
}

impl Atom<'_> {
    /// The length of the run if the atom is a run of underscores, else zero.
    pub fn underscores(&self) -> (n: usize)
        ensures
            n == self@.underscores(),
    {
        match *self {
            Atom::Underscore(n) => n,
            _ => 0,
        }
    }
}

/// The class of one byte.
pub fn classify(b: u8) -> (c: Class)
    ensures
        c == class_of(b),
{
    if b == UNDERSCORE {
        Class::Underscore
    } else if ZERO <= b && b <= NINE {
        Class::Digit
    } else {
        Class::Other
    }
}

/// Starts at the beginning of `string`.
pub fn iter_atoms(string: &str) -> (it: AtomIter<'_>)
    ensures
        it@ == string.spec_bytes(),
{
    AtomIter { rest: string }
}

/// Hands out the atoms of a name one by one, from the front. Its view is the
/// part of the name that it has not handed out yet.
pub struct AtomIter<'a> {
    rest: &'a str,
}

impl View for AtomIter<'_> {
    type V = Seq<u8>;

    closed spec fn view(&self) -> Seq<u8> {
        self.rest.spec_bytes()
    }
}

impl<'a> AtomIter<'a> {
    /// The next atom, or `None` once the name is used up. The atom is the
    /// first one of what was left, and what is left afterwards starts behind
    /// it.
    pub fn next(&mut self) -> (r: Option<Atom<'a>>)
        ensures
            match r {
                None => old(self)@.len() == 0 && final(self)@ == old(self)@,
                Some(a) => old(self)@.len() > 0 && a@ == first_atom(old(self)@) && final(self)@
                    == old(self)@.skip(first_len(old(self)@) as int),
            },
            atoms(old(self)@) == match r {
                Some(a) => seq![a@] + atoms(final(self)@),
                None => Seq::empty(),
            },
    {
        let text: &'a str = self.rest;
        let bytes = text.as_bytes();
        if bytes.len() == 0 {
            return None;
        }
        let class = classify(bytes[0]);
        let mut end: usize = 1;
        while end < bytes.len() && classify(bytes[end]) == class
            invariant
                1 <= end <= bytes.len(),
                forall|i: int| 0 <= i < end ==> class_of(#[trigger] bytes[i]) == class,
            decreases bytes.len() - end,
        {
            end += 1;
        }
        proof {
            lemma_run_of_unique(bytes@, class, end as int);
            encode_utf8_valid_utf8(text@);
            lemma_first_len_boundary(bytes@);
        }
        let (run, rest) = text.split_at(end);
        self.rest = rest;
        Some(
            match class {
                Class::Underscore => Atom::Underscore(end),
                Class::Digit => Atom::Number(run),
                Class::Other => Atom::Chars(run),
            },
        )
    }
}

/// Plain order of two texts, byte by byte.
pub open spec fn lex_order(l: Seq<u8>, r: Seq<u8>) -> Ordering {
    lexicographic(l, r, byte_ord())
}

/// `s` without the zeros at its start.
pub open spec fn strip_zeros(s: Seq<u8>) -> Seq<u8>
    decreases s.len(),
{
    if s.len() > 0 && s[0] == ZERO {
        strip_zeros(s.drop_first())
    } else {
        s
    }
}

/// The order of two runs of digits by the numbers they stand for: without
/// the zeros at their start, the longer run is the larger number, and of two
/// runs of one length the plain order decides.
pub open spec fn numeric_order(l: Seq<u8>, r: Seq<u8>) -> Ordering {
    let a = strip_zeros(l);
    let b = strip_zeros(r);
    followed_by(nat_order(a.len(), b.len()), lex_order(a, b))
}

/// The byte in ASCII lower case.
pub open spec fn fold(b: u8) -> u8 {
    if 0x41 <= b <= 0x5a {
        (b + 0x20) as u8
    } else {
        b
    }
}

/// The text with every byte in ASCII lower case.
pub open spec fn folded(s: Seq<u8>) -> Seq<u8> {
    s.map_values(|b: u8| fold(b))
}

/// The order of two runs of text. They are compared without regard to ASCII
/// case first: byte by byte in lower case, and a run that starts another
/// comes first. Only where that finds them equal, the bytes as they are
/// written decide, in plain order.
pub open spec fn caseless_order(l: Seq<u8>, r: Seq<u8>) -> Ordering {
    followed_by(lex_order(folded(l), folded(r)), lex_order(l, r))
}

/// [`caseless_order`] as a function.
pub open spec fn caseless_ord() -> spec_fn(Seq<u8>, Seq<u8>) -> Ordering {
    |l: Seq<u8>, r: Seq<u8>| caseless_order(l, r)
}

/// The order of two atoms. Underscores come before numbers and numbers
/// before text; two atoms of one kind are ordered by what they hold.
pub open spec fn atom_order(a: AtomView, b: AtomView) -> Ordering {
    match (a, b) {
        (AtomView::Underscore(l), AtomView::Underscore(r)) => nat_order(l, r),
        (AtomView::Underscore(_), _) => Ordering::Less,
        (_, AtomView::Underscore(_)) => Ordering::Greater,
        (AtomView::Number(l), AtomView::Number(r)) => numeric_order(l, r),
        (AtomView::Number(_), AtomView::Chars(_)) => Ordering::Less,
        (AtomView::Chars(_), AtomView::Number(_)) => Ordering::Greater,
        (AtomView::Chars(l), AtomView::Chars(r)) => caseless_order(l, r),
    }
}

/// [`numeric_order`] as a function.
pub open spec fn numeric_ord() -> spec_fn(Seq<u8>, Seq<u8>) -> Ordering {
    |l: Seq<u8>, r: Seq<u8>| numeric_order(l, r)
}

/// [`atom_order`] as a function.
pub open spec fn atom_ord() -> spec_fn(AtomView, AtomView) -> Ordering {
    |a: AtomView, b: AtomView| atom_order(a, b)
}

/// Two texts are equal in plain order only where they are the same bytes.
pub proof fn lemma_lex_equal_is_same(l: Seq<u8>, r: Seq<u8>)
    ensures
        lex_order(l, r) == Ordering::Equal <==> l == r,
    decreases l.len(),
{
    if l.len() > 0 && r.len() > 0 {
        lemma_lex_equal_is_same(l.drop_first(), r.drop_first());
        if l[0] == r[0] && l.drop_first() == r.drop_first() {
            assert(l =~= seq![l[0]] + l.drop_first());
            assert(r =~= seq![r[0]] + r.drop_first());
        }
    } else if l.len() == 0 && r.len() == 0 {
        assert(l =~= r);
    }
}

/// Case alone never makes two runs of text equal: they are equal in order
/// only where they are the same bytes.
pub proof fn lemma_caseless_equal_is_same(l: Seq<u8>, r: Seq<u8>)
    ensures
        caseless_order(l, r) == Ordering::Equal <==> l == r,
{
    lemma_lex_equal_is_same(l, r);
    lemma_lex_equal_is_same(folded(l), folded(r));
}

/// The order of runs of text is total.
pub proof fn lemma_caseless_order_total()
    ensures
        total(caseless_ord()),
{
    let ord = caseless_ord();
    lemma_byte_order_total();
    lemma_lexicographic_total(byte_ord());
    let lex = lexicographic_by(byte_ord());
    assert forall|x: Seq<u8>| #[trigger] ord(x, x) == Ordering::Equal by {
        assert(lex(folded(x), folded(x)) == Ordering::Equal);
        assert(lex(x, x) == Ordering::Equal);
    }
    assert forall|x: Seq<u8>, y: Seq<u8>| #[trigger] ord(y, x) == reversed(ord(x, y)) by {
        assert(lex(folded(y), folded(x)) == reversed(lex(folded(x), folded(y))));
        assert(lex(y, x) == reversed(lex(x, y)));
    }
    assert forall|x: Seq<u8>, y: Seq<u8>, z: Seq<u8>| #![trigger ord(x, y), ord(y, z)]
        chains(ord, x, y, z) by {
        assert(chains(lex, folded(x), folded(y), folded(z)));
        assert(chains(lex, x, y, z));
        assert(lex(folded(z), folded(x)) == reversed(lex(folded(x), folded(z))));
        assert(lex(folded(y), folded(x)) == reversed(lex(folded(x), folded(y))));
        assert(lex(folded(z), folded(y)) == reversed(lex(folded(y), folded(z))));
        if lex(folded(x), folded(y)) == Ordering::Equal {
            lemma_equal_compares_alike(lex, folded(x), folded(y), folded(z));
        }
        if lex(folded(y), folded(z)) == Ordering::Equal {
            lemma_equal_compares_alike(lex, folded(y), folded(z), folded(x));
        }
    }
}

/// The order of runs of digits is total.
pub proof fn lemma_numeric_order_total()
    ensures
        total(numeric_ord()),
{
    let ord = numeric_ord();
    lemma_byte_order_total();
    lemma_lexicographic_total(byte_ord());
    let lex = lexicographic_by(byte_ord());
    assert forall|x: Seq<u8>| #[trigger] ord(x, x) == Ordering::Equal by {
        assert(lex(strip_zeros(x), strip_zeros(x)) == Ordering::Equal);
    }
    assert forall|x: Seq<u8>, y: Seq<u8>| #[trigger] ord(y, x) == reversed(ord(x, y)) by {
        assert(lex(strip_zeros(y), strip_zeros(x)) == reversed(
            lex(strip_zeros(x), strip_zeros(y)),
        ));
    }
    assert forall|x: Seq<u8>, y: Seq<u8>, z: Seq<u8>| #![trigger ord(x, y), ord(y, z)]
        chains(ord, x, y, z) by {
        assert(chains(lex, strip_zeros(x), strip_zeros(y), strip_zeros(z)));
    }
}

/// The order of atoms is total.
pub proof fn lemma_atom_order_total()
    ensures
        total(atom_ord()),
{
    let ord = atom_ord();
    lemma_numeric_order_total();
    lemma_caseless_order_total();
    let num = numeric_ord();
    let txt = caseless_ord();
    assert forall|x: AtomView| #[trigger] ord(x, x) == Ordering::Equal by {
        match x {
            AtomView::Underscore(_) => {},
            AtomView::Number(s) => {
                assert(num(s, s) == Ordering::Equal);
            },
            AtomView::Chars(s) => {
                assert(txt(s, s) == Ordering::Equal);
            },
        }
    }
    assert forall|x: AtomView, y: AtomView| #[trigger] ord(y, x) == reversed(ord(x, y)) by {
        match (x, y) {
            (AtomView::Number(s), AtomView::Number(t)) => {
                assert(num(t, s) == reversed(num(s, t)));
            },
            (AtomView::Chars(s), AtomView::Chars(t)) => {
                assert(txt(t, s) == reversed(txt(s, t)));
            },
            _ => {},
        }
    }
    assert forall|x: AtomView, y: AtomView, z: AtomView| #![trigger ord(x, y), ord(y, z)]
        chains(ord, x, y, z) by {
        match (x, y, z) {
            (AtomView::Number(s), AtomView::Number(t), AtomView::Number(u)) => {
                assert(chains(num, s, t, u));
            },
            (AtomView::Chars(s), AtomView::Chars(t), AtomView::Chars(u)) => {
                assert(chains(txt, s, t, u));
            },
            _ => {},
        }
    }
}

/// What is left of `s` behind its first `n` bytes, which are all zeros, where
/// the next byte is not a zero, is `s` without the zeros at its start.
proof fn lemma_strip_zeros(s: Seq<u8>, n: int)
    requires
        0 <= n <= s.len(),
        forall|i: int| 0 <= i < n ==> s[i] == ZERO,
        n < s.len() ==> s[n] != ZERO,
    ensures
        strip_zeros(s) == s.skip(n),
    decreases n,
{
    if n > 0 {
        let t = s.drop_first();
        assert forall|i: int| 0 <= i < n - 1 implies t[i] == ZERO by {
            assert(t[i] == s[i + 1]);
        }
        lemma_strip_zeros(t, n - 1);
        assert(t.skip(n - 1) =~= s.skip(n));
    } else {
        assert(s.skip(0) =~= s);
    }
}

/// The number of zeros at the start of `s`.
fn leading_zeros(s: &[u8]) -> (n: usize)
    ensures
        n <= s@.len(),
        s@.skip(n as int) == strip_zeros(s@),
{
    let mut n: usize = 0;
    while n < s.len() && s[n] == ZERO
        invariant
            n <= s@.len(),
            forall|i: int| 0 <= i < n ==> s@[i] == ZERO,
        decreases s@.len() - n,
    {
        n += 1;
    }
    proof {
        lemma_strip_zeros(s@, n as int);
    }
    n
}

/// The byte in ASCII lower case.
pub fn to_lower(b: u8) -> (r: u8)
    ensures
        r == fold(b),
{
    if 0x41 <= b && b <= 0x5a {
        b + 0x20
    } else {
        b
    }
}

/// Plain order of two texts, byte by byte: the first place at which they
/// differ decides, and a text that starts another comes first.
pub fn cmp_bytes(l: &[u8], r: &[u8]) -> (o: Ordering)
    ensures
        o == lex_order(l@, r@),
{
    let mut i: usize = 0;
    proof {
        lemma_lexicographic_start(l@, r@, byte_ord());
    }
    while i < l.len() && i < r.len()
        invariant
            i <= l@.len(),
            i <= r@.len(),
            lex_order(l@, r@) == lex_order(l@.skip(pos(i)), r@.skip(pos(i))),
        decreases l@.len() - i,
    {
        let a = l[i];
        let b = r[i];
        proof {
            lemma_lexicographic_step(l@, r@, byte_ord(), pos(i));
        }
        if a < b {
            return Ordering::Less;
        }
        if a > b {
            return Ordering::Greater;
        }
        i += 1;
    }
    proof {
        lemma_lexicographic_end(l@, r@, byte_ord(), pos(i));
    }
    if l.len() < r.len() {
        Ordering::Less
    } else if l.len() == r.len() {
        Ordering::Equal
    } else {
        Ordering::Greater
    }
}

/// The order of two runs of digits by the numbers they stand for, however
/// long the runs are.
pub fn cmp_numeric(l: &str, r: &str) -> (o: Ordering)
    ensures
        o == numeric_order(l.spec_bytes(), r.spec_bytes()),
{
    // Trim leading zeros.
    let l = l.as_bytes();
    let r = r.as_bytes();
    let l = &l[leading_zeros(l)..l.len()];
    let r = &r[leading_zeros(r)..r.len()];

    if l.len() < r.len() {
        Ordering::Less
    } else if l.len() > r.len() {
        Ordering::Greater
    } else {
        cmp_bytes(l, r)
    }
}

/// The order of two runs of text: without regard to ASCII case first, and
/// where that finds them equal, by the bytes as they are written.
pub fn cmp_ignore_case(l: &str, r: &str) -> (o: Ordering)
    ensures
        o == caseless_order(l.spec_bytes(), r.spec_bytes()),
{
    let lhs = l.as_bytes();
    let rhs = r.as_bytes();
    // What the bytes as written say of the part that was looked at.
    let mut tie = Ordering::Equal;
    let mut i: usize = 0;
    proof {
        lemma_lexicographic_start(lhs@, rhs@, byte_ord());
        lemma_lexicographic_start(folded(lhs@), folded(rhs@), byte_ord());
    }
    while i < lhs.len() && i < rhs.len()
        invariant
            lhs@ == l.spec_bytes(),
            rhs@ == r.spec_bytes(),
            i <= lhs@.len(),
            i <= rhs@.len(),
            lex_order(folded(lhs@), folded(rhs@)) == lex_order(
                folded(lhs@).skip(pos(i)),
                folded(rhs@).skip(pos(i)),
            ),
            lex_order(lhs@, rhs@) == followed_by(
                tie,
                lex_order(lhs@.skip(pos(i)), rhs@.skip(pos(i))),
            ),
        decreases lhs@.len() - i,
    {
        let a = lhs[i];
        let b = rhs[i];
        let la = to_lower(a);
        let lb = to_lower(b);
        proof {
            lemma_lexicographic_step(folded(lhs@), folded(rhs@), byte_ord(), pos(i));
            lemma_lexicographic_step(lhs@, rhs@, byte_ord(), pos(i));
        }
        if la < lb {
            return Ordering::Less;
        }
        if la > lb {
            return Ordering::Greater;
        }
        match tie {
            Ordering::Equal => {
                if a < b {
                    tie = Ordering::Less;
                } else if a > b {
                    tie = Ordering::Greater;
                }
            },
            _ => {},
        }
        i += 1;
    }
    proof {
        lemma_lexicographic_end(folded(lhs@), folded(rhs@), byte_ord(), pos(i));
        lemma_lexicographic_end(lhs@, rhs@, byte_ord(), pos(i));
    }
    if lhs.len() < rhs.len() {
        Ordering::Less
    } else if lhs.len() > rhs.len() {
        Ordering::Greater
    } else {
        tie
    }
}

impl Atom<'_> {
    /// The order of two atoms: underscores before numbers before text, and
    /// two atoms of one kind by what they hold.
    pub fn cmp(&self, other: &Atom<'_>) -> (o: Ordering)
        ensures
            o == atom_order(self@, other@),
    {
        match (*self, *other) {
            (Atom::Underscore(l), Atom::Underscore(r)) => {
                if l < r {
                    Ordering::Less
                } else if l == r {
                    Ordering::Equal
                } else {
                    Ordering::Greater
                }
            },
            (Atom::Underscore(_), _) => Ordering::Less,
            (_, Atom::Underscore(_)) => Ordering::Greater,
            (Atom::Number(l), Atom::Number(r)) => cmp_numeric(l, r),
            (Atom::Number(_), Atom::Chars(_)) => Ordering::Less,
            (Atom::Chars(_), Atom::Number(_)) => Ordering::Greater,
            (Atom::Chars(l), Atom::Chars(r)) => cmp_ignore_case(l, r),
        }
    }
}

/// `<`, `<=`, `>` and `>=` between atoms go by [`atom_order`].
impl PartialOrd for Atom<'_> {
    fn partial_cmp(&self, other: &Self) -> (o: Option<Ordering>) {
        Some(self.cmp(other))
    }
}

impl vstd::std_specs::cmp::PartialOrdSpecImpl for Atom<'_> {
    open spec fn obeys_partial_cmp_spec() -> bool {
        true
    }

    open spec fn partial_cmp_spec(&self, other: &Self) -> Option<Ordering> {
        Some(atom_order(self@, other@))
    }
}

} // verus!
