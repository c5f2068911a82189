//! The order of names and of paths.
//!
//! A name is ordered by its atoms, one after the other. The name `_` stands
//! for "everything else" and comes after every other name. Names that start
//! with underscores can be wanted first or last: [`UnderscoreOrder`] says
//! which. A path is a list of names, ordered name by name.

use crate::atom::{
    atom_ord, atoms, iter_atoms, lemma_atom_order_total, lemma_first_len, run_of, Atom, AtomView,
    Class, UNDERSCORE,
};
use crate::order::{
    chains, followed_by, lemma_lexicographic_antisymmetric, lemma_lexicographic_end,
    lemma_lexicographic_reflexive, lemma_lexicographic_start, lemma_lexicographic_step,
    lemma_lexicographic_total, lemma_lexicographic_transitive, lexicographic, lexicographic_by,
    nat_order, pos, reversed, total,
};
use std::cmp::Ordering;
use vstd::prelude::*;
use vstd::string::StringSliceAdditionalSpecFns;
use vstd::utf8::*;

verus! {

/// Where names that start with underscores belong.
#[derive(Copy, Clone, Debug, PartialEq, Eq, Structural)]
pub enum UnderscoreOrder {
    /// Before names that start with a digit or a letter.
    First,
    /// After them, and more underscores later.
    Last,
}

/// The name `_`.
pub open spec fn wildcard() -> Seq<u8> {
    seq![UNDERSCORE]
}

/// The number of underscores at the start of a name.
pub open spec fn leading_underscores(name: Seq<u8>) -> nat {
    run_of(name, Class::Underscore)
}

/// The order of two sequences of atoms: the first pair of atoms that are not
/// equal decides, and a sequence that starts another comes first.
pub open spec fn atoms_order(l: Seq<AtomView>, r: Seq<AtomView>) -> Ordering {
    lexicographic(l, r, atom_ord())
}

/// The order of two names. The name `_` is equal to itself and comes after
/// every other name. Where underscores are wanted last, the name with more
/// underscores at its start comes later. Everything else is decided by the
/// atoms of the two names.
pub open spec fn name_order(a: Seq<u8>, b: Seq<u8>, mode: UnderscoreOrder) -> Ordering {
    if a == wildcard() && b == wildcard() {
        Ordering::Equal
    } else if a == wildcard() {
        Ordering::Greater
    } else if b == wildcard() {
        Ordering::Less
    } else if mode == UnderscoreOrder::Last && leading_underscores(a) != leading_underscores(b) {
        nat_order(leading_underscores(a), leading_underscores(b))
    } else {
        atoms_order(atoms(a), atoms(b))
    }
}

/// [`name_order`] under one policy, as a function.
pub open spec fn name_ord(mode: UnderscoreOrder) -> spec_fn(Seq<u8>, Seq<u8>) -> Ordering {
    |a: Seq<u8>, b: Seq<u8>| name_order(a, b, mode)
}

/// Whether `name` is the name `_`.
pub fn is_wildcard(name: &str) -> (b: bool)
    ensures
        b == (name.spec_bytes() == wildcard()),
{
    let bytes = name.as_bytes();
    let b = bytes.len() == 1 && bytes[0] == UNDERSCORE;
    proof {
        if b {
            assert(bytes@ =~= wildcard());
        }
    }
    b
}

/// The atoms that are still to be compared: the one in hand, if any, and
/// those of the text behind it.
spec fn pending(head: Option<Atom<'_>>, rest: Seq<u8>) -> Seq<AtomView> {
    match head {
        Some(a) => seq![a@] + atoms(rest),
        None => Seq::empty(),
    }
}

/// The order of two names under a policy.
pub fn cmp_segment(lhs: &str, rhs: &str, mode: UnderscoreOrder) -> (o: Ordering)
    ensures
        o == name_order(lhs.spec_bytes(), rhs.spec_bytes(), mode),
{
    // Sort `_` last.
    match (is_wildcard(lhs), is_wildcard(rhs)) {
        (true, true) => return Ordering::Equal,
        (true, false) => return Ordering::Greater,
        (false, true) => return Ordering::Less,
        (false, false) => {},
    }

    let mut lhs_atoms = iter_atoms(lhs);
    let mut rhs_atoms = iter_atoms(rhs);

    let mut left = lhs_atoms.next();
    let mut right = rhs_atoms.next();

    if mode == UnderscoreOrder::Last {
        // Compare leading underscores.
        let l = match left {
            Some(atom) => atom.underscores(),
            None => 0,
        };
        let r = match right {
            Some(atom) => atom.underscores(),
            None => 0,
        };
        if l < r {
            return Ordering::Less;
        }
        if l > r {
            return Ordering::Greater;
        }
    }

    loop
        invariant
            name_order(lhs.spec_bytes(), rhs.spec_bytes(), mode) == atoms_order(
                pending(left, lhs_atoms@),
                pending(right, rhs_atoms@),
            ),
        decreases lhs_atoms@.len() + if left is Some { 1nat } else { 0nat },
    {
        match (left, right) {
            (None, None) => return Ordering::Equal,
            (None, Some(_)) => return Ordering::Less,
            (Some(_), None) => return Ordering::Greater,
            (Some(l), Some(r)) => {
                proof {
                    let ls = pending(left, lhs_atoms@);
                    let rs = pending(right, rhs_atoms@);
                    assert(ls.drop_first() =~= atoms(lhs_atoms@));
                    assert(rs.drop_first() =~= atoms(rhs_atoms@));
                    lemma_first_len(lhs_atoms@);
                }
                match l.cmp(&r) {
                    Ordering::Equal => {},
                    non_eq => return non_eq,
                }
                left = lhs_atoms.next();
                right = rhs_atoms.next();
            },
        }
    }
}

/// One name of a path.
#[derive(Clone, Debug, PartialEq, Eq)]
pub enum Segment {
    /// The name of a variant, a field, a module or a type.
    Identifier(String),
    /// The text of a string literal.
    Literal(String),
    /// The pattern `_`.
    Wildcard,
}

impl Segment {
    /// The bytes of the text by which the segment is ordered.
    pub open spec fn name(&self) -> Seq<u8> {
        match self {
            Segment::Identifier(s) => encode_utf8(s@),
            Segment::Literal(s) => encode_utf8(s@),
            Segment::Wildcard => wildcard(),
        }
    }

    /// The text by which the segment is ordered, as characters.
    pub open spec fn label(&self) -> Seq<char> {
        match self {
            Segment::Identifier(s) => s@,
            Segment::Literal(s) => s@,
            Segment::Wildcard => "_"@,
        }
    }

    /// The text by which the segment is ordered.
    pub fn text(&self) -> (t: &str)
        ensures
            t@ == self.label(),
            t.spec_bytes() == self.name(),
    {
        match self {
            Segment::Identifier(s) => s.as_str(),
            Segment::Literal(s) => s.as_str(),
            Segment::Wildcard => {
                proof {
                    reveal_strlit("_");
                    is_ascii_chars_encode_utf8("_"@);
                    assert("_".spec_bytes() =~= wildcard());
                }
                "_"
            },
        }
    }
}

/// A coarse bucket. Where two paths both carry one, the buckets are compared
/// before any name is looked at, the lower rank first.
#[derive(Copy, Clone, Debug, PartialEq, Eq)]
pub struct Category {
    pub rank: u32,
}

/// What is put in order: a list of names, with or without a bucket.
#[derive(Clone, Debug, PartialEq, Eq)]
pub struct Path {
    pub category: Option<Category>,
    pub segments: Vec<Segment>,
}

/// A path as mathematics: the rank of its bucket, if it has one, and its
/// names as bytes.
pub struct PathView {
    pub category: Option<nat>,
    pub segments: Seq<Seq<u8>>,
}

impl View for Path {
    type V = PathView;

    open spec fn view(&self) -> PathView {
        PathView {
            category: match self.category {
                Some(c) => Some(c.rank as nat),
                None => None,
            },
            segments: self.segments@.map_values(|s: Segment| s.name()),
        }
    }
}

impl Segment {
    /// A copy of the segment.
    pub fn copy(&self) -> (c: Segment)
        ensures
            c == *self,
    {
        match self {
            Segment::Identifier(s) => Segment::Identifier(s.clone()),
            Segment::Literal(s) => Segment::Literal(s.clone()),
            Segment::Wildcard => Segment::Wildcard,
        }
    }
}

impl Path {
    /// Whether two paths have the same bucket and the same segments.
    pub open spec fn same(self, other: Path) -> bool {
        self.category == other.category && self.segments@ == other.segments@
    }

    /// A copy of the path.
    pub fn copy(&self) -> (c: Path)
        ensures
            c.same(*self),
    {
        let mut segments: Vec<Segment> = Vec::new();
        let mut i: usize = 0;
        while i < self.segments.len()
            invariant
                i <= self.segments@.len(),
                segments@ == self.segments@.take(i as int),
            decreases self.segments@.len() - i,
        {
            segments.push(self.segments[i].copy());
            proof {
                assert(self.segments@.take(i + 1) =~= self.segments@.take(i as int).push(
                    self.segments@[i as int],
                ));
            }
            i += 1;
        }
        proof {
            assert(self.segments@.take(i as int) =~= self.segments@);
        }
        Path { category: self.category, segments }
    }

    /// The path of one name, without a bucket.
    pub fn of(segment: Segment) -> (path: Path)
        ensures
            path.category is None,
            path.segments@ == seq![segment],
    {
        Path { category: None, segments: vec![segment] }
    }
}

/// The order of two buckets, which decides only where both paths have one.
pub open spec fn category_order(a: Option<nat>, b: Option<nat>) -> Ordering {
    match (a, b) {
        (Some(x), Some(y)) => nat_order(x, y),
        _ => Ordering::Equal,
    }
}

/// The order of two paths. Where both carry a bucket and the buckets differ,
/// the buckets decide. Else the first pair of names that are not equal
/// decides, and a path that starts another comes first.
pub open spec fn path_order(a: PathView, b: PathView, mode: UnderscoreOrder) -> Ordering {
    followed_by(
        category_order(a.category, b.category),
        lexicographic(a.segments, b.segments, name_ord(mode)),
    )
}

/// The order of two paths under a policy.
pub fn cmp(lhs: &Path, rhs: &Path, mode: UnderscoreOrder) -> (o: Ordering)
    ensures
        o == path_order(lhs@, rhs@, mode),
{
    match (lhs.category, rhs.category) {
        (Some(l), Some(r)) => {
            if l.rank < r.rank {
                return Ordering::Less;
            }
            if l.rank > r.rank {
                return Ordering::Greater;
            }
        },
        _ => {},
    }

    // Lexicographic ordering across path segments.
    let mut i: usize = 0;
    proof {
        lemma_lexicographic_start(lhs@.segments, rhs@.segments, name_ord(mode));
    }
    while i < lhs.segments.len() && i < rhs.segments.len()
        invariant
            i <= lhs@.segments.len(),
            i <= rhs@.segments.len(),
            path_order(lhs@, rhs@, mode) == lexicographic(
                lhs@.segments.skip(pos(i)),
                rhs@.segments.skip(pos(i)),
                name_ord(mode),
            ),
        decreases lhs@.segments.len() - i,
    {
        proof {
            lemma_lexicographic_step(lhs@.segments, rhs@.segments, name_ord(mode), pos(i));
        }
        match cmp_segment(lhs.segments[i].text(), rhs.segments[i].text(), mode) {
            Ordering::Equal => {},
            non_eq => return non_eq,
        }
        i += 1;
    }
    proof {
        lemma_lexicographic_end(lhs@.segments, rhs@.segments, name_ord(mode), pos(i));
    }

    if lhs.segments.len() < rhs.segments.len() {
        Ordering::Less
    } else if lhs.segments.len() == rhs.segments.len() {
        Ordering::Equal
    } else {
        Ordering::Greater
    }
}

/// Under either policy the order of names is total: every name is equal to
/// itself, comparing the other way round gives the reverse, and steps chain.
pub proof fn lemma_name_order_total(mode: UnderscoreOrder)
    ensures
        total(name_ord(mode)),
{
    let ord = name_ord(mode);
    lemma_atom_order_total();
    lemma_lexicographic_total(atom_ord());
    let lex = lexicographic_by(atom_ord());
    assert forall|x: Seq<u8>| #[trigger] ord(x, x) == Ordering::Equal by {
        assert(lex(atoms(x), atoms(x)) == Ordering::Equal);
    }
    assert forall|x: Seq<u8>, y: Seq<u8>| #[trigger] ord(y, x) == reversed(ord(x, y)) by {
        assert(lex(atoms(y), atoms(x)) == reversed(lex(atoms(x), atoms(y))));
    }
    assert forall|x: Seq<u8>, y: Seq<u8>, z: Seq<u8>| #![trigger ord(x, y), ord(y, z)]
        chains(ord, x, y, z) by {
        assert(chains(lex, atoms(x), atoms(y), atoms(z)));
    }
}

/// Every name is equal to itself.
pub proof fn lemma_name_order_reflexive(a: Seq<u8>, mode: UnderscoreOrder)
    ensures
        name_order(a, a, mode) == Ordering::Equal,
{
    lemma_name_order_total(mode);
    assert(name_ord(mode)(a, a) == Ordering::Equal);
}

/// Comparing two names the other way round gives the reverse: `a` is before
/// `b` exactly when `b` is after `a`, and they are equal one way exactly when
/// they are equal the other way.
pub proof fn lemma_name_order_antisymmetric(a: Seq<u8>, b: Seq<u8>, mode: UnderscoreOrder)
    ensures
        name_order(b, a, mode) == reversed(name_order(a, b, mode)),
{
    lemma_name_order_total(mode);
    assert(name_ord(mode)(b, a) == reversed(name_ord(mode)(a, b)));
}

/// The order of names is transitive: where `a` is not after `b` and `b` is
/// not after `c`, `a` is not after `c`; and `a` is before `c` where it is
/// before `b` or `b` is before `c`.
pub proof fn lemma_name_order_transitive(
    a: Seq<u8>,
    b: Seq<u8>,
    c: Seq<u8>,
    mode: UnderscoreOrder,
)
    requires
        name_order(a, b, mode) != Ordering::Greater,
        name_order(b, c, mode) != Ordering::Greater,
    ensures
        name_order(a, c, mode) != Ordering::Greater,
        name_order(a, b, mode) == Ordering::Less || name_order(b, c, mode) == Ordering::Less
            ==> name_order(a, c, mode) == Ordering::Less,
{
    lemma_name_order_total(mode);
    assert(chains(name_ord(mode), a, b, c));
}

/// Every path is equal to itself.
pub proof fn lemma_path_order_reflexive(a: PathView, mode: UnderscoreOrder)
    ensures
        path_order(a, a, mode) == Ordering::Equal,
{
    lemma_name_order_total(mode);
    lemma_lexicographic_reflexive(name_ord(mode), a.segments);
}

/// Comparing two paths the other way round gives the reverse.
pub proof fn lemma_path_order_antisymmetric(a: PathView, b: PathView, mode: UnderscoreOrder)
    ensures
        path_order(b, a, mode) == reversed(path_order(a, b, mode)),
{
    lemma_name_order_total(mode);
    lemma_lexicographic_antisymmetric(name_ord(mode), a.segments, b.segments);
}

/// Among paths that all carry a bucket, and among paths of which none does,
/// the order is transitive: where `a` is not after `b` and `b` is not after
/// `c`, `a` is not after `c`; and `a` is before `c` where it is before `b` or
/// `b` is before `c`.
pub proof fn lemma_path_order_transitive(
    a: PathView,
    b: PathView,
    c: PathView,
    mode: UnderscoreOrder,
)
    requires
        a.category is Some <==> b.category is Some,
        b.category is Some <==> c.category is Some,
        path_order(a, b, mode) != Ordering::Greater,
        path_order(b, c, mode) != Ordering::Greater,
    ensures
        path_order(a, c, mode) != Ordering::Greater,
        path_order(a, b, mode) == Ordering::Less || path_order(b, c, mode) == Ordering::Less
            ==> path_order(a, c, mode) == Ordering::Less,
{
    lemma_name_order_total(mode);
    lemma_lexicographic_transitive(name_ord(mode), a.segments, b.segments, c.segments);
    assert(chains(lexicographic_by(name_ord(mode)), a.segments, b.segments, c.segments));
}

} // verus!
