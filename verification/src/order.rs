//! Three-way orders as mathematics: the order of numbers, the order of
//! sequences that follows from an order of their items, and what it means for
//! such an order to be total.

use std::cmp::Ordering;
use vstd::prelude::*;

verus! {

/// The integer that an index stands for.
pub open spec fn pos(i: usize) -> int {
    i as int
}

/// The order of two natural numbers.
pub open spec fn nat_order(a: nat, b: nat) -> Ordering {
    if a < b {
        Ordering::Less
    } else if a == b {
        Ordering::Equal
    } else {
        Ordering::Greater
    }
}

/// The order of two bytes by their value.
pub open spec fn byte_order(a: u8, b: u8) -> Ordering {
    if a < b {
        Ordering::Less
    } else if a == b {
        Ordering::Equal
    } else {
        Ordering::Greater
    }
}

/// The order of bytes by their value, as a function.
pub open spec fn byte_ord() -> spec_fn(u8, u8) -> Ordering {
    |a: u8, b: u8| byte_order(a, b)
}

/// The same comparison seen from the other side.
pub open spec fn reversed(o: Ordering) -> Ordering {
    match o {
        Ordering::Less => Ordering::Greater,
        Ordering::Equal => Ordering::Equal,
        Ordering::Greater => Ordering::Less,
    }
}

/// `first` where it decides, else `second`.
pub open spec fn followed_by(first: Ordering, second: Ordering) -> Ordering {
    if first == Ordering::Equal {
        second
    } else {
        first
    }
}

/// The order of two sequences by the first place at which their items are
/// not equal under `ord`. Where there is no such place within both, the
/// shorter sequence comes first.
pub open spec fn lexicographic<A>(l: Seq<A>, r: Seq<A>, ord: spec_fn(A, A) -> Ordering) -> Ordering
    decreases l.len(),
{
    if l.len() == 0 || r.len() == 0 {
        nat_order(l.len(), r.len())
    } else if ord(l[0], r[0]) != Ordering::Equal {
        ord(l[0], r[0])
    } else {
        lexicographic(l.drop_first(), r.drop_first(), ord)
    }
}

/// Lexicographic order from place `i` on: the items at `i` decide where they
/// are not equal, else the order from the next place on.
pub proof fn lemma_lexicographic_step<A>(
    l: Seq<A>,
    r: Seq<A>,
    ord: spec_fn(A, A) -> Ordering,
    i: int,
)
    requires
        0 <= i < l.len(),
        i < r.len(),
    ensures
        lexicographic(l.skip(i), r.skip(i), ord) == if ord(l[i], r[i]) != Ordering::Equal {
            ord(l[i], r[i])
        } else {
            lexicographic(l.skip(i + 1), r.skip(i + 1), ord)
        },
{
    assert(l.skip(i).drop_first() =~= l.skip(i + 1));
    assert(r.skip(i).drop_first() =~= r.skip(i + 1));
}

/// Lexicographic order from a place on at which one of the two sequences
/// ends: the shorter one comes first.
pub proof fn lemma_lexicographic_end<A>(
    l: Seq<A>,
    r: Seq<A>,
    ord: spec_fn(A, A) -> Ordering,
    i: int,
)
    requires
        0 <= i <= l.len(),
        i <= r.len(),
        i == l.len() || i == r.len(),
    ensures
        lexicographic(l.skip(i), r.skip(i), ord) == nat_order(l.len(), r.len()),
{
}

/// Lexicographic order of two sequences is their order from the start on.
pub proof fn lemma_lexicographic_start<A>(l: Seq<A>, r: Seq<A>, ord: spec_fn(A, A) -> Ordering)
    ensures
        lexicographic(l.skip(0), r.skip(0), ord) == lexicographic(l, r, ord),
{
    assert(l.skip(0) =~= l);
    assert(r.skip(0) =~= r);
}

/// Every value is equal to itself under `ord`.
pub open spec fn reflexive<A>(ord: spec_fn(A, A) -> Ordering) -> bool {
    forall|x: A| #[trigger] ord(x, x) == Ordering::Equal
}

/// Comparing the other way round gives the reverse.
pub open spec fn antisymmetric<A>(ord: spec_fn(A, A) -> Ordering) -> bool {
    forall|x: A, y: A| #[trigger] ord(y, x) == reversed(ord(x, y))
}

/// What `ord` says of `x` and `z` where `x` is not after `y` and `y` is not
/// after `z`: `x` is not after `z`, and it is before `z` where one of the two
/// steps is strict.
pub open spec fn chains<A>(ord: spec_fn(A, A) -> Ordering, x: A, y: A, z: A) -> bool {
    ord(x, y) != Ordering::Greater && ord(y, z) != Ordering::Greater ==> {
        &&& ord(x, z) != Ordering::Greater
        &&& ord(x, y) == Ordering::Less || ord(y, z) == Ordering::Less ==> ord(x, z)
            == Ordering::Less
    }
}

/// Steps under `ord` chain.
pub open spec fn transitive<A>(ord: spec_fn(A, A) -> Ordering) -> bool {
    forall|x: A, y: A, z: A| #![trigger ord(x, y), ord(y, z)] chains(ord, x, y, z)
}

/// `ord` orders all values of `A` in a row, in which some may share a place.
pub open spec fn total<A>(ord: spec_fn(A, A) -> Ordering) -> bool {
    reflexive(ord) && antisymmetric(ord) && transitive(ord)
}

/// The lexicographic order that belongs to `ord`, as a function.
pub open spec fn lexicographic_by<A>(ord: spec_fn(A, A) -> Ordering) -> spec_fn(
    Seq<A>,
    Seq<A>,
) -> Ordering {
    |l: Seq<A>, r: Seq<A>| lexicographic(l, r, ord)
}

/// The order of bytes by their value is total.
pub proof fn lemma_byte_order_total()
    ensures
        total(byte_ord()),
{
    let ord = byte_ord();
    assert forall|x: u8, y: u8, z: u8| #![trigger ord(x, y), ord(y, z)] chains(ord, x, y, z) by {}
}

/// Under a total order, two values at the same place compare alike with every
/// third.
pub proof fn lemma_equal_compares_alike<A>(ord: spec_fn(A, A) -> Ordering, x: A, y: A, z: A)
    requires
        total(ord),
        ord(x, y) == Ordering::Equal,
    ensures
        ord(x, z) == ord(y, z),
        ord(z, x) == ord(z, y),
{
    assert(ord(y, x) == reversed(ord(x, y)));
    assert(ord(z, x) == reversed(ord(x, z)));
    assert(ord(z, y) == reversed(ord(y, z)));
    assert(chains(ord, x, y, z));
    assert(chains(ord, y, x, z));
    assert(chains(ord, z, y, x));
    assert(chains(ord, z, x, y));
}

/// A sequence is equal to itself in lexicographic order.
pub proof fn lemma_lexicographic_reflexive<A>(ord: spec_fn(A, A) -> Ordering, a: Seq<A>)
    requires
        reflexive(ord),
    ensures
        lexicographic(a, a, ord) == Ordering::Equal,
    decreases a.len(),
{
    if a.len() > 0 {
        assert(ord(a[0], a[0]) == Ordering::Equal);
        lemma_lexicographic_reflexive(ord, a.drop_first());
    }
}

/// Lexicographic order the other way round is the reverse.
pub proof fn lemma_lexicographic_antisymmetric<A>(
    ord: spec_fn(A, A) -> Ordering,
    a: Seq<A>,
    b: Seq<A>,
)
    requires
        antisymmetric(ord),
    ensures
        lexicographic(b, a, ord) == reversed(lexicographic(a, b, ord)),
    decreases a.len(),
{
    if a.len() > 0 && b.len() > 0 {
        assert(ord(b[0], a[0]) == reversed(ord(a[0], b[0])));
        lemma_lexicographic_antisymmetric(ord, a.drop_first(), b.drop_first());
    }
}

/// Steps in lexicographic order chain where steps under `ord` do.
pub proof fn lemma_lexicographic_transitive<A>(
    ord: spec_fn(A, A) -> Ordering,
    a: Seq<A>,
    b: Seq<A>,
    c: Seq<A>,
)
    requires
        total(ord),
    ensures
        chains(lexicographic_by(ord), a, b, c),
    decreases a.len(),
{
    let lex = lexicographic_by(ord);
    if lex(a, b) != Ordering::Greater && lex(b, c) != Ordering::Greater {
        if a.len() > 0 && b.len() > 0 && c.len() > 0 {
            assert(chains(ord, a[0], b[0], c[0]));
            assert(ord(b[0], a[0]) == reversed(ord(a[0], b[0])));
            assert(ord(c[0], b[0]) == reversed(ord(b[0], c[0])));
            if ord(a[0], b[0]) == Ordering::Equal {
                lemma_equal_compares_alike(ord, a[0], b[0], c[0]);
            }
            if ord(b[0], c[0]) == Ordering::Equal {
                lemma_equal_compares_alike(ord, b[0], c[0], a[0]);
            }
            if ord(a[0], b[0]) == Ordering::Equal && ord(b[0], c[0]) == Ordering::Equal {
                lemma_lexicographic_transitive(ord, a.drop_first(), b.drop_first(), c.drop_first());
                assert(chains(
                    lexicographic_by(ord),
                    a.drop_first(),
                    b.drop_first(),
                    c.drop_first(),
                ));
            }
        }
    }
}

/// The lexicographic order that belongs to a total order is total.
pub proof fn lemma_lexicographic_total<A>(ord: spec_fn(A, A) -> Ordering)
    requires
        total(ord),
    ensures
        total(lexicographic_by(ord)),
{
    let lex = lexicographic_by(ord);
    assert forall|x: Seq<A>| #[trigger] lex(x, x) == Ordering::Equal by {
        lemma_lexicographic_reflexive(ord, x);
    }
    assert forall|x: Seq<A>, y: Seq<A>| #[trigger] lex(y, x) == reversed(lex(x, y)) by {
        lemma_lexicographic_antisymmetric(ord, x, y);
    }
    assert forall|x: Seq<A>, y: Seq<A>, z: Seq<A>| #![trigger lex(x, y), lex(y, z)]
        chains(lex, x, y, z) by {
        lemma_lexicographic_transitive(ord, x, y, z);
    }
}

} // verus!
