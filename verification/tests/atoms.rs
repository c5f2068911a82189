use remain::atom::{
    classify, cmp_bytes, cmp_ignore_case, cmp_numeric, iter_atoms, to_lower, Atom, Class,
};
use std::cmp::Ordering;

fn atoms_of(name: &str) -> Vec<Atom<'_>> {
    let mut iter = iter_atoms(name);
    let mut atoms = Vec::new();
    while let Some(atom) = iter.next() {
        atoms.push(atom);
    }
    assert_eq!(iter.next(), None);
    atoms
}

fn text_of(atoms: &[Atom<'_>]) -> String {
    let mut text = String::new();
    for atom in atoms {
        match atom {
            Atom::Underscore(n) => text.push_str(&"_".repeat(*n)),
            Atom::Number(s) | Atom::Chars(s) => text.push_str(s),
        }
    }
    text
}

#[test]
fn atoms_of_a_mixed_name() {
    assert_eq!(
        atoms_of("under__0core"),
        vec![
            Atom::Chars("under"),
            Atom::Underscore(2),
            Atom::Number("0"),
            Atom::Chars("core"),
        ]
    );
}

#[test]
fn atoms_of_the_empty_name() {
    assert_eq!(atoms_of(""), vec![]);
}

#[test]
fn atoms_are_maximal_runs() {
    assert_eq!(atoms_of("___"), vec![Atom::Underscore(3)]);
    assert_eq!(atoms_of("0123456789"), vec![Atom::Number("0123456789")]);
    assert_eq!(atoms_of("E10"), vec![Atom::Chars("E"), Atom::Number("10")]);
    assert_eq!(
        atoms_of("__Nonexhaustive"),
        vec![Atom::Underscore(2), Atom::Chars("Nonexhaustive")]
    );
    assert_eq!(
        atoms_of("1_a"),
        vec![Atom::Number("1"), Atom::Underscore(1), Atom::Chars("a")]
    );
}

#[test]
fn atoms_never_split_a_character() {
    assert_eq!(
        atoms_of("né_1ü"),
        vec![
            Atom::Chars("né"),
            Atom::Underscore(1),
            Atom::Number("1"),
            Atom::Chars("ü"),
        ]
    );
    assert_eq!(atoms_of("日本語"), vec![Atom::Chars("日本語")]);
    assert_eq!(
        atoms_of("_é"),
        vec![Atom::Underscore(1), Atom::Chars("é")]
    );
    assert_eq!(atoms_of("7é"), vec![Atom::Number("7"), Atom::Chars("é")]);
}

#[test]
fn atoms_put_together_are_the_name() {
    for name in [
        "",
        "_",
        "A",
        "under_score",
        "E99999999999999999999999",
        "__a__1__",
        "né_1ü_日本語9",
        "hello world",
    ] {
        assert_eq!(text_of(&atoms_of(name)), name);
    }
}

#[test]
fn underscores_counts_only_underscore_atoms() {
    assert_eq!(Atom::Underscore(3).underscores(), 3);
    assert_eq!(Atom::Number("3").underscores(), 0);
    assert_eq!(Atom::Chars("abc").underscores(), 0);
}

#[test]
fn classes_of_bytes() {
    assert_eq!(classify(b'_'), Class::Underscore);
    assert_eq!(classify(b'0'), Class::Digit);
    assert_eq!(classify(b'9'), Class::Digit);
    assert_eq!(classify(b'/'), Class::Other);
    assert_eq!(classify(b':'), Class::Other);
    assert_eq!(classify(b'a'), Class::Other);
    assert_eq!(classify(0xc3), Class::Other);
}

#[test]
fn lower_case_of_bytes() {
    assert_eq!(to_lower(b'A'), b'a');
    assert_eq!(to_lower(b'Z'), b'z');
    assert_eq!(to_lower(b'a'), b'a');
    assert_eq!(to_lower(b'@'), b'@');
    assert_eq!(to_lower(b'['), b'[');
    assert_eq!(to_lower(0xc9), 0xc9);
}

#[test]
fn plain_order_of_bytes() {
    assert_eq!(cmp_bytes(b"", b""), Ordering::Equal);
    assert_eq!(cmp_bytes(b"", b"a"), Ordering::Less);
    assert_eq!(cmp_bytes(b"ab", b"a"), Ordering::Greater);
    assert_eq!(cmp_bytes(b"ab", b"b"), Ordering::Less);
    assert_eq!(cmp_bytes(b"B", b"a"), Ordering::Less);
    assert_eq!(cmp_bytes(b"abc", b"abc"), Ordering::Equal);
}

#[test]
fn numbers_compare_by_value() {
    assert_eq!(cmp_numeric("1", "9"), Ordering::Less);
    assert_eq!(cmp_numeric("9", "10"), Ordering::Less);
    assert_eq!(cmp_numeric("10", "9"), Ordering::Greater);
    assert_eq!(cmp_numeric("1", "99999999999999999999999"), Ordering::Less);
    assert_eq!(
        cmp_numeric("99999999999999999999999", "99999999999999999999998"),
        Ordering::Greater
    );
    assert_eq!(cmp_numeric("123", "123"), Ordering::Equal);
}

#[test]
fn numbers_ignore_leading_zeros() {
    assert_eq!(cmp_numeric("007", "7"), Ordering::Equal);
    assert_eq!(cmp_numeric("0", "000"), Ordering::Equal);
    assert_eq!(cmp_numeric("010", "9"), Ordering::Greater);
    assert_eq!(cmp_numeric("0", "1"), Ordering::Less);
    assert_eq!(cmp_numeric("", "0"), Ordering::Equal);
}

#[test]
fn numbers_order_like_integers() {
    let values: [u64; 8] = [0, 1, 9, 10, 99, 100, 12345, 18446744073709551615];
    for a in values {
        for b in values {
            let padded = format!("000{}", a);
            assert_eq!(cmp_numeric(&a.to_string(), &b.to_string()), a.cmp(&b));
            assert_eq!(cmp_numeric(&padded, &b.to_string()), a.cmp(&b));
        }
    }
}

#[test]
fn text_compares_without_case_first() {
    assert_eq!(cmp_ignore_case("a", "B"), Ordering::Less);
    assert_eq!(cmp_ignore_case("B", "a"), Ordering::Greater);
    assert_eq!(cmp_ignore_case("abc", "abD"), Ordering::Less);
    assert_eq!(cmp_ignore_case("abD", "abc"), Ordering::Greater);
    assert_eq!(cmp_ignore_case("", ""), Ordering::Equal);
    assert_eq!(cmp_ignore_case("abc", "abc"), Ordering::Equal);
}

#[test]
fn text_breaks_ties_by_the_bytes_as_written() {
    assert_eq!(cmp_ignore_case("AAA", "Aaa"), Ordering::Less);
    assert_eq!(cmp_ignore_case("Aaa", "aaa"), Ordering::Less);
    assert_eq!(cmp_ignore_case("aaa", "Aaa"), Ordering::Greater);
    assert_eq!(cmp_ignore_case("aB", "Ab"), Ordering::Greater);
    assert_eq!(cmp_ignore_case("Ab", "aB"), Ordering::Less);
    assert_eq!(cmp_ignore_case("abC", "abc"), Ordering::Less);
}

#[test]
fn text_looks_at_case_only_where_it_is_equal_without() {
    assert_eq!(cmp_ignore_case("Ab", "aa"), Ordering::Greater);
    assert_eq!(cmp_ignore_case("aa", "Ab"), Ordering::Less);
    assert_eq!(cmp_ignore_case("aB", "AA"), Ordering::Greater);
    assert_eq!(cmp_ignore_case("Zebra", "apple"), Ordering::Greater);
    assert_eq!(cmp_ignore_case("apple", "Zebra"), Ordering::Less);
    // A run that starts another without regard to case comes first, however
    // the bytes are written.
    assert_eq!(cmp_ignore_case("a", "AB"), Ordering::Less);
    assert_eq!(cmp_ignore_case("ab", "A"), Ordering::Greater);
}

#[test]
fn text_that_starts_another_comes_first() {
    assert_eq!(cmp_ignore_case("trivial", "trivially"), Ordering::Less);
    assert_eq!(cmp_ignore_case("trivially", "trivial"), Ordering::Greater);
    assert_eq!(cmp_ignore_case("", "a"), Ordering::Less);
}

#[test]
fn atoms_order_by_kind_first() {
    let atoms = [
        Atom::Underscore(1),
        Atom::Underscore(2),
        Atom::Number("0"),
        Atom::Number("9"),
        Atom::Number("10"),
        Atom::Chars("A"),
        Atom::Chars("a"),
        Atom::Chars("b"),
    ];
    for (i, a) in atoms.iter().enumerate() {
        for (j, b) in atoms.iter().enumerate() {
            assert_eq!(a.cmp(b), i.cmp(&j));
            assert_eq!(a.partial_cmp(b), Some(i.cmp(&j)));
            assert_eq!(a < b, i < j);
            assert_eq!(a >= b, i >= j);
        }
    }
}

#[test]
fn atoms_that_differ_can_be_equal_in_order() {
    assert_eq!(Atom::Number("07").cmp(&Atom::Number("7")), Ordering::Equal);
    assert_ne!(Atom::Number("07"), Atom::Number("7"));
}
