use remain::check::{collect_comparables, sorted, Item};
use remain::compare::{Path, Segment};
use remain::pattern::{Arm, Pattern};

fn stable_attrs(attrs: &[&str]) -> Vec<String> {
    attrs.iter().map(|attr| attr.to_string()).collect()
}

fn stable_named(attrs: &[&str], name: &str) -> Item {
    Item {
        attrs: stable_attrs(attrs),
        path: Some(Path::of(Segment::Identifier(name.to_string()))),
    }
}

fn stable_arm(attrs: &[&str], names: &[&str]) -> Item {
    let names = names.iter().map(|name| name.to_string()).collect();
    Item {
        attrs: stable_attrs(attrs),
        path: Arm::Single(Pattern::Path(names)).to_path(),
    }
}

fn stable_wild() -> Item {
    Item {
        attrs: Vec::new(),
        path: Arm::Single(Pattern::Wild).to_path(),
    }
}

#[test]
fn stable_test_let() {
    let mut arms = vec![
        stable_arm(&[], &["TestEnum", "A"]),
        stable_arm(&["remain :: unsorted"], &["TestEnum", "Ignored"]),
        stable_arm(&[], &["TestEnum", "B"]),
        stable_arm(&["unsorted"], &["TestEnum", "AlsoIgnored"]),
        stable_arm(&[], &["TestEnum", "C"]),
        stable_wild(),
    ];

    let paths = collect_comparables(&mut arms).unwrap();
    assert_eq!(paths.len(), 4);
    assert_eq!(sorted(&paths), Ok(()));
    assert!(arms.iter().all(|arm| arm.attrs.is_empty()));
}

#[test]
fn stable_test_match() {
    let mut arms = vec![
        stable_arm(&[], &["TestEnum", "A"]),
        stable_arm(&[], &["TestEnum", "B"]),
        stable_arm(&["unsorted"], &["TestEnum", "Ignored"]),
        stable_arm(&[], &["TestEnum", "C"]),
        stable_arm(&["remain :: unsorted"], &["TestEnum", "AlsoIgnored"]),
        stable_wild(),
    ];

    let paths = collect_comparables(&mut arms).unwrap();
    assert_eq!(paths.len(), 4);
    assert_eq!(sorted(&paths), Ok(()));
    assert!(arms.iter().all(|arm| arm.attrs.is_empty()));
}

#[test]
fn stable_enum_with_exempt_variants() {
    let mut variants = vec![
        stable_named(&[], "A"),
        stable_named(&[], "B"),
        stable_named(&["remain :: unsorted"], "Ignored"),
        stable_named(&[], "C"),
        stable_named(&["unsorted"], "AlsoIgnored"),
        stable_named(&[], "D"),
        stable_named(&[], "__Nonexhaustive"),
    ];

    let paths = collect_comparables(&mut variants).unwrap();
    assert_eq!(paths.len(), 5);
    assert_eq!(sorted(&paths), Ok(()));
}

#[test]
fn stable_struct_with_exempt_fields() {
    let mut fields = vec![
        stable_named(&["derive"], "a"),
        stable_named(&[], "b"),
        stable_named(&["unsorted"], "ignored"),
        stable_named(&[], "c"),
        stable_named(&["doc", "remain :: unsorted", "unsorted"], "also_ignored"),
        stable_named(&[], "d"),
    ];

    let paths = collect_comparables(&mut fields).unwrap();
    assert_eq!(paths.len(), 4);
    assert_eq!(sorted(&paths), Ok(()));
    // Only the first marker of an item is taken out.
    assert_eq!(fields[0].attrs, stable_attrs(&["derive"]));
    assert_eq!(fields[4].attrs, stable_attrs(&["doc", "unsorted"]));
}

#[test]
fn stable_without_the_markers_the_items_are_out_of_order() {
    let mut variants = vec![
        stable_named(&[], "A"),
        stable_named(&[], "B"),
        stable_named(&[], "Ignored"),
        stable_named(&[], "C"),
    ];

    let paths = collect_comparables(&mut variants).unwrap();
    assert_eq!(paths.len(), 4);
    let violation = sorted(&paths).unwrap_err();
    assert_eq!(violation.lesser, 3);
    assert_eq!(violation.greater, 2);
}
