use remain::check::{
    collect_comparables, find_unsorted_attr, remove_unsorted_attr, sorted, Item, Unsupported,
};
use remain::compare::{Category, Path, Segment};
use remain::emit::Kind;
use remain::format::{display, message};
use remain::pattern::{comparables_of_path, Arm, Pattern};

fn report_strings(texts: &[&str]) -> Vec<String> {
    texts.iter().map(|text| text.to_string()).collect()
}

fn report_path(names: &[&str]) -> Path {
    Path {
        category: None,
        segments: names
            .iter()
            .map(|name| Segment::Identifier(name.to_string()))
            .collect(),
    }
}

fn report_binding(by_ref: bool, mutable: bool, subpattern: bool) -> Arm {
    Arm::Single(Pattern::Ident {
        name: "x".to_string(),
        by_ref,
        mutable,
        subpattern,
    })
}

#[test]
fn a_path_is_shown_with_colons_between_its_names() {
    assert_eq!(display(&report_path(&[])), "");
    assert_eq!(display(&report_path(&["Aaa"])), "Aaa");
    assert_eq!(display(&report_path(&["E", "Aaa"])), "E::Aaa");
    assert_eq!(display(&report_path(&["a", "b", "c"])), "a::b::c");
    assert_eq!(display(&Path::of(Segment::Wildcard)), "_");
    assert_eq!(
        display(&Path::of(Segment::Literal("hello world".to_string()))),
        "hello world"
    );
}

#[test]
fn the_message_names_both_items() {
    assert_eq!(
        message(&report_path(&["AaaUhOh"]), &report_path(&["BlockSignal"])),
        "AaaUhOh should sort before BlockSignal"
    );
    assert_eq!(
        message(&report_path(&["E", "Bbb"]), &report_path(&["E", "Ccc"])),
        "E::Bbb should sort before E::Ccc"
    );
}

#[test]
fn the_message_for_a_violation() {
    let paths = vec![
        report_path(&["E", "Aaa"]),
        report_path(&["E", "Ccc"]),
        report_path(&["E", "Ddd"]),
        report_path(&["E", "Bbb"]),
    ];
    let violation = sorted(&paths).unwrap_err();
    assert_eq!(
        message(&paths[violation.lesser], &paths[violation.greater]),
        "E::Bbb should sort before E::Ccc"
    );
}

#[test]
fn the_text_of_a_segment() {
    assert_eq!(Segment::Identifier("Aaa".to_string()).text(), "Aaa");
    assert_eq!(Segment::Literal("a b".to_string()).text(), "a b");
    assert_eq!(Segment::Wildcard.text(), "_");
}

#[test]
fn a_copy_holds_what_the_path_holds() {
    let path = Path {
        category: Some(Category { rank: 7 }),
        segments: vec![
            Segment::Identifier("E".to_string()),
            Segment::Literal("x y".to_string()),
            Segment::Wildcard,
        ],
    };
    assert_eq!(path.copy(), path);
    assert_eq!(report_path(&[]).copy(), report_path(&[]));
    assert_eq!(Segment::Wildcard.copy(), Segment::Wildcard);
}

#[test]
fn only_a_match_goes_into_a_block() {
    assert!(Kind::Match.in_block());
    assert!(!Kind::Enum.in_block());
    assert!(!Kind::Struct.in_block());
    assert!(!Kind::Let.in_block());
}

#[test]
fn the_first_marker_is_taken_out() {
    let mut attrs = report_strings(&["derive", "unsorted", "doc", "remain :: unsorted"]);
    assert!(remove_unsorted_attr(&mut attrs));
    assert_eq!(attrs, report_strings(&["derive", "doc", "remain :: unsorted"]));
    assert!(remove_unsorted_attr(&mut attrs));
    assert_eq!(attrs, report_strings(&["derive", "doc"]));
    assert!(!remove_unsorted_attr(&mut attrs));
    assert_eq!(attrs, report_strings(&["derive", "doc"]));
}

#[test]
fn the_place_of_the_first_marker() {
    assert_eq!(find_unsorted_attr(&report_strings(&[])), None);
    assert_eq!(find_unsorted_attr(&report_strings(&["derive", "doc"])), None);
    assert_eq!(find_unsorted_attr(&report_strings(&["unsorted"])), Some(0));
    assert_eq!(
        find_unsorted_attr(&report_strings(&["derive", "remain :: unsorted", "unsorted"])),
        Some(1)
    );
}

#[test]
fn of_two_equal_markers_the_first_is_taken_out() {
    let mut attrs = report_strings(&["doc", "unsorted", "unsorted", "derive"]);
    assert_eq!(find_unsorted_attr(&attrs), Some(1));
    assert!(remove_unsorted_attr(&mut attrs));
    assert_eq!(attrs, report_strings(&["doc", "unsorted", "derive"]));
    assert_eq!(find_unsorted_attr(&attrs), Some(1));
}

#[test]
fn only_the_two_paths_are_markers() {
    for text in ["sorted", "remain::unsorted", "Unsorted", "unsorted ", "", "remain :: sorted"] {
        let mut attrs = report_strings(&[text]);
        assert!(!remove_unsorted_attr(&mut attrs));
        assert_eq!(attrs, report_strings(&[text]));
    }
    let mut none: Vec<String> = Vec::new();
    assert!(!remove_unsorted_attr(&mut none));
}

#[test]
fn a_path_from_the_names_of_a_path() {
    assert_eq!(
        comparables_of_path(&report_strings(&["std", "io", "Error"])),
        report_path(&["std", "io", "Error"])
    );
    assert_eq!(comparables_of_path(&Vec::new()), report_path(&[]));
}

#[test]
fn patterns_that_can_be_ordered() {
    let names = report_strings(&["E", "Aaa"]);
    assert_eq!(
        Arm::Single(Pattern::Path(names.clone())).to_path(),
        Some(report_path(&["E", "Aaa"]))
    );
    assert_eq!(
        Arm::Single(Pattern::Struct(names.clone())).to_path(),
        Some(report_path(&["E", "Aaa"]))
    );
    assert_eq!(
        Arm::Single(Pattern::TupleStruct(names)).to_path(),
        Some(report_path(&["E", "Aaa"]))
    );
    assert_eq!(
        Arm::Single(Pattern::Str("let_unit_value".to_string())).to_path(),
        Some(Path::of(Segment::Literal("let_unit_value".to_string())))
    );
    assert_eq!(
        Arm::Single(Pattern::Wild).to_path(),
        Some(Path::of(Segment::Wildcard))
    );
    assert_eq!(
        report_binding(false, false, false).to_path(),
        Some(report_path(&["x"]))
    );
}

#[test]
fn patterns_that_cannot_be_ordered() {
    assert_eq!(Arm::Single(Pattern::Other).to_path(), None);
    assert_eq!(report_binding(true, false, false).to_path(), None);
    assert_eq!(report_binding(false, true, false).to_path(), None);
    assert_eq!(report_binding(false, false, true).to_path(), None);
}

#[test]
fn an_or_pattern_is_ordered_by_its_first_case() {
    let arm = Arm::Or(vec![
        Pattern::Path(report_strings(&["E", "Bbb"])),
        Pattern::Path(report_strings(&["E", "Aaa"])),
        Pattern::Other,
    ]);
    assert_eq!(arm.to_path(), Some(report_path(&["E", "Bbb"])));

    let arm = Arm::Or(vec![Pattern::Other, Pattern::Wild]);
    assert_eq!(arm.to_path(), None);
}

#[test]
fn an_item_without_a_path_ends_the_walk() {
    let mut items = vec![
        Item { attrs: report_strings(&["unsorted"]), path: Some(report_path(&["b"])) },
        Item { attrs: report_strings(&["unsorted"]), path: None },
        Item { attrs: report_strings(&["doc"]), path: Some(report_path(&["a"])) },
        Item { attrs: report_strings(&["doc"]), path: None },
        Item { attrs: report_strings(&["unsorted"]), path: Some(report_path(&["c"])) },
        Item { attrs: Vec::new(), path: None },
    ];
    assert_eq!(collect_comparables(&mut items), Err(Unsupported { index: 3 }));
    assert!(items[0].attrs.is_empty());
    assert!(items[1].attrs.is_empty());
    assert_eq!(items[2].attrs, report_strings(&["doc"]));
    assert_eq!(items[3].attrs, report_strings(&["doc"]));
    // The items behind the one without a path are left as they were.
    assert_eq!(items[4].attrs, report_strings(&["unsorted"]));
    assert_eq!(items[4].path, Some(report_path(&["c"])));
}

#[test]
fn exempt_items_need_no_path() {
    let mut items = vec![
        Item { attrs: Vec::new(), path: Some(report_path(&["a"])) },
        Item { attrs: report_strings(&["remain :: unsorted"]), path: None },
        Item { attrs: Vec::new(), path: Some(report_path(&["b"])) },
    ];
    assert_eq!(
        collect_comparables(&mut items),
        Ok(vec![report_path(&["a"]), report_path(&["b"])])
    );
    assert_eq!(collect_comparables(&mut Vec::new()), Ok(Vec::new()));
}
