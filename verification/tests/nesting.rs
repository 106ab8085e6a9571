use cuboid_map::nesting::{NestingError, NestingTree};

fn tree(definitions: &[(&str, &[&str])]) -> NestingTree {
    NestingTree {
        names: definitions.iter().map(|(name, _)| name.to_string()).collect(),
        children: definitions.iter().map(|(_, kids)| kids.iter().map(|k| k.to_string()).collect()).collect(),
    }
}

fn names(list: &[&str]) -> Vec<String> {
    list.iter().map(|n| n.to_string()).collect()
}

#[test]
fn nested_cycle_is_rejected_naming_the_chain() {
    let error = tree(&[("a", &["b"]), ("b", &["a"])]).check(&names(&["a"])).expect_err("cycle accepted");
    assert!(matches!(error, NestingError::Loop(_)));
    assert!(error.message().contains("a -> b -> a"), "{}", error.message());
    assert_eq!(error.message(), "nested maps loop: a -> b -> a");
}

#[test]
fn references_resolve_only_to_the_parents_named_geometry() {
    let error = tree(&[]).check(&names(&["hotel"])).expect_err("missing embedded geometry accepted");
    let text = error.message();
    assert!(text.contains("hotel"), "{text}");
    assert!(text.contains("nested_geometry"), "{text}");
    assert_eq!(text, "nested map \"hotel\" has no named geometry in this parent's nested_geometry");
}

#[test]
fn repeated_placements_share_one_definition() {
    let used = tree(&[("a", &["c"]), ("b", &["c"]), ("c", &[])])
        .check(&names(&["a", "b"]))
        .expect("shared definition rejected");
    assert_eq!(used, vec![true, true, true]);
}

#[test]
fn unused_definitions_are_checked_but_do_not_compile() {
    let used = tree(&[("used", &[]), ("unused", &[])]).check(&names(&["used"])).expect("unused geometry rejected");
    assert_eq!(used, vec![true, false]);
    assert!(tree(&[("unused", &["missing"])]).check(&names(&[])).is_err());
    assert!(tree(&[("a", &["b"]), ("b", &["a"])]).check(&names(&[])).is_err());
}

#[test]
fn a_map_nesting_itself_is_a_loop() {
    let error = tree(&[("room", &["room"])]).check(&names(&["room"])).expect_err("self nesting accepted");
    assert_eq!(error.message(), "nested maps loop: room -> room");
}

#[test]
fn a_deep_chain_is_reached_through_every_level() {
    let used = tree(&[("d", &[]), ("a", &["b"]), ("c", &["d"]), ("b", &["c"]), ("e", &["d"])])
        .check(&names(&["a"]))
        .expect("chain rejected");
    assert_eq!(used, vec![true, true, true, true, false]);
}
