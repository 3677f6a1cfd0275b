use lib::ast::AstStyle;
use lib::collision::Collision;
use lib::merge::{merge_resolved, tw_merge_override, ResolvedStyle};
use lib::text::{join_strings, sort_strings, str_eq, str_le};
use lib::variants::{order_sensitive, sort_variants_for_collision};

fn strings(v: &[&str]) -> Vec<String> {
    v.iter().map(|s| s.to_string()).collect()
}

/// Splits a simple class such as `hover:!px-5` or `[color:red]` into its parts.
fn parse(class: &str) -> Result<AstStyle, String> {
    if class.starts_with('?') {
        return Err(class.to_string());
    }
    let mut parts: Vec<&str> = class.split(':').collect();
    let mut arbitrary = None;
    if class.ends_with(']') && class.starts_with('[') {
        parts = vec![];
        arbitrary = Some(class[1..class.len() - 1].to_string());
    }
    let (variants, name) = match parts.split_last() {
        Some((name, variants)) => (strings(variants), name.to_string()),
        None => (vec![], String::new()),
    };
    let mut name = name.as_str();
    let mut important = false;
    if let Some(rest) = name.strip_prefix('!') {
        important = true;
        name = rest;
    }
    if let Some(rest) = name.strip_suffix('!') {
        important = true;
        name = rest;
    }
    let elements = if name.is_empty() {
        vec![]
    } else {
        name.split('-').map(|s| s.to_string()).collect()
    };
    Ok(AstStyle {
        source: class.to_string(),
        important,
        variants,
        elements,
        arbitrary,
    })
}

fn collision_id(elements: &Vec<String>, _arbitrary: &Option<String>) -> Option<String> {
    let first = elements.first()?;
    let id = match first.as_str() {
        "p" => "padding",
        "px" => "padding-x",
        "py" => "padding-y",
        "block" | "flex" | "grid" => "display",
        _ => return None,
    };
    Some(id.to_string())
}

fn collisions(id: &String) -> Option<Vec<String>> {
    if id == "padding" {
        Some(strings(&["padding-x", "padding-y"]))
    } else {
        None
    }
}

fn merge(classes: &str) -> String {
    let styles = classes.split_whitespace().map(parse).collect();
    tw_merge_override(styles, collision_id, collisions)
}

#[test]
fn later_class_of_same_group_wins() {
    assert_eq!(merge("p-4 p-8"), "p-8");
    assert_eq!(merge("block flex grid"), "grid");
}

#[test]
fn merging_a_class_with_itself_keeps_one() {
    assert_eq!(merge("p-4 p-4"), "p-4");
}

#[test]
fn shorthand_overrides_earlier_axis_classes() {
    assert_eq!(merge("px-5 py-5 p-10"), "p-10");
    assert_eq!(merge("p-10 px-5"), "p-10 px-5");
}

#[test]
fn different_groups_coexist() {
    assert_eq!(merge("px-5 py-5"), "px-5 py-5");
    assert_eq!(merge("p-4 block"), "p-4 block");
}

#[test]
fn variants_separate_conflicts() {
    assert_eq!(merge("hover:p-4 p-8"), "hover:p-4 p-8");
    assert_eq!(merge("hover:p-4 hover:p-8"), "hover:p-8");
}

#[test]
fn variant_order_does_not_matter() {
    assert_eq!(merge("hover:focus:p-4 focus:hover:p-8"), "focus:hover:p-8");
}

#[test]
fn order_sensitive_variants_keep_their_position() {
    assert_eq!(merge("*:hover:p-4 hover:*:p-8"), "*:hover:p-4 hover:*:p-8");
    assert_eq!(merge("*:p-4 **:p-4"), "*:p-4 **:p-4");
    assert_eq!(merge("*:p-4 *:p-8"), "*:p-8");
}

#[test]
fn important_separates_conflicts() {
    assert_eq!(merge("!p-4 p-8"), "!p-4 p-8");
    assert_eq!(merge("p-4! !p-8"), "!p-8");
}

#[test]
fn classes_without_collision_pass_through() {
    assert_eq!(merge("foo bar foo"), "foo bar foo");
}

#[test]
fn arbitrary_properties_conflict_by_name() {
    assert_eq!(merge("[color:blue] [color:red]"), "[color:red]");
    assert_eq!(merge("[color:blue] [background:red]"), "[color:blue] [background:red]");
    assert_eq!(merge("[nocolon] [nocolon]"), "[nocolon] [nocolon]");
}

#[test]
fn unparsed_classes_are_kept() {
    assert_eq!(merge("?x p-4 ?x p-8"), "?x ?x p-8");
}

#[test]
fn empty_list_merges_to_empty() {
    assert_eq!(merge(""), "");
}

#[test]
fn merge_resolved_uses_given_answers() {
    let entry = |class: &str, id: Option<&str>, over: Option<Vec<String>>| {
        Ok(ResolvedStyle {
            style: parse(class).unwrap(),
            collision_id: id.map(|s| s.to_string()),
            collisions: over,
        })
    };
    let entries = vec![
        entry("a-1", Some("x"), None),
        entry("b-1", Some("y"), None),
        Err("raw".to_string()),
        entry("c-1", Some("z"), Some(strings(&["x"]))),
        entry("a-2", Some("x"), None),
    ];
    // `a-2` comes after `c-1`, so `c-1` does not remove it, but it removes `a-1`.
    assert_eq!(merge_resolved(entries), "b-1 raw c-1 a-2");
}

#[test]
fn sort_variants_keeps_order_sensitive_in_place() {
    let v = strings(&["hover", "focus", "*", "active"]);
    assert_eq!(
        sort_variants_for_collision(&v),
        strings(&["active", "focus", "*", "hover"])
    );
    let v = strings(&["before", "b", "a", "after"]);
    assert_eq!(
        sort_variants_for_collision(&v),
        strings(&["before", "a", "b", "after"])
    );
    assert_eq!(sort_variants_for_collision(&[]), Vec::<String>::new());
}

#[test]
fn sort_variants_is_idempotent_and_order_blind() {
    let a = sort_variants_for_collision(&strings(&["md", "hover", "dark"]));
    let b = sort_variants_for_collision(&strings(&["dark", "md", "hover"]));
    assert_eq!(a, b);
    assert_eq!(sort_variants_for_collision(&a), a);
}

#[test]
fn order_sensitive_modifiers_are_recognised() {
    for m in [
        "*", "**", "after", "backdrop", "before", "details-content", "file",
        "first-letter", "first-line", "marker", "placeholder", "selection",
    ] {
        assert!(order_sensitive(m), "{m}");
    }
    assert!(!order_sensitive("hover"));
    assert!(!order_sensitive("***"));
    assert!(!order_sensitive(""));
}

#[test]
fn check_arbitrary_edge_cases() {
    let style = AstStyle {
        source: "hover:focus:![color:blue:x]".to_string(),
        important: true,
        variants: strings(&["hover", "focus"]),
        elements: vec![],
        arbitrary: Some("color:blue:x".to_string()),
    };
    assert_eq!(
        Collision::check_arbitrary(style),
        Some(Collision {
            important: true,
            variants: strings(&["focus", "hover"]),
            collision_id: "color".to_string()
        })
    );
    assert_eq!(Collision::check_arbitrary(parse("p-4").unwrap()), None);
    let mut style = parse("p-4").unwrap();
    style.arbitrary = Some("no-colon".to_string());
    assert_eq!(Collision::check_arbitrary(style), None);
    let mut style = parse("p-4").unwrap();
    style.arbitrary = Some(":x".to_string());
    assert_eq!(
        Collision::check_arbitrary(style).map(|c| c.collision_id),
        Some(String::new())
    );
}

#[test]
fn string_order_matches_str_order() {
    let words = ["", "a", "ab", "b", "B", "é", "aé", "z", "za"];
    for x in words {
        for y in words {
            assert_eq!(str_le(x, y), x <= y, "{x} {y}");
            assert_eq!(str_eq(x, y), x == y, "{x} {y}");
        }
    }
    let v = strings(&["z", "é", "a", "B", "ab", "a"]);
    let mut expected = v.clone();
    expected.sort();
    assert_eq!(sort_strings(&v), expected);
}

#[test]
fn join_strings_matches_join() {
    assert_eq!(join_strings(&strings(&[]), " "), "");
    assert_eq!(join_strings(&strings(&["a"]), " "), "a");
    assert_eq!(join_strings(&strings(&["a", "b", "c"]), ", "), "a, b, c");
}

#[test]
fn merging_twice_changes_nothing() {
    for list in [
        "px-5 py-5 p-10 hover:p-4 ?x [color:red] p-8 [color:blue] foo",
        "p-10 px-5 hover:focus:p-4 focus:hover:p-8 block grid",
    ] {
        let once = merge(list);
        assert_eq!(merge(&once), once);
    }
}

#[test]
fn last_class_is_always_kept() {
    assert!(merge("p-4 px-2 p-8 grid").ends_with(" grid"));
    assert_eq!(merge("p-4 px-2"), "p-4 px-2");
}

#[test]
fn sort_variants_keeps_all_modifiers() {
    let v = strings(&["md", "*", "hover", "md", "after", "dark"]);
    let mut a = sort_variants_for_collision(&v);
    let mut b = v.clone();
    a.sort();
    b.sort();
    assert_eq!(a, b);
}

#[test]
fn collisions_asked_only_for_kept_classes() {
    let asked = std::cell::RefCell::new(Vec::<String>::new());
    let styles = "px-5 p-4 p-8 hover:p-2 ?x foo"
        .split_whitespace()
        .map(parse)
        .collect();
    let merged = tw_merge_override(styles, collision_id, |id: &String| {
        asked.borrow_mut().push(id.clone());
        collisions(id)
    });
    assert_eq!(merged, "p-8 hover:p-2 ?x foo");
    // Walking from the end: `hover:p-2` and `p-8` are kept and asked;
    // `p-4` and `px-5` are dropped before being asked.
    assert_eq!(*asked.borrow(), strings(&["padding", "padding"]));
}
