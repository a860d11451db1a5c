use libhupa::item::Hupa;
use libhupa::resolver::resolve_names;

fn named(name: &str) -> Hupa {
    Hupa::from_parts(
        name.to_string(),
        "".to_string(),
        vec![],
        "/backups".to_string(),
        format!("/data/{}", name),
        false,
        Vec::new(),
    )
}

#[test]
fn resolves_in_input_order_not_storage_order() {
    let items = vec![named("a"), named("b"), named("c")];
    let r = resolve_names(&vec!["b".to_string(), "a".to_string()], &items);
    assert_eq!(r.len(), 2);
    assert_eq!(r[0].get_name(), "b");
    assert_eq!(r[1].get_name(), "a");
}

#[test]
fn unknown_name_is_silently_skipped() {
    let items = vec![named("a"), named("b"), named("c")];
    let r = resolve_names(&vec!["zzz".to_string()], &items);
    assert!(r.is_empty());
}

#[test]
fn duplicate_names_resolve_again() {
    let items = vec![named("a"), named("b")];
    let r = resolve_names(&vec!["a".to_string(), "a".to_string()], &items);
    assert_eq!(r.len(), 2);
    assert_eq!(r[0].get_name(), "a");
    assert_eq!(r[1].get_name(), "a");
}

#[test]
fn first_match_wins_and_match_is_case_sensitive() {
    let mut first = named("a");
    first = Hupa::from_parts(
        first.get_name().clone(),
        "the first".to_string(),
        vec![],
        "/backups".to_string(),
        "/data/first".to_string(),
        false,
        Vec::new(),
    );
    let items = vec![first, named("a"), named("A")];
    let r = resolve_names(&vec!["a".to_string()], &items);
    assert_eq!(r.len(), 1);
    assert_eq!(r[0].get_desc(), "the first");
    let upper = resolve_names(&vec!["A".to_string()], &items);
    assert_eq!(upper.len(), 1);
    assert_eq!(upper[0].get_origin(), "/data/A");
}
