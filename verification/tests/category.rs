use libhupa::category::{into_categories, items_in_category, key_of_item};
use libhupa::item::Hupa;

fn with_cats(name: &str, cats: &[&str]) -> Hupa {
    Hupa::from_parts(
        name.to_string(),
        "".to_string(),
        cats.iter().map(|s| s.to_string()).collect(),
        "/backups".to_string(),
        format!("/data/{}", name),
        false,
        Vec::new(),
    )
}

#[test]
fn key_is_the_first_segment_or_empty() {
    assert_eq!(key_of_item(&with_cats("a", &["os", "linux"])), "os");
    assert_eq!(key_of_item(&with_cats("b", &[])), "");
}

#[test]
fn gathers_items_of_one_key_in_input_order() {
    let items = vec![
        with_cats("a", &["os", "linux"]),
        with_cats("b", &["dotfiles"]),
        with_cats("c", &["os"]),
    ];
    let os = items_in_category(&items, &"os".to_string());
    assert_eq!(os.len(), 2);
    assert_eq!(os[0].get_name(), "a");
    assert_eq!(os[1].get_name(), "c");
}

#[test]
fn groups_by_first_appearance_with_uncategorized_last_here() {
    let items = vec![
        with_cats("a", &["os", "linux"]),
        with_cats("b", &["dotfiles"]),
        with_cats("c", &["os"]),
        with_cats("d", &[]),
    ];
    let cats = into_categories(&items);
    assert_eq!(cats.len(), 3);
    assert_eq!(cats[0].get_name(), "os");
    assert_eq!(cats[0].len(), 2);
    assert_eq!(cats[0].get_hupas()[0].get_name(), "a");
    assert_eq!(cats[0].get_hupas()[1].get_name(), "c");
    assert_eq!(cats[1].get_name(), "dotfiles");
    assert_eq!(cats[1].len(), 1);
    assert_eq!(cats[2].get_name(), "");
    assert_eq!(cats[2].get_hupas()[0].get_name(), "d");
}
