use libhupa::codec::{hupa_to_json, hupas_to_json};
use libhupa::decode::json_to_hupas;
use libhupa::error::MetadataError;
use libhupa::item::Hupa;

fn vec_of_hupas() -> Vec<Hupa> {
    vec![
        ("test1", vec!["test2"], "/"),
        ("os", vec!["gentoo"], "/etc/portage"),
        ("dotfiles", vec!["all"], "/dotfiles"),
    ]
    .into_iter()
    .map(|(n, c, p)| {
        Hupa::from_parts(
            n.to_string(),
            "".to_string(),
            c.iter().map(|s| s.to_string()).collect(),
            "/".to_string(),
            p.to_string(),
            false,
            Vec::new(),
        )
    })
    .collect()
}

fn stringify_hupa(hupa: &Hupa) -> String {
    let mut cat_str = String::new();
    cat_str.push('[');
    cat_str.push_str(
        hupa.get_category()
            .iter()
            .map(|s| format!("\"{}\",", s))
            .collect::<String>()
            .as_str(),
    );
    cat_str.pop();
    cat_str.push(']');
    format!(
        "{{\"name\":\"{}\",\"desc\":\"{}\",\"category\":{},\"backup_parent\":\"/\",\"origin\":\"{}\",\"autobackup\":false}}",
        hupa.get_name(),
        hupa.get_desc(),
        cat_str,
        hupa.get_origin()
    )
}

#[test]
fn test_hupa_to_json() {
    for hupa in vec_of_hupas() {
        let json = hupa_to_json(&hupa);
        assert_eq!(json, stringify_hupa(&hupa));
    }
}

#[test]
fn test_hupas_to_json() {
    let json = hupas_to_json(&vec_of_hupas());
    println!("{}", json);
    let mut output = String::new();
    output.push('[');
    for hupa in vec_of_hupas() {
        output.push_str(&stringify_hupa(&hupa));
        output.push(',');
    }
    output.pop();
    output.push(']');
    assert_eq!(json, output);
}

fn assert_same_items(a: &[Hupa], b: &[Hupa]) {
    assert_eq!(a.len(), b.len());
    for (x, y) in a.iter().zip(b.iter()) {
        assert_eq!(x.get_name(), y.get_name());
        assert_eq!(x.get_desc(), y.get_desc());
        assert_eq!(x.get_category(), y.get_category());
        assert_eq!(x.get_backup_parent(), y.get_backup_parent());
        assert_eq!(x.get_origin(), y.get_origin());
        assert_eq!(x.is_autobackup_enabled(), y.is_autobackup_enabled());
        assert_eq!(x.get_needed_vars(), y.get_needed_vars());
    }
}

#[test]
fn round_trip_plain_items() {
    let items = vec_of_hupas();
    let text = hupas_to_json(&items);
    let back = json_to_hupas(&text).expect("canonical form must decode");
    assert_same_items(&items, &back);
}

#[test]
fn round_trip_needed_vars_and_autobackup() {
    let items = vec![Hupa::from_parts(
        "shell".to_string(),
        "dotfiles of the shell".to_string(),
        vec!["os".to_string(), "linux".to_string()],
        "/backups".to_string(),
        "$HOME/.bashrc".to_string(),
        true,
        vec!["HOME".to_string()],
    )];
    let text = hupas_to_json(&items);
    assert_eq!(
        text,
        "[{\"name\":\"shell\",\"desc\":\"dotfiles of the shell\",\"category\":[\"os\",\"linux\"],\"backup_parent\":\"/backups\",\"origin\":\"$HOME/.bashrc\",\"autobackup\":true,\"needed_vars\":[\"HOME\"]}]"
    );
    let back = json_to_hupas(&text).expect("canonical form must decode");
    assert_same_items(&items, &back);
}

#[test]
fn round_trip_escaped_characters() {
    let items = vec![Hupa::from_parts(
        "odd \"name\"\n".to_string(),
        "tab\there, back\\slash".to_string(),
        vec![],
        "/b".to_string(),
        "/a\rcarriage".to_string(),
        false,
        Vec::new(),
    )];
    let text = hupas_to_json(&items);
    let back = json_to_hupas(&text).expect("canonical form must decode");
    assert_same_items(&items, &back);
}

#[test]
fn round_trip_empty_store() {
    assert_eq!(hupas_to_json(&Vec::new()), "[]");
    let back = json_to_hupas("[]").expect("the empty store must decode");
    assert!(back.is_empty());
}

#[test]
fn top_level_object_is_invalid_metadata() {
    let previously_loaded = vec_of_hupas();
    let r = json_to_hupas("{\"name\":\"x\"}");
    assert_eq!(r.unwrap_err(), MetadataError::InvalidMetadata);
    // the collection loaded before the failed decode is untouched
    assert_eq!(previously_loaded.len(), 3);
}

#[test]
fn missing_field_is_invalid_metadata() {
    let text = "[{\"name\":\"x\",\"desc\":\"\",\"category\":[],\"origin\":\"/a\",\"autobackup\":false}]";
    assert_eq!(json_to_hupas(text).unwrap_err(), MetadataError::InvalidMetadata);
}

#[test]
fn wrong_kind_field_is_invalid_metadata() {
    let text = "[{\"name\":\"x\",\"desc\":\"\",\"category\":[],\"backup_parent\":\"/b\",\"origin\":\"/a\",\"autobackup\":\"yes\"}]";
    assert_eq!(json_to_hupas(text).unwrap_err(), MetadataError::InvalidMetadata);
}

#[test]
fn empty_origin_is_invalid_metadata() {
    let text = "[{\"name\":\"x\",\"desc\":\"\",\"category\":[],\"backup_parent\":\"/b\",\"origin\":\"\",\"autobackup\":false}]";
    assert_eq!(json_to_hupas(text).unwrap_err(), MetadataError::InvalidMetadata);
}

#[test]
fn surrounding_whitespace_is_tolerated() {
    assert!(json_to_hupas(" []").unwrap().is_empty());
    assert!(json_to_hupas("[]\n").unwrap().is_empty());
    let items = vec_of_hupas();
    let mut text = String::from("\t ");
    text.push_str(&hupas_to_json(&items));
    text.push_str(" \r\n");
    let back = json_to_hupas(&text).expect("whitespace around the document is fine");
    assert_same_items(&items, &back);
}

#[test]
fn junk_and_empty_documents_are_invalid_metadata() {
    assert_eq!(json_to_hupas("[]x").unwrap_err(), MetadataError::InvalidMetadata);
    assert_eq!(json_to_hupas("").unwrap_err(), MetadataError::InvalidMetadata);
    assert_eq!(json_to_hupas("   ").unwrap_err(), MetadataError::InvalidMetadata);
    assert_eq!(json_to_hupas("[{}]").unwrap_err(), MetadataError::InvalidMetadata);
}

#[test]
fn whitespace_between_tokens_is_tolerated() {
    let back = json_to_hupas("[ ]").expect("a spaced empty sequence decodes");
    assert!(back.is_empty());
    let text = "[ { \"name\" : \"x\" , \"desc\" : \"\" , \"category\" : [ \"a\" , \"b\" ] , \"backup_parent\" : \"/b\" , \"origin\" : \"/o\" , \"autobackup\" : false } ]";
    let back = json_to_hupas(text).expect("whitespace between tokens decodes");
    assert_eq!(back.len(), 1);
    assert_eq!(back[0].get_name(), "x");
    assert_eq!(back[0].get_category(), &vec!["a".to_string(), "b".to_string()]);
}

#[test]
fn key_order_is_tolerated() {
    let text = "[{\"origin\":\"/o\",\"autobackup\":true,\"name\":\"x\",\"category\":[],\"backup_parent\":\"/b\",\"desc\":\"d\"}]";
    let back = json_to_hupas(text).expect("keys in any order decode");
    assert_eq!(back.len(), 1);
    assert_eq!(back[0].get_name(), "x");
    assert_eq!(back[0].get_desc(), "d");
    assert!(back[0].is_autobackup_enabled());
    assert!(back[0].get_needed_vars().is_empty());
}

#[test]
fn standard_json_escapes_are_tolerated() {
    let text = "[{\"name\":\"\\u0041\\/b\",\"desc\":\"\\u00e9\",\"category\":[],\"backup_parent\":\"/b\",\"origin\":\"/o\",\"autobackup\":false}]";
    let back = json_to_hupas(text).expect("standard escapes decode");
    assert_eq!(back[0].get_name(), "A/b");
    assert_eq!(back[0].get_desc(), "\u{e9}");
}

#[test]
fn malformed_needed_vars_defaults_to_empty() {
    let base = "\"name\":\"x\",\"desc\":\"\",\"category\":[],\"backup_parent\":\"/b\",\"origin\":\"/o\",\"autobackup\":false";
    for nv in ["5", "\"zz\"", "null", "{\"a\":[1,2]}", "[1,2]", "[\"a\",1]", "[]"] {
        let text = format!("[{{{},\"needed_vars\":{}}}]", base, nv);
        let back = json_to_hupas(&text).expect("malformed needed_vars defaults to empty");
        assert!(back[0].get_needed_vars().is_empty());
    }
    let ok = format!("[{{{},\"needed_vars\": [ \"HOME\" ]}}]", base);
    let back = json_to_hupas(&ok).expect("a stored needed_vars is authoritative");
    assert_eq!(back[0].get_needed_vars(), &vec!["HOME".to_string()]);
}

#[test]
fn unknown_keys_are_skipped_for_forward_compatibility() {
    let extra = "[{\"name\":\"x\",\"desc\":\"\",\"category\":[],\"backup_parent\":\"/b\",\"origin\":\"/o\",\"autobackup\":false,\"extra\":{\"deep\":[1,2]}}]";
    let back = json_to_hupas(extra).expect("an unknown key is skipped");
    assert_eq!(back[0].get_name(), "x");
}

#[test]
fn repeated_keys_are_invalid_metadata() {
    let dup = "[{\"name\":\"x\",\"name\":\"y\",\"desc\":\"\",\"category\":[],\"backup_parent\":\"/b\",\"origin\":\"/o\",\"autobackup\":false}]";
    assert_eq!(json_to_hupas(dup).unwrap_err(), MetadataError::InvalidMetadata);
}
