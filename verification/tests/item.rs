use libhupa::item::{scan_needed_vars, Hupa};

#[test]
fn scan_finds_plain_variable() {
    assert_eq!(scan_needed_vars("$HOME/config"), vec!["HOME".to_string()]);
}

#[test]
fn scan_finds_braced_variable() {
    assert_eq!(
        scan_needed_vars("${XDG_DATA_HOME}/share"),
        vec!["XDG_DATA_HOME".to_string()]
    );
}

#[test]
fn scan_keeps_order_and_duplicates() {
    assert_eq!(
        scan_needed_vars("$A/${B}/$A"),
        vec!["A".to_string(), "B".to_string(), "A".to_string()]
    );
}

#[test]
fn scan_ignores_plain_paths_and_stray_dollars() {
    assert_eq!(scan_needed_vars("/etc/portage"), Vec::<String>::new());
    assert_eq!(scan_needed_vars("a$ b$$"), Vec::<String>::new());
    assert_eq!(scan_needed_vars("${}"), Vec::<String>::new());
    assert_eq!(scan_needed_vars("${A"), Vec::<String>::new());
}

#[test]
fn new_derives_needed_vars_from_origin() {
    let h = Hupa::new(
        "shell".to_string(),
        "".to_string(),
        vec!["os".to_string()],
        "/backups".to_string(),
        "$HOME/.bashrc".to_string(),
        false,
    );
    assert_eq!(h.get_needed_vars(), &vec!["HOME".to_string()]);
    assert_eq!(h.get_origin(), "$HOME/.bashrc");
}

#[test]
fn from_parts_keeps_stored_needed_vars() {
    // decoding never re-derives: the stored value is authoritative
    let h = Hupa::from_parts(
        "shell".to_string(),
        "".to_string(),
        vec![],
        "/backups".to_string(),
        "$HOME/.bashrc".to_string(),
        false,
        Vec::new(),
    );
    assert!(h.get_needed_vars().is_empty());
}

#[test]
fn backup_path_joins_parent_and_name() {
    let h = Hupa::from_parts(
        "dots".to_string(),
        "".to_string(),
        vec![],
        "/backups".to_string(),
        "/home/me/dots".to_string(),
        true,
        Vec::new(),
    );
    assert_eq!(h.backup_path(), "/backups/dots");
    assert!(h.is_autobackup_enabled());
}

#[test]
fn duplicate_copies_every_field() {
    let h = Hupa::from_parts(
        "a".to_string(),
        "d".to_string(),
        vec!["c1".to_string(), "c2".to_string()],
        "/b".to_string(),
        "/o".to_string(),
        true,
        vec!["HOME".to_string()],
    );
    let c = h.duplicate();
    assert_eq!(c.get_name(), h.get_name());
    assert_eq!(c.get_desc(), h.get_desc());
    assert_eq!(c.get_category(), h.get_category());
    assert_eq!(c.get_backup_parent(), h.get_backup_parent());
    assert_eq!(c.get_origin(), h.get_origin());
    assert_eq!(c.is_autobackup_enabled(), h.is_autobackup_enabled());
    assert_eq!(c.get_needed_vars(), h.get_needed_vars());
}
