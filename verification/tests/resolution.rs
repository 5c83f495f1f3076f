use win_cp::cli::{
    bin_flag, file_name, matches_flag, modify_dest_path, resolve_copy_pairs, validate_sources,
    FlagKind, Todo,
};
use win_cp::CpError;

fn strings(v: &[&str]) -> Vec<String> {
    v.iter().map(|s| s.to_string()).collect()
}

#[test]
fn test_single_source_into_directory() {
    // trailing slash and existing directory: the file name is appended
    let pairs = resolve_copy_pairs(
        strings(&[r#"C:\a\b.txt"#]),
        r#"C:\Out\"#.to_string(),
        true,
        true,
    )
    .unwrap();
    assert_eq!(pairs.len(), 1);
    assert_eq!(pairs[0].0, r#"C:\Out\b.txt"#);
    assert_eq!(pairs[0].1, r#"C:\a\b.txt"#);
}

#[test]
fn test_single_source_rename() {
    // neither signal: the destination is the new file's full path
    let pairs = resolve_copy_pairs(
        strings(&[r#"C:\a\b.txt"#]),
        r#"C:\Out\renamed.txt"#.to_string(),
        false,
        false,
    )
    .unwrap();
    assert_eq!(pairs.len(), 1);
    assert_eq!(pairs[0].0, r#"C:\Out\renamed.txt"#);
    assert_eq!(pairs[0].1, r#"C:\a\b.txt"#);
}

#[test]
fn test_single_source_existing_directory_without_slash() {
    // either signal alone is enough for directory semantics
    let pairs = resolve_copy_pairs(
        strings(&[r#"C:\a\b.txt"#]),
        r#"C:\Out"#.to_string(),
        false,
        true,
    )
    .unwrap();
    assert_eq!(pairs.len(), 1);
    assert_eq!(pairs[0].0, r#"C:\Out\b.txt"#);
}

#[test]
fn test_two_sources_file_destination_fails() {
    let r = resolve_copy_pairs(
        strings(&[r#"C:\a.txt"#, r#"C:\b.txt"#]),
        r#"C:\Out\file.txt"#.to_string(),
        false,
        false,
    );
    assert_eq!(r, Err(CpError::InvalidDestination));
}

#[test]
fn test_two_sources_into_directory() {
    let pairs = resolve_copy_pairs(
        strings(&[r#"C:\a.txt"#, r#"C:\b.txt"#]),
        r#"C:\Out\"#.to_string(),
        true,
        true,
    )
    .unwrap();
    assert_eq!(pairs.len(), 2);
    assert_eq!(pairs[0].0, r#"C:\Out\a.txt"#);
    assert_eq!(pairs[0].1, r#"C:\a.txt"#);
    assert_eq!(pairs[1].0, r#"C:\Out\b.txt"#);
    assert_eq!(pairs[1].1, r#"C:\b.txt"#);
}

#[test]
fn test_validate_sources() {
    assert!(validate_sources(&vec![true, true, true]).is_ok());
    assert!(validate_sources(&vec![]).is_ok());
    assert_eq!(validate_sources(&vec![true, false, true]), Err(CpError::SourceNotFound));
    assert_eq!(validate_sources(&vec![false]), Err(CpError::SourceNotFound));
}

#[test]
fn test_modify_dest_path() {
    assert_eq!(
        modify_dest_path(r#"C:\Out\"#, true, true, r#"C:\a\b.txt"#),
        Some(r#"C:\Out\b.txt"#.to_string())
    );
    assert_eq!(
        modify_dest_path(r#"C:\Out"#, true, false, r#"C:\a\b.txt"#),
        Some(r#"C:\Out\b.txt"#.to_string())
    );
    assert_eq!(modify_dest_path(r#"C:\Out"#, false, false, r#"C:\a\b.txt"#), None);
}

#[test]
fn test_file_name() {
    assert_eq!(file_name(r#"C:\a\b.txt"#), "b.txt");
    assert_eq!(file_name("plain"), "plain");
    assert_eq!(file_name(r#"C:\a\"#), "");
}

#[test]
fn test_bin_flag() {
    let (flag, rest) = bin_flag(strings(&["-f", "a", "b"]), FlagKind::Force);
    assert!(flag);
    assert_eq!(rest, strings(&["a", "b"]));

    let (flag, rest) = bin_flag(strings(&["a", "--force", "b", "-F"]), FlagKind::Force);
    assert!(flag);
    assert_eq!(rest, strings(&["a", "b"]));

    let (flag, rest) = bin_flag(strings(&["a", "b"]), FlagKind::Help);
    assert!(!flag);
    assert_eq!(rest, strings(&["a", "b"]));

    assert!(matches_flag(FlagKind::Help, "--help"));
    assert!(matches_flag(FlagKind::Version, "-V"));
    assert!(!matches_flag(FlagKind::Version, "-x"));
}

#[test]
fn test_todo_holds_pairs() {
    let pairs = resolve_copy_pairs(
        strings(&[r#"C:\a.txt"#]),
        r#"C:\Out\"#.to_string(),
        true,
        false,
    )
    .unwrap();
    let todo = Todo { overwrite: true, copy_pairs: pairs };
    assert!(todo.overwrite);
    assert_eq!(todo.copy_pairs[0].0, r#"C:\Out\a.txt"#);
}
