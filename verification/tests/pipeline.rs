use win_cp::canon::resolve_dots;
use win_cp::translate::canonicalize;
use win_cp::CpError;

#[test]
fn test_path_cch_canonicalize_ex() {
    assert_eq!(
        resolve_dots(r#"C:\Users\Valarauca\Documents\"#),
        r#"C:\Users\Valarauca\Documents\"#
    );
    assert_eq!(resolve_dots(r#"C:\Users\Valarauca\Documents\..\..\"#), r#"C:\Users\"#);
}

#[test]
fn test_resolve_dots_edges() {
    // single dots vanish, double dots never climb above the drive
    assert_eq!(resolve_dots(r#"C:\a\.\b"#), r#"C:\a\b"#);
    assert_eq!(resolve_dots(r#"C:\..\..\a"#), r#"C:\a"#);
    assert_eq!(resolve_dots(r#"F:\Downloads\..\"#), r#"F:\"#);
    assert_eq!(resolve_dots(""), "");
    assert_eq!(resolve_dots(r#"C:\a\b.txt"#), r#"C:\a\b.txt"#);
}

#[test]
fn test_resolve_dots_keeps_root() {
    // when `..` consumes everything after the drive, the root's backslash
    // survives: the result is never a drive-relative path
    assert_eq!(resolve_dots(r#"C:\.."#), r#"C:\"#);
    assert_eq!(resolve_dots(r#"C:\a\.."#), r#"C:\"#);
    assert_eq!(resolve_dots(r#"C:\."#), r#"C:\"#);
    assert_eq!(resolve_dots(r#"\.."#), r#"\"#);
    // a single segment has no root to keep and stands as given
    assert_eq!(resolve_dots("C:"), "C:");
    assert_eq!(canonicalize("/c/..", None).unwrap(), r#"C:\"#);
}

#[test]
fn assert_matches() {
    let home = r#"C:\Users\valarauca"#;
    assert_eq!(canonicalize("~/Documents/", Some(home)).unwrap(), r#"C:\Users\valarauca\Documents\"#);
    assert_eq!(canonicalize("/f/Downloads/", None).unwrap(), r#"F:\Downloads\"#);
    assert_eq!(canonicalize("/f/Downloads/../", None).unwrap(), r#"F:\"#);
}

#[test]
fn test_canonicalize_errors() {
    // tilde with no home value
    assert_eq!(canonicalize("~/x", None), Err(CpError::EnvironmentVariableMissing));
    // a path too long for the bounded canonicalization buffer
    let mut long = String::new();
    for _ in 0..32768 {
        long.push('a');
    }
    assert_eq!(canonicalize(&long, None), Err(CpError::PathNormalizationFailure));
    // one character below the ceiling still passes
    long.pop();
    assert_eq!(canonicalize(&long, None).unwrap(), long);
}

#[test]
fn test_canonicalize_idempotent() {
    // a second pass over an already-canonical path changes nothing
    let home = r#"C:\Users\valarauca"#;
    let first = canonicalize("~/Documents/../Pictures//cat.png", Some(home)).unwrap();
    assert_eq!(first, r#"C:\Users\valarauca\Pictures\cat.png"#);
    assert_eq!(canonicalize(&first, Some(home)).unwrap(), first);

    let first = canonicalize("/f/Downloads/../", None).unwrap();
    assert_eq!(canonicalize(&first, None).unwrap(), first);
}
