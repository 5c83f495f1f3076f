use win_cp::rewrite::{fix_root, fix_tilde, normalize_slash};
use win_cp::CpError;

#[test]
fn test_fix_root() {
    // sanity check
    assert_eq!(fix_root(r#"F:\Users\Valarauca"#), r#"F:\Users\Valarauca"#);
    assert_eq!(fix_root(r#"/f/Users/Valarauca"#), r#"F:\Users/Valarauca"#);

    // terminating slash
    assert_eq!(fix_root(r#"F:\Users\Valarauca\"#), r#"F:\Users\Valarauca\"#);
    assert_eq!(fix_root(r#"/f/Users/Valarauca\"#), r#"F:\Users/Valarauca\"#);

    // opposite slash
    assert_eq!(fix_root(r#"F:\Users\Valarauca/"#), r#"F:\Users\Valarauca/"#);
    assert_eq!(fix_root(r#"/f/Users/Valarauca/"#), r#"F:\Users/Valarauca/"#);

    // double terminating slash
    assert_eq!(fix_root(r#"F:\Users\Valarauca\\"#), r#"F:\Users\Valarauca\\"#);
    assert_eq!(fix_root(r#"/f/Users/Valarauca\\"#), r#"F:\Users/Valarauca\\"#);

    // double opposite slash
    assert_eq!(fix_root(r#"F:\Users\Valarauca//"#), r#"F:\Users\Valarauca//"#);
    assert_eq!(fix_root(r#"/f/Users/Valarauca//"#), r#"F:\Users/Valarauca//"#);
}

#[test]
fn test_fix_root_edges() {
    // too short to hold the pattern, or anchored elsewhere: unchanged
    assert_eq!(fix_root(""), "");
    assert_eq!(fix_root("/f"), "/f");
    assert_eq!(fix_root("/f/"), r#"F:\"#);
    assert_eq!(fix_root("x/f/y"), "x/f/y");
    assert_eq!(fix_root("//f/y"), "//f/y");
    assert_eq!(fix_root("/9/y"), "/9/y");
    // lowercase and uppercase letters both work, case is forced up
    assert_eq!(fix_root("/c/x"), r#"C:\x"#);
    assert_eq!(fix_root("/C/x"), r#"C:\x"#);
}

#[test]
fn test_fix_tilde() {
    let home = r#"C:\Users\valarauca"#;

    // test cases which should be uneffected
    assert_eq!(
        fix_tilde(r#"C:\Users\Valarauca\Documents\"#, Some(home)).unwrap(),
        r#"C:\Users\Valarauca\Documents\"#
    );
    assert_eq!(
        fix_tilde(r#"C:\Users\\\Valarauca\Documents\"#, Some(home)).unwrap(),
        r#"C:\Users\\\Valarauca\Documents\"#
    );
    assert_eq!(
        fix_tilde(r#"~/Documents/"#, Some(home)).unwrap(),
        r#"C:\Users\valarauca/Documents/"#
    );

    // trivial cases
    assert_eq!(fix_tilde(r#"~/"#, Some(home)).unwrap(), r#"C:\Users\valarauca/"#);
    assert_eq!(fix_tilde(r#"~\"#, Some(home)).unwrap(), r#"C:\Users\valarauca\"#);
    assert_eq!(fix_tilde(r#"~///"#, Some(home)).unwrap(), r#"C:\Users\valarauca///"#);
    assert_eq!(fix_tilde(r#"~\\\lol\"#, Some(home)).unwrap(), r#"C:\Users\valarauca\\\lol\"#);
}

#[test]
fn test_fix_tilde_missing_home() {
    // a leading tilde with no home value is the environment error
    assert_eq!(fix_tilde("~/Documents/", None), Err(CpError::EnvironmentVariableMissing));
    assert_eq!(fix_tilde("~", None), Err(CpError::EnvironmentVariableMissing));
    // no tilde: the missing value is never consulted
    assert_eq!(fix_tilde(r#"C:\x"#, None).unwrap(), r#"C:\x"#);
    // a tilde later in the string is not special
    assert_eq!(fix_tilde(r#"C:\~x"#, None).unwrap(), r#"C:\~x"#);
}

#[test]
fn test_normalize_slash() {
    // test cases which should be uneffected
    assert_eq!(
        normalize_slash(r#"C:\Users\Valarauca\Documents\"#),
        r#"C:\Users\Valarauca\Documents\"#
    );

    // simple test cases
    assert_eq!(
        normalize_slash(r#"C:/Users/Valarauca/Documents/"#),
        r#"C:\Users\Valarauca\Documents\"#
    );
    assert_eq!(
        normalize_slash(r#"C:\Users\\\\Valarauca\\Documents\\/\"#),
        r#"C:\Users\Valarauca\Documents\"#
    );
    assert_eq!(
        normalize_slash(r#"C:\Users/Valarauca\/\Documents\\/\"#),
        r#"C:\Users\Valarauca\Documents\"#
    );
}

#[test]
fn test_normalize_slash_edges() {
    assert_eq!(normalize_slash(""), "");
    assert_eq!(normalize_slash("/"), r#"\"#);
    assert_eq!(normalize_slash(r#"\/\/\/"#), r#"\"#);
    assert_eq!(normalize_slash("abc"), "abc");
    // idempotent on its own output
    let once = normalize_slash(r#"a//b\\c"#);
    assert_eq!(normalize_slash(&once), once);
}
