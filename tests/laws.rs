use path_dedot::{DedotError, ParseDot, ParsePrefix, Style, CWD};

fn posix(p: &str, cwd: &str) -> String {
    p.parse_dot_from(cwd, Style::Posix).into_string()
}

#[test]
fn scenario_single_dot() {
    assert_eq!("/home/u/path/to/123/456", posix("./path/to/123/456", "/home/u"));
}

#[test]
fn scenario_double_dots() {
    assert_eq!("/home/path/to/123/456", posix("../path/to/123/456", "/home/u"));
    assert_eq!("/path/to/123/456", posix("../path/to/123/456", "/"));
}

#[test]
fn scenario_inner_dots() {
    assert_eq!("/path/123/456/777", posix("/path/to/../123/456/./777", "/home/u"));
    assert_eq!("/path/123/456", posix("/path/to/../123/456/./777/..", "/home/u"));
}

#[test]
fn scenario_excess_parents() {
    assert_eq!("123/456", posix("path/to/../../../../123/456/./777/..", "/home/u"));
    assert_eq!("/123/456", posix("/path/to/../../../../123/456/./777/..", "/home/u"));
}

#[test]
fn resolving_twice_changes_nothing() {
    for p in ["./a/./b/../c", "../x/..", "/a/b/../../..", "a/../../b", "//a//b/", "", "/"] {
        let once = posix(p, "/home/u");
        assert_eq!(once, posix(&once, "/home/u"));
    }
}

#[test]
fn clean_path_is_handed_back() {
    let p = "/usr/local/bin";
    let d = p.parse_dot_from("/home/u", Style::Posix);
    assert!(d.is_unchanged());
    assert_eq!(p, d.as_str());
    assert!(r"C:\Users\me".parse_dot_from(r"D:\", Style::Windows).is_unchanged());
    assert!("rel/path".parse_dot_from("", Style::Posix).is_unchanged());
}

#[test]
fn path_without_dot_segments_is_handed_back() {
    let d = "a//b/".parse_dot_from("/", Style::Posix);
    assert!(d.is_unchanged());
    assert_eq!("a//b/", d.as_str());
    assert!("a/".parse_dot_from("/", Style::Posix).is_unchanged());
    let w = "a/b".parse_dot_from("", Style::Windows);
    assert!(w.is_unchanged());
    assert_eq!("a/b", w.as_str());
    assert!(!"./x".parse_dot_from("", Style::Posix).is_unchanged());
    assert!(!"a/./b".parse_dot_from("", Style::Posix).is_unchanged());
    assert_eq!("a/b", "a/./b".parse_dot_from("", Style::Posix).into_string());
}

#[test]
fn parent_alone_is_parent_of_cwd() {
    assert_eq!("/home", posix("..", "/home/u"));
    assert_eq!("/", posix("..", "/"));
    assert_eq!("foo", posix("..", "foo/bar"));
    assert_eq!(r"C:\", r"..".parse_dot_from(r"C:\", Style::Windows).into_string());
}

#[test]
fn parents_stop_at_the_anchor() {
    assert_eq!("/", posix("/..", "/home/u"));
    assert_eq!("/a", posix("/../../a", "/home/u"));
    assert_eq!("/", posix("./../../../..", "/home/u"));
    assert_eq!(r"C:\", r"C:\a\..\..\..".parse_dot_from("", Style::Windows).into_string());
    assert_eq!("C:", r"C:a\..\..".parse_dot_from("", Style::Windows).into_string());
    assert_eq!(r"\\srv\share\", r"\\srv\share\a\..\..".parse_dot_from("", Style::Windows).into_string());
}

#[test]
fn relative_path_may_vanish() {
    assert_eq!("", posix("a/..", "/home/u"));
}

#[test]
fn unknown_cwd_is_an_error() {
    let cwd = CWD::new();
    assert!(matches!("a/b".parse_dot(&cwd, Style::Posix), Err(DedotError::CwdUnavailable)));
    assert_eq!("", "".parse_dot(&cwd, Style::Posix).unwrap().into_string());
}

#[test]
fn cwd_is_fetched_once() {
    let mut cwd = CWD::new();
    assert!(!cwd.is_known());
    cwd.initial(|| Some(String::from("/first")));
    cwd.initial(|| Some(String::from("/second")));
    assert_eq!(Some("/first"), cwd.get());
    cwd.update(String::from("/third"));
    assert_eq!("/third/x", "./x".parse_dot(&cwd, Style::Posix).unwrap().into_string());
    let mut lost = CWD::new();
    lost.initial(|| None);
    assert!(!lost.is_known());
}

#[test]
fn string_paths_resolve_too() {
    let p = String::from("/a/./b/..");
    assert_eq!("/a", p.parse_dot_from("/", Style::Posix).into_string());
    assert_eq!(Some("C:"), String::from(r"C:x").get_path_prefix());
}

#[test]
fn separators() {
    assert_eq!('/', Style::Posix.separator());
    assert_eq!('\\', Style::Windows.separator());
    assert!(Style::Windows.is_separator('/'));
    assert!(!Style::Posix.is_separator('\\'));
}

#[test]
fn windows_prefixes() {
    assert_eq!(Some(r"\\?\UNC\srv\share"), r"\\?\UNC\srv\share\x".get_path_prefix());
    assert_eq!(Some(r"\\?\C:"), r"\\?\C:\x".get_path_prefix());
    assert_eq!(Some(r"\\?\pipe"), r"\\?\pipe\x".get_path_prefix());
    assert_eq!(Some(r"\\.\COM1"), r"\\.\COM1".get_path_prefix());
    assert_eq!(Some("//srv/share"), "//srv/share/x".get_path_prefix());
    assert_eq!(None, r"\\srv".get_path_prefix());
    assert_eq!(None, "1:x".get_path_prefix());
    assert_eq!(r"\\srv\share\b", r"\\srv\share\a\..\b".parse_dot_from("", Style::Windows).into_string());
    assert_eq!(r"\\srv\share\a", r".\a".parse_dot_from(r"\\srv\share", Style::Windows).into_string());
}

#[test]
fn drive_relative_dot() {
    assert_eq!(r"C:\d\x", r"C:.\x".parse_dot_from(r"D:\d", Style::Windows).into_string());
    assert_eq!(r"C:\d", r"C:.".parse_dot_from(r"D:\d", Style::Windows).into_string());
    assert_eq!(r"C:.abc", r"C:.abc".parse_dot_from(r"D:\d", Style::Windows).into_string());
}

#[test]
fn resolving_twice_changes_nothing_on_drives() {
    for p in [r"C:.\a\..\b", r"C:..\x", r"..\y\.", r"C:\a\..\..\c", r"D:x\..\..\z"] {
        let once = p.parse_dot_from(r"C:\work\dir", Style::Windows).into_string();
        let twice = once.parse_dot_from(r"C:\work\dir", Style::Windows).into_string();
        assert_eq!(once, twice);
    }
}

#[test]
fn cwd_with_parent_component_breaks_idempotence() {
    let once = posix("./b", "..");
    assert_eq!("../b", once);
    assert_eq!("b", posix(&once, ".."));
}

#[test]
fn resolving_twice_changes_nothing_on_shares() {
    for (p, cwd) in [
        (r".\a", r"\\srv\share"),
        (r"..\b\.", r"\\srv\share\dir"),
        (r"\\?\C:\x\..\y", r"C:\w"),
        (r"C:x\..\..\z", r"\\.\pipe\p"),
        (r"a\..\C:x\y", r"C:\w"),
    ] {
        let once = p.parse_dot_from(cwd, Style::Windows).into_string();
        let twice = once.parse_dot_from(cwd, Style::Windows).into_string();
        assert_eq!(once, twice);
    }
}

#[test]
fn drive_dot_name_breaks_idempotence() {
    let once = r"x\..\C:..\b".parse_dot_from(r"D:\w", Style::Windows).into_string();
    assert_eq!(r"C:..\b", once);
    assert_eq!(r"C:\b", once.parse_dot_from(r"D:\w", Style::Windows).into_string());
}

#[test]
fn relative_path_keeps_to_its_names() {
    assert_eq!("b/c", posix("a/../b/./c", "/home/u"));
    assert_eq!("x", posix("a/../../x", "/home/u"));
    let kept = "a/b".parse_dot_from("/home/u", Style::Posix);
    assert!(kept.is_unchanged());
    assert_eq!(r"b\c", r"a\..\b\.\c".parse_dot_from(r"C:\w", Style::Windows).into_string());
}

#[test]
fn drive_shaped_name_reads_back_as_drive() {
    let once = r"a\..\C:x".parse_dot_from(r"D:\w", Style::Windows).into_string();
    assert_eq!("C:x", once);
    assert_eq!(Some("C:"), once.get_path_prefix());
}
