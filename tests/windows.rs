use path_dedot::{ParseDot, ParsePrefix, Style, CWD};

fn process_cwd() -> CWD {
    CWD::from_path(String::from(r"C:\Users\user\work"))
}

fn wdot(p: &str) -> String {
    p.parse_dot(&process_cwd(), Style::Windows).unwrap().into_string()
}

fn wdot_from(p: &str, cwd: &str) -> String {
    p.parse_dot_from(cwd, Style::Windows).into_string()
}

#[test]
fn dedot_lv1_1() {
    assert_eq!(r"\path\to\123\456\777", wdot(r"\path\to\123\456\.\777"));
}

#[test]
fn dedot_lv1_2() {
    assert_eq!(r"C:\path\to\123\456\777", wdot(r"C:\path\to\123\456\.\777"));
}

#[test]
fn dedot_lv2_1() {
    assert_eq!(r"\path\to\123\777", wdot(r"\path\to\123\456\..\777"));
}

#[test]
fn dedot_lv2_2() {
    assert_eq!(r"C:\path\to\123\777", wdot(r"C:\path\to\123\456\..\777"));
}

#[test]
fn dedot_lv3_1() {
    assert_eq!(r"\path\123\456\777", wdot(r"\path\to\..\123\456\.\777"));
}

#[test]
fn dedot_lv3_2() {
    assert_eq!(r"C:\path\123\456\777", wdot(r"C:\path\to\..\123\456\.\777"));
}

#[test]
fn dedot_lv4_1() {
    assert_eq!(r"\path\123\456", wdot(r"\path\to\..\123\456\.\777\.."));
}

#[test]
fn dedot_lv4_2() {
    assert_eq!(r"C:\path\123\456", wdot(r"C:\path\to\..\123\456\.\777\.."));
}

#[test]
fn dedot_lv5_1() {
    assert_eq!(r"path\123\456", wdot(r"path\to\..\123\456\.\777\.."));
}

#[test]
fn dedot_lv5_2() {
    assert_eq!(r"C:path\123\456", wdot(r"C:path\to\..\123\456\.\777\.."));
}

#[test]
fn dedot_lv6_1() {
    assert_eq!(r"123\456", wdot(r"path\to\..\..\..\..\123\456\.\777\.."));
}

#[test]
fn dedot_lv6_2() {
    assert_eq!(r"C:123\456", wdot(r"C:path\to\..\..\..\..\123\456\.\777\.."));
}

#[test]
fn dedot_lv7_1() {
    assert_eq!(r"\123\456", wdot(r"\path\to\..\..\..\..\123\456\.\777\.."));
}

#[test]
fn dedot_lv7_2() {
    assert_eq!(r"C:\123\456", wdot(r"C:\path\to\..\..\..\..\123\456\.\777\.."));
}

#[test]
fn windows_dedot_lv8_1() {
    let p = r"C:\";
    assert_eq!(r"C:\", wdot_from(p, r"\foo\bar\baz"));
    assert_eq!(r"C:\", wdot_from(p, r"foo\bar\baz"));
}

#[test]
fn windows_dedot_lv8_2() {
    let p = r"C:";
    assert_eq!(r"C:", wdot_from(p, r"\foo\bar\baz"));
    assert_eq!(r"C:", wdot_from(p, r"foo\bar\baz"));
}

#[test]
fn windows_dedot_lv8_3() {
    let p = r"";
    assert_eq!(r"", wdot_from(p, r"\foo\bar\baz"));
    assert_eq!(r"", wdot_from(p, r"foo\bar\baz"));
}

#[test]
fn dedot_lv8_4() {
    let p = r"abc";
    assert_eq!(r"abc", wdot_from(p, r"\foo\bar\baz"));
    assert_eq!(r"abc", wdot_from(p, r"foo\bar\baz"));
}

#[test]
fn windows_dedot_lv9_1() {
    let p = r".\abc";
    assert_eq!(r"\abc", wdot_from(p, r"\"));
    assert_eq!("abc", wdot_from(p, ""));
    assert_eq!(r"C:\abc", wdot_from(p, r"C:\"));
    assert_eq!("C:abc", wdot_from(p, "C:"));
}

#[test]
fn windows_dedot_lv9_2() {
    let p = r"..\abc";
    assert_eq!(r"\abc", wdot_from(p, r"\"));
    assert_eq!("abc", wdot_from(p, ""));
    assert_eq!(r"C:\abc", wdot_from(p, r"C:\"));
    assert_eq!("C:abc", wdot_from(p, "C:"));
}

#[test]
fn windows_dedot_lv9_3() {
    let p = r".\abc";
    assert_eq!(r"\foo\bar\baz\abc", wdot_from(p, r"\foo\bar\baz"));
    assert_eq!(r"foo\bar\baz\abc", wdot_from(p, r"foo\bar\baz"));
    assert_eq!(r"C:\foo\bar\baz\abc", wdot_from(p, r"C:\foo\bar\baz"));
    assert_eq!(r"C:foo\bar\baz\abc", wdot_from(p, r"C:foo\bar\baz"));
}

#[test]
fn windows_dedot_lv9_4() {
    let p = r"..\abc";
    assert_eq!(r"\foo\bar\abc", wdot_from(p, r"\foo\bar\baz"));
    assert_eq!(r"foo\bar\abc", wdot_from(p, r"foo\bar\baz"));
    assert_eq!(r"C:\foo\bar\abc", wdot_from(p, r"C:\foo\bar\baz"));
    assert_eq!(r"C:foo\bar\abc", wdot_from(p, r"C:foo\bar\baz"));
}

#[test]
fn dedot_lv9_5() {
    let p = r"C:.\abc";
    assert_eq!(r"C:\abc", wdot_from(p, r"\"));
    assert_eq!("C:abc", wdot_from(p, ""));
    assert_eq!(r"C:\abc", wdot_from(p, r"C:\"));
    assert_eq!("C:abc", wdot_from(p, "C:"));
}

#[test]
fn dedot_lv9_6() {
    let p = r"C:..\abc";
    assert_eq!(r"C:\abc", wdot_from(p, r"\"));
    assert_eq!("C:abc", wdot_from(p, ""));
    assert_eq!(r"C:\abc", wdot_from(p, r"C:\"));
    assert_eq!("C:abc", wdot_from(p, "C:"));
}

#[test]
fn dedot_lv9_7() {
    let p = r"C:.\abc";
    assert_eq!(r"C:\foo\bar\baz\abc", wdot_from(p, r"\foo\bar\baz"));
    assert_eq!(r"C:foo\bar\baz\abc", wdot_from(p, r"foo\bar\baz"));
    assert_eq!(r"C:\foo\bar\baz\abc", wdot_from(p, r"C:\foo\bar\baz"));
    assert_eq!(r"C:foo\bar\baz\abc", wdot_from(p, r"C:foo\bar\baz"));
}

#[test]
fn dedot_lv9_8() {
    let p = r"C:..\abc";
    assert_eq!(r"C:\foo\bar\abc", wdot_from(p, r"\foo\bar\baz"));
    assert_eq!(r"C:foo\bar\abc", wdot_from(p, r"foo\bar\baz"));
    assert_eq!(r"C:\foo\bar\abc", wdot_from(p, r"C:\foo\bar\baz"));
    assert_eq!(r"C:foo\bar\abc", wdot_from(p, r"C:foo\bar\baz"));
}

#[test]
fn prefix_1() {
    assert_eq!(r"C:\", wdot(r"C:\"));
}

#[test]
fn prefix_2() {
    assert_eq!(r"C:", wdot(r"C:"));
}

#[test]
fn prefix_3() {
    assert_eq!(r"\\VBOXSRV\test", wdot(r"\\VBOXSRV\test"));
}

#[test]
fn prefix_4() {
    assert_eq!(r"\\VBOXSRV\test\", wdot(r"\\VBOXSRV\test\"));
}

#[test]
fn prefix_of_drive_and_share() {
    assert_eq!(Some("C:"), r"C:\path".get_path_prefix());
    assert_eq!(Some(r"\\VBOXSRV\test"), r"\\VBOXSRV\test\a".get_path_prefix());
    assert_eq!(None, r"\path".get_path_prefix());
}
