use path_dedot::{ParseDot, Style, CWD};

fn process_cwd() -> CWD {
    CWD::from_path(String::from("/home/user/work"))
}

fn dot(p: &str) -> String {
    p.parse_dot(&process_cwd(), Style::Posix).unwrap().into_string()
}

fn dot_from(p: &str, cwd: &str) -> String {
    p.parse_dot_from(cwd, Style::Posix).into_string()
}

#[test]
fn dedot_lv1() {
    assert_eq!("/path/to/123/456/777", dot("/path/to/123/456/./777"));
}

#[test]
fn dedot_lv2() {
    assert_eq!("/path/to/123/777", dot("/path/to/123/456/../777"));
}

#[test]
fn dedot_lv3() {
    assert_eq!("/path/123/456/777", dot("/path/to/../123/456/./777"));
}

#[test]
fn dedot_lv4() {
    assert_eq!("/path/123/456", dot("/path/to/../123/456/./777/.."));
}

#[test]
fn dedot_lv5() {
    assert_eq!("path/123/456", dot("path/to/../123/456/./777/.."));
}

#[test]
fn dedot_lv6() {
    assert_eq!("123/456", dot("path/to/../../../../123/456/./777/.."));
}

#[test]
fn dedot_lv7() {
    assert_eq!("/123/456", dot("/path/to/../../../../123/456/./777/.."));
}

#[test]
fn unix_dedot_lv8_1() {
    let p = "/";
    assert_eq!("/", dot_from(p, "/foo/bar/baz"));
    assert_eq!("/", dot_from(p, "foo/bar/baz"));
}

#[test]
fn unix_dedot_lv8_2() {
    let p = "";
    assert_eq!("", dot_from(p, "/foo/bar/baz"));
    assert_eq!("", dot_from(p, "foo/bar/baz"));
}

#[test]
fn unix_dedot_lv8_3() {
    let p = "abc";
    assert_eq!("abc", dot_from(p, "/foo/bar/baz"));
    assert_eq!("abc", dot_from(p, "foo/bar/baz"));
}

#[test]
fn unix_dedot_lv9_1() {
    let p = "./abc";
    assert_eq!("/abc", dot_from(p, "/"));
    assert_eq!("abc", dot_from(p, ""));
}

#[test]
fn unix_dedot_lv9_2() {
    let p = "../abc";
    assert_eq!("/abc", dot_from(p, "/"));
    assert_eq!("abc", dot_from(p, ""));
}

#[test]
fn unix_dedot_lv9_3() {
    let p = "./abc";
    assert_eq!("/foo/bar/baz/abc", dot_from(p, "/foo/bar/baz"));
    assert_eq!("foo/bar/baz/abc", dot_from(p, "foo/bar/baz"));
}

#[test]
fn unix_dedot_lv9_4() {
    let p = "../abc";
    assert_eq!("/foo/bar/abc", dot_from(p, "/foo/bar/baz"));
    assert_eq!("foo/bar/abc", dot_from(p, "foo/bar/baz"));
}
