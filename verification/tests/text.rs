use purell::text::{lines_of, string_less};

#[test]
fn lines_follow_str_lines() {
    assert_eq!(lines_of("a\r\nb\n\nc"), vec!["a", "b", "", "c"]);
    assert_eq!(lines_of("x\n"), vec!["x"]);
    assert!(lines_of("").is_empty());
    assert_eq!(lines_of("\n"), vec![""]);
    assert_eq!(lines_of("a\rb"), vec!["a\rb"]);
}

#[test]
fn strings_order_by_code_point() {
    assert!(string_less(&"a".to_string(), &"b".to_string()));
    assert!(string_less(&"a".to_string(), &"ab".to_string()));
    assert!(!string_less(&"b".to_string(), &"ab".to_string()));
    assert!(!string_less(&"x".to_string(), &"x".to_string()));
    assert!(string_less(&"z".to_string(), &"é".to_string()));
}

#[test]
fn open_files_refuse_a_circular_include() {
    use_open_files();
}

fn use_open_files() {
    let mut open = purell::includes::OpenFiles::new();
    assert!(open.enter(&"a.pl".to_string()));
    assert!(open.enter(&"b.pl".to_string()));
    assert!(!open.enter(&"a.pl".to_string()));
    open.leave();
    assert!(open.enter(&"b.pl".to_string()));
    open.leave();
    open.leave();
    assert!(open.enter(&"a.pl".to_string()));
}
