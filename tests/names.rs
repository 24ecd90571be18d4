use image_rando::args::required_arg;
use image_rando::names::is_jpg;

#[test]
fn jpg_extensions_in_any_case() {
    assert!(is_jpg("a.jpg"));
    assert!(is_jpg("a.JPG"));
    assert!(is_jpg("holiday.JpEg"));
    assert!(is_jpg("x.y.jpeg"));
    assert!(is_jpg("..jpg"));
}

#[test]
fn other_names_are_not_jpg() {
    assert!(!is_jpg("a.png"));
    assert!(!is_jpg("jpg"));
    assert!(!is_jpg(".jpg"));
    assert!(!is_jpg("a.jpgx"));
    assert!(!is_jpg("a.jpg.txt"));
    assert!(!is_jpg("a."));
    assert!(!is_jpg(""));
    assert!(!is_jpg("é.jpĝ"));
}

#[test]
fn required_arg_present() {
    let argv = vec!["prog".to_string(), "--src".to_string(), "/pics".to_string()];
    assert_eq!(required_arg(&argv, 2, "--src"), Ok("/pics".to_string()));
}

#[test]
fn required_arg_missing() {
    let argv = vec!["prog".to_string(), "--src".to_string()];
    assert_eq!(
        required_arg(&argv, 2, "--src"),
        Err("missing value for --src".to_string())
    );
}
