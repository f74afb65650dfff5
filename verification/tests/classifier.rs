use blockcounter::is_blank;
use blockcounter::is_comment;

#[test]
fn blank_is_blank() {
    let s = " \t\r\n".to_string();
    if !is_blank(&s) {
        panic!("is_blank(&String) problem.");
    }
}

#[test]
fn empty_is_blank() {
    let s = "".to_string();
    if !is_blank(&s) {
        panic!("is_blank(&String) problem.");
    }
}

#[test]
#[should_panic(expected = "is_blank(&String) problem.")]
fn non_blank_is_non_blank() {
    let s = " \t\ra\n".to_string();
    if !is_blank(&s) {
        panic!("is_blank(&String) problem.");
    }
}

#[test]
fn comment_is_comment() {
    let s = "\t//fldfjbas".to_string();
    if !is_comment(&s, &vec!["//".to_string()]) {
        panic!("is_blank(&String) problem.");
    }
}

#[test]
#[should_panic(expected = "is_comment(&String, &Vec<_>) problem.")]
fn non_comment_is_non_comment() {
    let s = " bhfjass".to_string();
    if !is_comment(&s, &vec!["//".to_string()]) {
        panic!("is_comment(&String, &Vec<_>) problem.");
    }
}

#[test]
fn blank_is_not_comment() {
    let s = " \t\r\n".to_string();
    if is_comment(&s, &vec!["a".to_string()]) {
        panic!("is_comment(...) problem.");
    }
}

#[test]
fn blank_rejects_any_content_character() {
    assert!(is_blank(""));
    assert!(is_blank(" \t\r\n"));
    assert!(is_blank("\r\r\n\n\t  "));
    assert!(!is_blank("x"));
    assert!(!is_blank("   .   "));
    assert!(!is_blank(" \t\r\n!"));
}

#[test]
fn empty_prefix_list_never_comments() {
    let none: Vec<String> = Vec::new();
    assert!(!is_comment("// looks like one", &none));
    assert!(!is_comment("", &none));
    assert!(!is_comment(" \t", &none));
}

#[test]
fn empty_line_is_no_comment_under_nonempty_prefixes() {
    let prefixes = vec!["//".to_string(), "#".to_string()];
    assert!(!is_comment("", &prefixes));
    assert!(!is_comment(" \t\r\n", &prefixes));
}

#[test]
fn comment_prefix_matches_after_leading_blanks() {
    let prefixes = vec!["//".to_string(), "#".to_string()];
    assert!(is_comment("// plain", &prefixes));
    assert!(is_comment(" \t # hash", &prefixes));
    assert!(is_comment("\r\n//joined", &prefixes));
    assert!(!is_comment("/ half", &prefixes));
    assert!(!is_comment("nope // late", &prefixes));
}
