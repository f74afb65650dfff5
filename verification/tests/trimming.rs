use blockcounter::clean;
use blockcounter::clean_all_blank;
use blockcounter::remove_blank_at_beginning;
use blockcounter::remove_blank_at_end;

#[test]
fn clean_test() {
    let s = " \t\r\n\n\n\t\r \n".to_string();
    assert_eq!(clean(&s), "".to_string());
    let s = "a\t\r\n\n\n\t\r \n".to_string();
    assert_eq!(clean(&s), "a\t\r\n".to_string());
}

#[test]
fn clean_all_test() {
    let s = " \t\r\n\n\n\n\t\r  \n".to_string();
    assert_eq!(clean_all_blank(&s), "".to_string());
}

#[test]
fn clean_removes_whole_leading_blank_lines() {
    assert_eq!(clean(&" \n  \nx\n".to_string()), "x\n");
    assert_eq!(clean(&"\n\nfirst\nsecond\n\n\n".to_string()), "first\nsecond\n");
    assert_eq!(clean(&"kept as is".to_string()), "kept as is");
}

#[test]
fn clean_keeps_interior_blank_lines() {
    assert_eq!(clean(&"\na\n\nb\n\n".to_string()), "a\n\nb\n");
}

#[test]
fn clean_twice_is_clean_once() {
    let samples = [
        " \t\r\n\n\n\t\r \n",
        "a\t\r\n\n\n\t\r \n",
        " \n  \nx\n \n",
        "\n\na\n\nb\n  \n",
        "",
        "plain\n",
    ];
    for s in samples.iter() {
        let once = clean(&s.to_string());
        let twice = clean(&once);
        assert_eq!(twice, once);
    }
}

#[test]
fn clean_all_blank_keeps_terminators_of_kept_lines() {
    assert_eq!(clean_all_blank(&"a\n\nb\n".to_string()), "a\nb\n");
    assert_eq!(clean_all_blank(&"\n x\r\n\t\nlast".to_string()), " x\r\nlast");
}

#[test]
fn trim_one_side_only() {
    assert_eq!(remove_blank_at_beginning(&"\n \na\n\n".to_string()), "a\n\n");
    assert_eq!(remove_blank_at_end(&"\n \na\n\n".to_string()), "\n \na\n");
}
