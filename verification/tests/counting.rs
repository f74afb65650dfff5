use blockcounter::blank_lines;
use blockcounter::count_blocks;
use blockcounter::split_lines;

#[test]
fn counts_blocks_of_scenario_stream() {
    let text = "0\n1\n\n2\n\n\n3\n\n".to_string();
    assert_eq!(count_blocks(2, &text), 2);
}

#[test]
fn count_is_a_function_of_tolerance_and_text() {
    let text = "0\n1\n\n2\n\n\n3\n\n".to_string();
    for t in 0..5 {
        assert_eq!(count_blocks(t, &text), count_blocks(t, &text));
    }
    assert_eq!(count_blocks(0, &text), 4);
    assert_eq!(count_blocks(1, &text), 3);
    assert_eq!(count_blocks(2, &text), 2);
    assert_eq!(count_blocks(3, &text), 1);
    assert_eq!(count_blocks(4, &text), 1);
}

#[test]
fn labeled_chunks_with_growing_gaps() {
    let mut text = String::new();
    for i in 0..8 {
        text.push_str(&format!("block {}\n", i));
        for _ in 0..i {
            text.push('\n');
        }
    }
    for t in 0..8 {
        assert_eq!(count_blocks(t, &text), 8 - t);
    }
}

#[test]
fn counting_edge_cases() {
    assert_eq!(count_blocks(3, &"".to_string()), 0);
    assert_eq!(count_blocks(0, &"\n\n\n".to_string()), 0);
    assert_eq!(count_blocks(100, &"a\nb\n".to_string()), 1);
    assert_eq!(count_blocks(0, &"a\rb\n".to_string()), 1);
    assert_eq!(count_blocks(1, &"one".to_string()), 1);
}

#[test]
fn blank_lines_is_count_blocks() {
    let text = "x\n\ny\n".to_string();
    for t in 0..4 {
        assert_eq!(blank_lines(t, &text), count_blocks(t, &text));
    }
}

#[test]
fn splitting_keeps_terminators() {
    let lines = split_lines("a\nb\r\n\nlast");
    assert_eq!(lines, vec!["a\n".to_string(), "b\r\n".to_string(), "\n".to_string(), "last".to_string()]);
    let empty = split_lines("");
    assert_eq!(empty.len(), 0);
}
