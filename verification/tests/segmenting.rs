use blockcounter::clean;
use blockcounter::Blocks;

fn collect(seg: &mut Blocks) -> Vec<String> {
    let mut out: Vec<String> = Vec::new();
    while let Some(block) = seg.next() {
        out.push(block);
    }
    out
}

#[test]
fn segments_scenario_stream() {
    let text = "0\n1\n\n2\n\n\n3\n\n".to_string();
    let mut seg = Blocks::new(2, &text);
    let blocks = collect(&mut seg);
    assert_eq!(blocks, vec!["0\n1\n\n2\n\n\n".to_string(), "3\n\n".to_string()]);
    assert_eq!(seg.next(), None);
}

#[test]
fn tolerance_zero_closes_block_on_each_content_line() {
    let mut seg = Blocks::new(0, "a\n\nb\nc\n\n");
    let blocks = collect(&mut seg);
    assert_eq!(blocks, vec!["a\n".to_string(), "\nb\n".to_string(), "c\n".to_string()]);
    for block in blocks.iter() {
        let last_line = block.lines().last().unwrap();
        assert!(!last_line.trim().is_empty());
    }
}

#[test]
fn leading_blank_lines_are_discarded() {
    let mut with_lead = Blocks::new(1, "\n\n\nhello\nworld\n");
    let mut without = Blocks::new(1, "hello\nworld\n");
    assert_eq!(collect(&mut with_lead), collect(&mut without));

    let mut seg = Blocks::new(3, "\n\n\n\n\n\nonly\n");
    assert_eq!(seg.next(), Some("only\n".to_string()));
    assert_eq!(seg.next(), None);
}

#[test]
fn comment_lines_separate_like_blank_ones() {
    let prefixes = vec!["//".to_string()];
    let text = "   // comment\n// comment\n   non-comment\nnon-comment\n//\n\nnon-comment\n";
    let mut seg = Blocks::new_with_comments(1, text, &prefixes);
    let blocks = collect(&mut seg);
    assert_eq!(
        blocks,
        vec![
            "   non-comment\nnon-comment\n//\n\n".to_string(),
            "non-comment\n".to_string(),
        ],
    );
}

#[test]
fn no_comment_prefixes_means_comments_are_content() {
    let text = "// a\ncode\n\n// b\n";
    let mut plain = Blocks::new(1, text);
    let blocks = collect(&mut plain);
    assert_eq!(blocks, vec!["// a\ncode\n\n".to_string(), "// b\n".to_string()]);
}

#[test]
fn exhausted_or_garbage_streams_yield_nothing() {
    let mut empty = Blocks::new(2, "");
    assert_eq!(empty.next(), None);
    let mut blanks = Blocks::new(2, "\n \n\t\n");
    assert_eq!(blanks.next(), None);
    let prefixes = vec!["#".to_string()];
    let mut comments_only = Blocks::new_with_comments(0, "# one\n# two\n", &prefixes);
    assert_eq!(comments_only.next(), None);
}

#[test]
fn cleaning_a_segmented_block() {
    let text = "\n\nfirst\nsecond\n\n\nthird\n\n".to_string();
    let mut seg = Blocks::new(2, &text);
    let blocks = collect(&mut seg);
    assert_eq!(blocks.len(), 2);
    assert_eq!(clean(&blocks[0]), "first\nsecond\n");
    assert_eq!(clean(&blocks[1]), "third\n");
}
