use kreuzberg::markdown::{finish_markdown_output, squeeze_blank_lines_exec, strip_arxiv_watermark_noise};

#[test]
fn cleanup_removes_comments_entities_and_escapes() {
    let raw = "# Title\n<!-- comment -->\n\n\n\nSome \\_text\\_ &#10;here\\[1\\]\n\\* item\n\\#. numbered\n   \n";
    assert_eq!(
        finish_markdown_output(raw),
        "# Title\n\nSome _text_  here[1]\n* item\n#. numbered\n"
    );
}

#[test]
fn cleanup_of_blank_output_is_empty() {
    assert_eq!(finish_markdown_output(""), "");
    assert_eq!(finish_markdown_output(" \n\n\t"), "");
}

#[test]
fn cleanup_ends_with_one_newline() {
    assert_eq!(finish_markdown_output("text\n\n\n\n"), "text\n");
    assert_eq!(finish_markdown_output("a\n\n\n\n\nb"), "a\n\nb\n");
    assert_eq!(finish_markdown_output("x&#2;y \\(z\\)"), "xy (z)\n");
}

#[test]
fn cleanup_keeps_inline_escaped_star() {
    // Only a line-leading escaped list marker is unescaped.
    assert_eq!(finish_markdown_output("a \\* b\n\\* c"), "a \\* b\n* c\n");
}

#[test]
fn comment_lines_only_when_whole_line() {
    assert_eq!(finish_markdown_output("keep <!-- x --> this\nnext\r\n"), "keep <!-- x --> this\nnext\n");
}

#[test]
fn arxiv_watermark_at_paragraph_boundary_is_stripped() {
    let text = "Deep Learning 1 arXiv:2101.12345v2 [cs.LG] 28 Jan 2021\n\nBody".to_string();
    assert_eq!(strip_arxiv_watermark_noise(text), "Deep\n\nBody");
}

#[test]
fn arxiv_watermark_inside_sentence_is_kept() {
    let text = "see arXiv:2101.12345 for details".to_string();
    assert_eq!(strip_arxiv_watermark_noise(text.clone()), text);
}

#[test]
fn text_without_watermark_is_unchanged() {
    let text = "Nothing to see here.\n".to_string();
    assert_eq!(strip_arxiv_watermark_noise(text.clone()), text);
}

#[test]
fn squeezing_blank_lines_twice_changes_nothing_more() {
    let v: Vec<char> = "a\n\n\n\nb\n\n\nc\n".chars().collect();
    let once = squeeze_blank_lines_exec(&v);
    let s: String = once.iter().collect();
    assert_eq!(s, "a\n\nb\n\nc\n");
    assert!(!s.contains("\n\n\n"));
    assert_eq!(squeeze_blank_lines_exec(&once), once);
}

#[test]
fn cleaned_markdown_ends_with_a_single_newline_after_text() {
    let out = finish_markdown_output("# Title\n\nBody text \t\n\n \n");
    assert_eq!(out, "# Title\n\nBody text\n");
    assert!(out.ends_with('\n') && !out[..out.len() - 1].ends_with(char::is_whitespace));
}
