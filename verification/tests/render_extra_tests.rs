use kreuzberg::render::{
    collapse_inner_spaces, escape_html_entities, inject_image_placeholders, join_lines_with_dehyphenation,
    join_texts_cjk_aware, normalize_list_prefix, render_paragraph_to_output, render_paragraphs_to_string,
    LayoutHintClass, PdfLine, PdfParagraph, SegmentData,
};
use kreuzberg::types::{ExtractedImage, ExtractionResult};
use std::borrow::Cow;

fn seg(text: &str, is_bold: bool, is_italic: bool) -> SegmentData {
    SegmentData { text: text.to_string(), is_bold, is_italic }
}

fn line(segments: Vec<SegmentData>) -> PdfLine {
    PdfLine { segments }
}

fn para(lines: Vec<PdfLine>) -> PdfParagraph {
    PdfParagraph {
        lines,
        heading_level: None,
        is_list_item: false,
        is_code_block: false,
        is_formula: false,
        layout_class: None,
    }
}

fn render(p: &PdfParagraph) -> String {
    let mut out = String::new();
    render_paragraph_to_output(p, &mut out);
    out
}

fn image(index: usize, page: Option<usize>, ocr: Option<&str>) -> ExtractedImage {
    ExtractedImage {
        data: Vec::new(),
        format: "png".to_string(),
        image_index: index,
        page_number: page,
        ocr_result: ocr.map(|t| {
            Box::new(ExtractionResult {
                content: t.to_string(),
                formatted_content: None,
                mime_type: "text/plain".to_string(),
                pages: None,
                page_boundaries: None,
                detected_languages: None,
                processing_warnings: Vec::new(),
                code_chunks: None,
                chunks: None,
            })
        }),
    }
}

#[test]
fn cjk_words_are_joined_without_space() {
    assert_eq!(join_texts_cjk_aware(&["日本", "語"]), "日本語");
    assert_eq!(join_texts_cjk_aware(&["日本", "text"]), "日本 text");
    assert_eq!(join_texts_cjk_aware(&[]), "");
}

#[test]
fn cjk_lines_are_joined_without_space() {
    let lines = vec!["漢字".to_string(), "かな".to_string()];
    assert_eq!(join_lines_with_dehyphenation(&lines), "漢字かな");
}

#[test]
fn dehyphenation_needs_a_letter_before_the_hyphen() {
    assert_eq!(join_texts_cjk_aware(&["3-", "items"]), "3- items");
    assert_eq!(join_texts_cjk_aware(&["über-", "all"]), "überall");
}

#[test]
fn empty_first_line_is_replaced_by_next() {
    let lines = vec!["".to_string(), "x".to_string(), "".to_string()];
    assert_eq!(join_lines_with_dehyphenation(&lines), "x");
    assert_eq!(join_lines_with_dehyphenation(&[]), "");
}

#[test]
fn escape_borrows_when_nothing_to_escape() {
    assert!(matches!(escape_html_entities("plain text"), Cow::Borrowed(_)));
    assert!(matches!(escape_html_entities("a<b"), Cow::Owned(_)));
    assert!(matches!(escape_html_entities("http://x/a_b"), Cow::Borrowed(_)));
}

#[test]
fn collapse_keeps_indentation() {
    assert_eq!(collapse_inner_spaces("    let  x  =   1;"), "    let x = 1;");
    assert_eq!(collapse_inner_spaces("a b"), "a b");
    assert_eq!(collapse_inner_spaces("   "), "   ");
    assert_eq!(collapse_inner_spaces(""), "");
}

#[test]
fn list_prefixes_are_normalized() {
    assert_eq!(normalize_list_prefix("\u{2022}  item"), "- item");
    assert_eq!(normalize_list_prefix("\u{00B7}item"), "- item");
    assert_eq!(normalize_list_prefix("* item"), "- item");
    assert_eq!(normalize_list_prefix("  - item"), "- item");
    assert_eq!(normalize_list_prefix("\u{2013} item"), "- item");
    assert_eq!(normalize_list_prefix("\u{25CF}item"), "- item");
    assert_eq!(normalize_list_prefix("12. item"), "12. item");
    assert_eq!(normalize_list_prefix(" 3) item"), "3) item");
    assert_eq!(normalize_list_prefix("123"), "- 123");
    assert_eq!(normalize_list_prefix("item"), "- item");
    assert_eq!(normalize_list_prefix(""), "- ");
}

#[test]
fn list_item_paragraph_is_normalized() {
    let mut p = para(vec![line(vec![seg("\u{2022} first", false, false)])]);
    p.is_list_item = true;
    assert_eq!(render(&p), "- first");
}

#[test]
fn caption_stars_are_escaped() {
    let mut p = para(vec![line(vec![seg("Figure *1* a_b", false, false)])]);
    p.layout_class = Some(LayoutHintClass::Caption);
    assert_eq!(render(&p), "*Figure \\*1\\* a\\_b*");
}

#[test]
fn code_block_lines_collapse_spaces() {
    let mut p = para(vec![
        line(vec![seg("fn", false, false), seg("main()  {", false, false)]),
        line(vec![seg("    let  x = 1;", false, false)]),
    ]);
    p.is_code_block = true;
    assert_eq!(render(&p), "```\nfn main() {\n    let x = 1;\n```");
}

#[test]
fn heading_level_three() {
    let mut p = para(vec![line(vec![seg("a_b", false, false)])]);
    p.heading_level = Some(3);
    assert_eq!(render(&p), "### a\\_b");
}

#[test]
fn render_appends_to_existing_output() {
    let p = para(vec![line(vec![seg("x", false, false)])]);
    let mut out = String::from("pre:");
    render_paragraph_to_output(&p, &mut out);
    assert_eq!(out, "pre:x");
}

#[test]
fn paragraphs_are_separated_by_blank_lines() {
    let a = para(vec![line(vec![seg("One", false, false)])]);
    let empty = para(vec![]);
    let b = para(vec![line(vec![seg("Two", true, false)])]);
    assert_eq!(render_paragraphs_to_string(&[empty, a, b]), "One\n\n**Two**");
    assert_eq!(render_paragraphs_to_string(&[]), "");
}

#[test]
fn formatting_runs_across_lines() {
    let p = para(vec![
        line(vec![seg("plain", false, false), seg("both", true, true)]),
        line(vec![seg("more", true, true), seg("end", false, true)]),
    ]);
    assert_eq!(render(&p), "plain ***both more*** *end*");
}

#[test]
fn placeholders_group_images_by_page() {
    let images = vec![
        image(0, Some(2), None),
        image(1, None, Some("  seen text ")),
        image(2, Some(1), Some("   ")),
        image(3, Some(2), None),
    ];
    let out = inject_image_placeholders("Doc", &images);
    assert_eq!(
        out,
        "Doc\n\n![Image 1](embedded:i1)\n> *Image text: seen text*\n\n![Image 2 (page 1)](embedded:p1_i2)\n\n![Image 0 (page 2)](embedded:p2_i0)\n\n![Image 3 (page 2)](embedded:p2_i3)"
    );
}

#[test]
fn placeholder_numbers_use_decimal() {
    let images = vec![image(105, Some(37), None)];
    assert_eq!(inject_image_placeholders("", &images), "\n\n![Image 105 (page 37)](embedded:p37_i105)");
}
