use kreuzberg::config::{ChunkingConfig, ExtractionConfig, LanguageDetectionConfig, OutputFormat, TokenReductionConfig};
use kreuzberg::pipeline::{
    execute_chunking, execute_language_detection, execute_token_reduction, plan_chunking,
    record_chunks, record_language_detection, record_token_reduction,
    recompute_boundaries_from_pages, token_reduction_language_hint, try_code_chunks,
};
use kreuzberg::embed::EmbeddingModelChoice;
use kreuzberg::pipeline::ChunkingPlan;
use kreuzberg::types::{
    Chunk, ChunkMetadata, ChunkType, CodeChunk, ExtractionResult, PageBoundary, PageContent,
};

fn make_page(page_number: usize, content: &str) -> PageContent {
    PageContent {
        page_number,
        content: content.to_string(),
    }
}

fn make_result(content: &str, formatted: Option<&str>) -> ExtractionResult {
    ExtractionResult {
        content: content.to_string(),
        formatted_content: formatted.map(|s| s.to_string()),
        mime_type: "application/pdf".to_string(),
        pages: None,
        page_boundaries: None,
        detected_languages: None,
        processing_warnings: Vec::new(),
        code_chunks: None,
        chunks: None,
    }
}

#[test]
fn recompute_boundaries_trailing_space_pages_all_resolve() {
    let p1_raw = "Heading \n\nBody paragraph one. ";
    let p2_raw = "Second heading \n\nBody paragraph two. ";
    let p3_raw = "Conclusion. ";
    let p1_norm = "Heading\n\nBody paragraph one.";
    let p2_norm = "Second heading\n\nBody paragraph two.";
    let p3_norm = "Conclusion.";
    let content = format!("{p1_norm}\n\n{p2_norm}\n\n{p3_norm}");

    let pages = vec![make_page(1, p1_raw), make_page(2, p2_raw), make_page(3, p3_raw)];
    let boundaries = recompute_boundaries_from_pages(&content, &pages);

    assert_eq!(boundaries.len(), 3);
    assert_eq!(&content[boundaries[0].byte_start..boundaries[0].byte_end], p1_norm);
    assert_eq!(&content[boundaries[1].byte_start..boundaries[1].byte_end], p2_norm);
    assert_eq!(&content[boundaries[2].byte_start..boundaries[2].byte_end], p3_norm);
}

#[test]
fn recompute_boundaries_blank_page_gets_empty_range() {
    let content = "First page.\n\nSecond page.";
    let pages = vec![make_page(1, "First page."), make_page(2, "   \n "), make_page(3, "Second page.")];
    let b = recompute_boundaries_from_pages(content, &pages);
    assert_eq!(
        b,
        vec![
            PageBoundary { page_number: 1, byte_start: 0, byte_end: 11 },
            PageBoundary { page_number: 2, byte_start: 11, byte_end: 11 },
            PageBoundary { page_number: 3, byte_start: 13, byte_end: 25 },
        ]
    );
}

#[test]
fn recompute_boundaries_missing_page_is_skipped() {
    let content = "Alpha text.\n\nGamma text.";
    let pages = vec![make_page(1, "Alpha text."), make_page(2, "Beta text."), make_page(3, "Gamma text.")];
    let b = recompute_boundaries_from_pages(content, &pages);
    assert_eq!(b.len(), 2);
    assert_eq!(b[0].page_number, 1);
    assert_eq!(b[1].page_number, 3);
    assert_eq!(&content[b[1].byte_start..b[1].byte_end], "Gamma text.");
}

#[test]
fn recompute_boundaries_falls_back_to_first_line_and_clamps() {
    // The page's normalised text is not in the content, but its first line is.
    let content = "Intro line\nother";
    let pages = vec![make_page(1, "  Intro line\nchanged words that are long")];
    let b = recompute_boundaries_from_pages(content, &pages);
    assert_eq!(b.len(), 1);
    assert_eq!(b[0].byte_start, 0);
    assert_eq!(b[0].byte_end, content.len());
}

#[test]
fn recompute_boundaries_rounds_down_to_char_boundary() {
    // "é" takes two bytes: a range ending inside it is rounded down.
    let content = "ab\u{e9}cd";
    let pages = vec![make_page(1, "a\nb")];
    let b = recompute_boundaries_from_pages(content, &pages);
    assert_eq!(b.len(), 1);
    assert_eq!(b[0].byte_start, 0);
    assert_eq!(b[0].byte_end, 2);
    assert!(content.is_char_boundary(b[0].byte_end));
}

#[test]
fn stage_warnings_when_stages_are_not_built() {
    let mut config = ExtractionConfig::default();
    config.chunking = Some(ChunkingConfig { max_characters: 2000, overlap: 0, trim: true, embedding: None });
    config.language_detection = Some(LanguageDetectionConfig { enabled: true });
    config.token_reduction = Some(TokenReductionConfig { mode: "light".to_string() });
    let mut result = make_result("text", None);
    execute_chunking(&mut result, &config, None, None).unwrap();
    execute_language_detection(&mut result, &config, None).unwrap();
    execute_token_reduction(&mut result, &config, None).unwrap();
    let w: Vec<(String, String)> = result
        .processing_warnings
        .iter()
        .map(|w| (w.source.clone(), w.message.clone()))
        .collect();
    assert_eq!(
        w,
        vec![
            ("chunking".to_string(), "Chunking feature not enabled".to_string()),
            ("language_detection".to_string(), "Language detection feature not enabled".to_string()),
            ("token_reduction".to_string(), "Token reduction requires the quality feature".to_string()),
        ]
    );
    assert_eq!(result.content, "text");
}

#[test]
fn stages_do_nothing_when_not_configured() {
    let config = ExtractionConfig::default();
    let mut result = make_result("text", None);
    execute_chunking(&mut result, &config, Some(Err("unused".to_string())), None).unwrap();
    execute_language_detection(&mut result, &config, Some(Err("unused".to_string()))).unwrap();
    execute_token_reduction(&mut result, &config, Some(Ok("changed".to_string()))).unwrap();
    assert!(result.processing_warnings.is_empty());
    assert_eq!(result.content, "text");
    assert!(result.chunks.is_none() && result.detected_languages.is_none());
}

#[test]
fn chunk_plan_uses_markdown_when_output_format_is_markdown() {
    let mut config = ExtractionConfig::default();
    config.output_format = OutputFormat::Markdown;
    config.chunking = Some(ChunkingConfig { max_characters: 2000, overlap: 0, trim: true, embedding: None });
    let result = make_result(
        "SH-001 Luca Bianchi Common Germany 3500000",
        Some("| SH-001 | Luca Bianchi | Common | Germany | 3,500,000 |"),
    );
    let plan = plan_chunking(&result, &config).expect("plan");
    assert!(plan.input.contains('|'));
    assert!(plan.heading_source.is_none());
    assert!(plan.page_boundaries.is_none());
}

#[test]
fn chunk_plan_plain_uses_formatted_as_heading_source_and_recomputes_pages() {
    let mut config = ExtractionConfig::default();
    config.chunking = Some(ChunkingConfig { max_characters: 2000, overlap: 0, trim: true, embedding: None });
    let mut result = make_result("Page one text\n\nPage two text", Some("# Page one\n\nPage one text"));
    result.pages = Some(vec![make_page(1, "Page one text"), make_page(2, "Page two text")]);
    let plan = plan_chunking(&result, &config).expect("plan");
    assert_eq!(plan.input, "Page one text\n\nPage two text");
    assert_eq!(plan.heading_source.as_deref(), Some("# Page one\n\nPage one text"));
    let b = plan.page_boundaries.expect("boundaries");
    assert_eq!(b.len(), 2);
    assert_eq!((b[1].byte_start, b[1].byte_end), (15, 28));
}

#[test]
fn chunk_plan_absent_without_chunking_config() {
    let config = ExtractionConfig::default();
    let result = make_result("x", None);
    assert!(plan_chunking(&result, &config).is_none());
}

fn code_chunk(content: &str, start: usize, end: usize, path: &[&str]) -> CodeChunk {
    CodeChunk {
        content: content.to_string(),
        start_byte: start,
        end_byte: end,
        context_path: path.iter().map(|p| p.to_string()).collect(),
    }
}

#[test]
fn code_chunks_become_code_block_chunks_with_scope_headings() {
    let mut r = make_result("fn a() {}\nimpl B { fn c() {} }", None);
    r.code_chunks = Some(vec![
        code_chunk("fn a() {}", 0, 9, &[]),
        code_chunk("fn c() {}", 19, 28, &["B", "c"]),
    ]);
    let chunks = try_code_chunks(&r).expect("code chunks");
    assert_eq!(chunks.len(), 2);
    assert_eq!(chunks[0].content, "fn a() {}");
    assert_eq!(chunks[0].chunk_type, ChunkType::CodeBlock);
    assert_eq!(chunks[0].metadata.byte_start, 0);
    assert_eq!(chunks[0].metadata.byte_end, 9);
    assert_eq!(chunks[0].metadata.chunk_index, 0);
    assert_eq!(chunks[0].metadata.total_chunks, 2);
    assert!(chunks[0].metadata.heading_context.is_none());
    assert!(chunks[0].metadata.token_count.is_none());
    assert!(chunks[0].metadata.first_page.is_none());
    let h = chunks[1].metadata.heading_context.as_ref().expect("headings");
    assert_eq!(h.headings.len(), 2);
    assert_eq!(h.headings[0].level, 2);
    assert_eq!(h.headings[0].text, "B");
    assert_eq!(h.headings[1].level, 3);
    assert_eq!(h.headings[1].text, "c");
    assert_eq!(chunks[1].metadata.chunk_index, 1);
    assert_eq!(chunks[1].metadata.byte_start, 19);
}

#[test]
fn deep_code_scopes_cap_heading_level_at_six() {
    let names: Vec<String> = (0..260).map(|i| format!("s{i}")).collect();
    let path: Vec<&str> = names.iter().map(|s| s.as_str()).collect();
    let mut r = make_result("x", None);
    r.code_chunks = Some(vec![code_chunk("x", 0, 1, &path)]);
    let chunks = try_code_chunks(&r).expect("code chunks");
    let h = &chunks[0].metadata.heading_context.as_ref().expect("headings").headings;
    let levels: Vec<u8> = h.iter().map(|l| l.level).collect();
    assert_eq!(&levels[0..6], &[2, 3, 4, 5, 6, 6]);
    assert_eq!(levels[255], 6);
    assert_eq!(levels[256], 2);
    assert_eq!(levels[257], 3);
}

#[test]
fn no_or_empty_code_chunks_give_none() {
    let mut r = make_result("text", None);
    assert!(try_code_chunks(&r).is_none());
    r.code_chunks = Some(Vec::new());
    assert!(try_code_chunks(&r).is_none());
}

#[test]
fn recomputed_boundaries_are_ordered_and_on_char_boundaries() {
    let content = "Première page — été.\n\nDeuxième page ñ.\n\nTroisième.";
    let pages = vec![
        make_page(1, "Première page — été."),
        make_page(2, "   "),
        make_page(3, "Deuxième page ñ."),
        make_page(4, "Troisième."),
    ];
    let b = recompute_boundaries_from_pages(content, &pages);
    assert_eq!(b.len(), 4);
    for w in b.windows(2) {
        assert!(w[0].byte_end <= w[1].byte_start);
    }
    for x in &b {
        assert!(x.byte_start <= x.byte_end && x.byte_end <= content.len());
        assert!(content.is_char_boundary(x.byte_start));
        assert!(content.is_char_boundary(x.byte_end));
    }
    assert_eq!(&content[b[0].byte_start..b[0].byte_end], "Première page — été.");
    assert_eq!(b[1].byte_start, b[0].byte_end);
    assert_eq!(&content[b[2].byte_start..b[2].byte_end], "Deuxième page ñ.");
}

#[test]
fn language_detection_outcome_sets_languages_or_warns() {
    let mut r = make_result("Bonjour", None);
    record_language_detection(&mut r, Ok(Some(vec!["fra".to_string(), "eng".to_string()])));
    assert_eq!(r.detected_languages, Some(vec!["fra".to_string(), "eng".to_string()]));
    assert!(r.processing_warnings.is_empty());
    assert_eq!(token_reduction_language_hint(&r), Some("fra"));
    record_language_detection(&mut r, Err("model missing".to_string()));
    assert_eq!(r.processing_warnings.len(), 1);
    assert_eq!(r.processing_warnings[0].source, "language_detection");
    assert_eq!(r.processing_warnings[0].message, "model missing");
    assert_eq!(r.detected_languages.as_ref().map(|d| d.len()), Some(2));
    record_language_detection(&mut r, Ok(None));
    assert!(r.detected_languages.is_none());
    assert_eq!(token_reduction_language_hint(&r), None);
}

#[test]
fn token_reduction_outcome_replaces_content_or_warns() {
    let mut r = make_result("the the quick fox", None);
    record_token_reduction(&mut r, Ok("quick fox".to_string()));
    assert_eq!(r.content, "quick fox");
    assert!(r.processing_warnings.is_empty());
    record_token_reduction(&mut r, Err("bad level".to_string()));
    assert_eq!(r.content, "quick fox");
    assert_eq!(r.processing_warnings[0].source, "token_reduction");
    assert_eq!(r.processing_warnings[0].message, "bad level");
}

#[test]
fn chunker_outcome_stores_chunks_or_warns() {
    let mut r = make_result("abc", None);
    record_chunks(&mut r, Err("too small".to_string()));
    assert!(r.chunks.is_none());
    assert_eq!(r.processing_warnings[0].source, "chunking");
    assert_eq!(r.processing_warnings[0].message, "too small");
    let mut with_code = make_result("fn a() {}", None);
    with_code.code_chunks = Some(vec![code_chunk("fn a() {}", 0, 9, &[])]);
    let chunks = try_code_chunks(&with_code).expect("code chunks");
    record_chunks(&mut r, Ok(chunks));
    assert_eq!(r.chunks.as_ref().map(|c| c.len()), Some(1));
    assert_eq!(r.processing_warnings.len(), 1);
}

#[test]
fn markdown_chunk_plan_locates_pages_in_formatted_content() {
    let mut config = ExtractionConfig::default();
    config.output_format = OutputFormat::Markdown;
    config.chunking = Some(ChunkingConfig { max_characters: 2000, overlap: 0, trim: true, embedding: None });
    let formatted = "# Page one\n\nPage one text\n\n# Page two\n\nPage two text";
    let mut result = make_result("Page one text\n\nPage two text", Some(formatted));
    result.pages = Some(vec![make_page(1, "Page one text"), make_page(2, "Page two text")]);
    let plan = plan_chunking(&result, &config).expect("plan");
    assert_eq!(plan.input, formatted);
    let b = plan.page_boundaries.expect("boundaries");
    assert_eq!(b.len(), 2);
    assert_eq!(&formatted[b[0].byte_start..b[0].byte_end], "Page one text");
    assert_eq!(&formatted[b[1].byte_start..b[1].byte_end], "Page two text");
    assert_eq!((b[0].page_number, b[1].page_number), (1, 2));
}

fn markdown_chunking_config() -> ExtractionConfig {
    let mut config = ExtractionConfig::default();
    config.output_format = OutputFormat::Markdown;
    config.chunking = Some(ChunkingConfig { max_characters: 2000, overlap: 0, trim: true, embedding: None });
    config
}

/// A stand-in chunker for the plan: one chunk per located page, or the
/// whole input when no page is located.
fn run_chunker(plan: &ChunkingPlan) -> Vec<Chunk> {
    let make = |start: usize, end: usize, page: Option<usize>, i: usize, total: usize| Chunk {
        content: plan.input[start..end].to_string(),
        chunk_type: ChunkType::Paragraph,
        metadata: ChunkMetadata {
            byte_start: start,
            byte_end: end,
            token_count: None,
            chunk_index: i,
            total_chunks: total,
            first_page: page,
            last_page: page,
            heading_context: None,
        },
    };
    match &plan.page_boundaries {
        Some(bs) => bs
            .iter()
            .enumerate()
            .map(|(i, b)| make(b.byte_start, b.byte_end, Some(b.page_number), i, bs.len()))
            .collect(),
        None => vec![make(0, plan.input.len(), None, 0, 1)],
    }
}

#[test]
fn chunks_content_is_markdown_when_output_format_is_markdown() {
    let mut result = make_result(
        "SH-001 Luca Bianchi Common Germany 3500000",
        Some("| SH-001 | Luca Bianchi | Common | Germany | 3,500,000 |"),
    );
    let config = markdown_chunking_config();
    let plan = plan_chunking(&result, &config).expect("plan");
    let outcome = Ok(run_chunker(&plan));
    execute_chunking(&mut result, &config, Some(outcome), None).unwrap();

    let chunks = result.chunks.expect("chunks must be populated");
    assert!(!chunks.is_empty());
    assert!(chunks.iter().any(|chunk| chunk.content.contains('|')));
    assert!(chunks.iter().all(|chunk| !chunk.content.starts_with("SH-001 Luca")));
    assert!(result.formatted_content.is_some());
}

#[test]
fn markdown_chunks_preserve_page_metadata_when_formatted_pages_match() {
    let mut result = make_result(
        "Page one text\n\nPage two text",
        Some("# Page one\n\nPage one text\n\n# Page two\n\nPage two text"),
    );
    result.pages = Some(vec![make_page(1, "Page one text"), make_page(2, "Page two text")]);
    let config = markdown_chunking_config();
    let plan = plan_chunking(&result, &config).expect("plan");
    let outcome = Ok(run_chunker(&plan));
    execute_chunking(&mut result, &config, Some(outcome), None).unwrap();

    let chunks = result.chunks.expect("chunks must be populated");
    assert!(!chunks.is_empty());
    assert!(chunks.iter().any(|chunk| chunk.metadata.first_page.is_some()));
    assert!(chunks.iter().any(|chunk| chunk.metadata.last_page.is_some()));
}

#[test]
fn chunker_failure_becomes_a_chunking_warning() {
    let mut result = make_result("text", None);
    execute_chunking(&mut result, &markdown_chunking_config(), Some(Err("chunk size too small".to_string())), None)
        .unwrap();
    assert!(result.chunks.is_none());
    assert_eq!(result.processing_warnings.len(), 1);
    assert_eq!(result.processing_warnings[0].source, "chunking");
    assert_eq!(result.processing_warnings[0].message, "chunk size too small");
}

#[test]
fn code_chunks_win_over_the_chunker_and_embeddings_are_reported() {
    let mut result = make_result("fn a() {}", None);
    result.code_chunks = Some(vec![code_chunk("fn a() {}", 0, 9, &["a"])]);
    let mut config = markdown_chunking_config();
    config.chunking.as_mut().unwrap().embedding = Some(EmbeddingModelChoice::Preset { name: "fast".to_string() });
    execute_chunking(&mut result, &config, Some(Err("not used".to_string())), None).unwrap();
    let chunks = result.chunks.as_ref().expect("code chunks");
    assert_eq!(chunks.len(), 1);
    assert_eq!(chunks[0].chunk_type, ChunkType::CodeBlock);
    assert_eq!(result.processing_warnings.len(), 1);
    assert_eq!(result.processing_warnings[0].source, "embedding");
    assert_eq!(result.processing_warnings[0].message, "Embeddings feature not enabled");

    let mut plain = make_result("x", None);
    execute_chunking(&mut plain, &config, Some(Ok(Vec::new())), Some(Err("no runtime".to_string()))).unwrap();
    assert_eq!(plain.processing_warnings[0].message, "no runtime");
    let mut ok = make_result("x", None);
    execute_chunking(&mut ok, &config, Some(Ok(Vec::new())), Some(Ok(()))).unwrap();
    assert!(ok.processing_warnings.is_empty());
}

#[test]
fn detection_and_reduction_stages_record_their_outcomes() {
    let mut config = ExtractionConfig::default();
    config.language_detection = Some(LanguageDetectionConfig { enabled: true });
    config.token_reduction = Some(TokenReductionConfig { mode: "light".to_string() });
    let mut result = make_result("the quick fox", None);
    execute_language_detection(&mut result, &config, Some(Ok(Some(vec!["eng".to_string()])))).unwrap();
    assert_eq!(result.detected_languages, Some(vec!["eng".to_string()]));
    execute_token_reduction(&mut result, &config, Some(Ok("quick fox".to_string()))).unwrap();
    assert_eq!(result.content, "quick fox");
    execute_token_reduction(&mut result, &config, Some(Err("bad input".to_string()))).unwrap();
    assert_eq!(result.content, "quick fox");
    assert_eq!(result.processing_warnings[0].source, "token_reduction");
    assert_eq!(result.processing_warnings[0].message, "bad input");
    execute_language_detection(&mut result, &config, Some(Err("no model".to_string()))).unwrap();
    assert_eq!(result.processing_warnings[1].source, "language_detection");
    assert_eq!(result.detected_languages, Some(vec!["eng".to_string()]));

    config.token_reduction = Some(TokenReductionConfig { mode: "off".to_string() });
    execute_token_reduction(&mut result, &config, Some(Ok("x".to_string()))).unwrap();
    assert_eq!(result.content, "quick fox");
    assert_eq!(result.processing_warnings.len(), 2);
}
