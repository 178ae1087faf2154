use kreuzberg::embed::{plan_embedding, EmbeddingModelChoice};
use kreuzberg::image_ocr::{
    is_ocr_decodable_image, ocr_decodability, probe_images, record_ocr_outcome, select_images_for_ocr,
};
use kreuzberg::types::{ExtractedImage, ProcessingWarning};

const PNG_1X1: [u8; 67] = [
    0x89, 0x50, 0x4E, 0x47, 0x0D, 0x0A, 0x1A, 0x0A, 0x00, 0x00, 0x00, 0x0D, 0x49, 0x48, 0x44, 0x52, 0x00, 0x00,
    0x00, 0x01, 0x00, 0x00, 0x00, 0x01, 0x08, 0x06, 0x00, 0x00, 0x00, 0x1F, 0x15, 0xC4, 0x89, 0x00, 0x00, 0x00,
    0x0A, 0x49, 0x44, 0x41, 0x54, 0x78, 0x9C, 0x63, 0x00, 0x01, 0x00, 0x00, 0x05, 0x00, 0x01, 0x0D, 0x0A, 0x2D,
    0xB4, 0x00, 0x00, 0x00, 0x00, 0x49, 0x45, 0x4E, 0x44, 0xAE, 0x42, 0x60, 0x82,
];

fn image_with(format: &str, data: &[u8]) -> ExtractedImage {
    ExtractedImage {
        data: data.to_vec(),
        format: format.to_string(),
        image_index: 0,
        page_number: Some(1),
        ocr_result: None,
    }
}

fn texts(ts: &[&str]) -> Vec<String> {
    ts.iter().map(|s| s.to_string()).collect()
}

#[test]
fn raw_pdf_image_stream_is_skipped_before_ocr() {
    let image = image_with("raw", b"not a raster");
    let reason = is_ocr_decodable_image(&image).expect_err("raw streams must be rejected");
    assert!(reason.contains("unsupported image format"));
}

#[test]
fn empty_image_is_skipped_before_ocr() {
    let image = image_with("png", &[]);
    let reason = is_ocr_decodable_image(&image).expect_err("empty images must be rejected");
    assert!(reason.contains("empty"));
}

#[test]
fn format_check_is_case_insensitive() {
    let image = image_with("JBIG2", b"xx");
    assert_eq!(is_ocr_decodable_image(&image).unwrap_err(), "unsupported image format for OCR: jbig2");
}

#[test]
fn decodable_png_passes() {
    assert_eq!(is_ocr_decodable_image(&image_with("png", &PNG_1X1)), Ok(()));
}

#[test]
fn undecodable_bytes_are_skipped() {
    let reason = is_ocr_decodable_image(&image_with("png", b"not a raster")).unwrap_err();
    assert_eq!(reason, "image dimensions could not be decoded: The image format could not be determined");
}

#[test]
fn selection_skips_bad_images_with_warnings() {
    let images = vec![image_with("png", &PNG_1X1), image_with("raw", b"x"), image_with("png", &PNG_1X1)];
    let mut warnings: Vec<ProcessingWarning> = Vec::new();
    let probes = probe_images(&images);
    assert!(probes[0].is_some() && probes[1].is_none() && probes[2].is_some());
    let sel = select_images_for_ocr(&images, &probes, true, &mut warnings);
    assert_eq!(sel, vec![0, 2]);
    assert_eq!(warnings.len(), 1);
    assert_eq!(warnings[0].source, "image_ocr");
    assert_eq!(warnings[0].message, "Image 1 skipped before OCR: unsupported image format for OCR: raw");
}

#[test]
fn selection_is_empty_without_ocr_config() {
    let images = vec![image_with("png", &PNG_1X1)];
    let mut warnings: Vec<ProcessingWarning> = Vec::new();
    let probes = probe_images(&images);
    assert!(select_images_for_ocr(&images, &probes, false, &mut warnings).is_empty());
    assert!(warnings.is_empty());
}

#[test]
fn ocr_outcomes_are_recorded() {
    let mut image = image_with("png", &PNG_1X1);
    let mut warnings: Vec<ProcessingWarning> = Vec::new();
    record_ocr_outcome(&mut image, 4, Ok(("seen".to_string(), "text/plain".to_string())), &mut warnings);
    let r = image.ocr_result.as_ref().unwrap();
    assert_eq!(r.content, "seen");
    assert_eq!(r.mime_type, "text/plain");
    assert!(warnings.is_empty());
    record_ocr_outcome(&mut image, 4, Err("engine crashed".to_string()), &mut warnings);
    assert!(image.ocr_result.is_none());
    assert_eq!(warnings[0].message, "Image 4 OCR failed: engine crashed");
}

#[test]
fn embedding_requests_are_checked() {
    assert_eq!(
        plan_embedding(&[], "balanced", "local", None).err().unwrap(),
        "No texts provided for embedding. Provide --text or pipe text via stdin."
    );
    assert_eq!(
        plan_embedding(&texts(&["a", "", ""]), "balanced", "local", None).err().unwrap(),
        "Text at position 2 is empty. All texts must be non-empty."
    );
    assert_eq!(
        plan_embedding(&texts(&["a"]), "balanced", "llm", None).err().unwrap(),
        "--model is required when --provider is 'llm' (e.g., --model openai/text-embedding-3-small)"
    );
    assert_eq!(
        plan_embedding(&texts(&["a"]), "balanced", "cloud", None).err().unwrap(),
        "Unknown embedding provider 'cloud'. Valid providers: 'local' (default, ONNX) or 'llm' (liter-llm)."
    );
    match plan_embedding(&texts(&["a"]), "balanced", "llm", Some("openai/x")).unwrap() {
        EmbeddingModelChoice::Llm { model } => assert_eq!(model, "openai/x"),
        _ => panic!("expected an LLM model"),
    }
    for provider in ["local", ""] {
        match plan_embedding(&texts(&["a", "b"]), "fast", provider, None).unwrap() {
            EmbeddingModelChoice::Preset { name } => assert_eq!(name, "fast"),
            _ => panic!("expected a preset"),
        }
    }
}

#[test]
fn selection_follows_the_given_probe_outcomes() {
    let images = vec![image_with("png", &PNG_1X1), image_with("png", &PNG_1X1)];
    let probes = vec![Some(Ok((1, 1))), Some(Err((true, "no hook".to_string())))];
    let mut warnings: Vec<ProcessingWarning> = Vec::new();
    let sel = select_images_for_ocr(&images, &probes, true, &mut warnings);
    assert_eq!(sel, vec![0]);
    assert_eq!(warnings[0].message, "Image 1 skipped before OCR: image format probe failed: no hook");
    assert_eq!(
        ocr_decodability(&images[0], &Err((false, "bad header".to_string()))),
        Err("image dimensions could not be decoded: bad header".to_string())
    );
    assert_eq!(ocr_decodability(&image_with("png", b""), &Ok((1, 1))), Err("image data is empty".to_string()));
}
