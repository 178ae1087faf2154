use kreuzberg::config::{
    choose_discovered_config, config_format_for_extension, embedding_config_from,
    file_extraction_config_from, parse_extraction_config, validate_extraction_config, ConfigEntry,
    ConfigFormat, ConfigTerm, DiscoveredConfig, ExtractionConfig, NestedConfig, OcrConfig, OutputFormat,
    TermDecode, TermKind,
};
use kreuzberg::error::KreuzbergError;
use kreuzberg::plugins::register_builtin;

fn entry(key: &str, kind: TermKind, description: &str) -> ConfigEntry {
    ConfigEntry { key: key.to_string(), kind, description: description.to_string() }
}

fn parsed_nested() -> NestedConfig {
    let mut d = ExtractionConfig::default();
    d.output_format = OutputFormat::Markdown;
    d.ocr = Some(OcrConfig { backend: "tesseract".to_string(), language: "eng".to_string() });
    d.use_cache = false;
    NestedConfig::Parsed(d)
}

#[test]
fn extension_selects_format_case_insensitively() {
    assert_eq!(config_format_for_extension("toml"), Ok(ConfigFormat::Toml));
    assert_eq!(config_format_for_extension("YAML"), Ok(ConfigFormat::Yaml));
    assert_eq!(config_format_for_extension("yml"), Ok(ConfigFormat::Yaml));
    assert_eq!(config_format_for_extension("Json"), Ok(ConfigFormat::Json));
}

#[test]
fn unknown_extension_is_a_validation_error() {
    assert_eq!(
        config_format_for_extension("ini"),
        Err(KreuzbergError::Validation(
            "Unsupported config file format: .ini. Supported formats: .toml, .yaml, .json".to_string()
        ))
    );
}

#[test]
fn project_config_takes_precedence_over_global() {
    assert_eq!(choose_discovered_config(&[false, true, true], &[true]), DiscoveredConfig::Project(1));
    assert_eq!(choose_discovered_config(&[true], &[true, true]), DiscoveredConfig::Project(0));
}

#[test]
fn falls_back_to_global_when_no_project_config() {
    assert_eq!(choose_discovered_config(&[false, false], &[true]), DiscoveredConfig::Global(0));
    assert_eq!(choose_discovered_config(&[false], &[false, false, true]), DiscoveredConfig::Global(2));
}

#[test]
fn returns_none_when_no_config_anywhere() {
    assert_eq!(choose_discovered_config(&[false, false, false], &[false]), DiscoveredConfig::NotFound);
    assert_eq!(choose_discovered_config(&[], &[]), DiscoveredConfig::NotFound);
}

#[test]
fn nil_options_give_defaults() {
    let c = parse_extraction_config(&ConfigTerm::Nil, NestedConfig::JsonFailed("unused".to_string())).unwrap();
    assert!(c.use_cache && c.enable_quality_processing && !c.force_ocr);
    assert_eq!(c.output_format, OutputFormat::Plain);
    assert!(c.ocr.is_none());
}

#[test]
fn non_map_options_are_refused() {
    let r = parse_extraction_config(&ConfigTerm::Other, parsed_nested());
    assert_eq!(r.err().unwrap(), "Invalid configuration: options must be a map or nil");
}

#[test]
fn booleans_and_nested_sections_are_merged() {
    let entries = vec![
        entry("force_ocr", TermKind::Bool(true), "boolean"),
        entry("use_cache", TermKind::Bool(true), "boolean"),
        entry("ocr", TermKind::Mapping, "map"),
        entry("output_format", TermKind::Str, "string"),
        entry("unknown_option", TermKind::Other, "tuple"),
        entry("max_concurrent_extractions", TermKind::Nil, "atom"),
    ];
    let c = parse_extraction_config(&ConfigTerm::Mapping(entries), parsed_nested()).unwrap();
    assert!(c.force_ocr);
    assert!(c.use_cache);
    assert_eq!(c.output_format, OutputFormat::Markdown);
    assert_eq!(c.ocr.unwrap().backend, "tesseract");
}

#[test]
fn wrong_kinds_are_reported_for_the_first_bad_option() {
    let entries = vec![
        entry("use_cache", TermKind::Bool(false), "boolean"),
        entry("force_ocr", TermKind::Str, "string"),
        entry("ocr", TermKind::Other, "integer"),
    ];
    let r = parse_extraction_config(&ConfigTerm::Mapping(entries), parsed_nested());
    assert_eq!(r.err().unwrap(), "Invalid configuration: field 'force_ocr' must be a boolean, got: string");
    let cases = [
        ("chunking", TermKind::Str, "string", "Invalid configuration: field 'chunking' must be a map or nil, got: string"),
        ("result_format", TermKind::Nil, "atom", "Invalid configuration: field 'result_format' must be a string, got: atom"),
        (
            "max_concurrent_extractions",
            TermKind::Other,
            "negative integer",
            "Invalid configuration: field 'max_concurrent_extractions' must be a positive integer or nil, got: negative integer",
        ),
    ];
    for (key, kind, desc, msg) in cases {
        let r = parse_extraction_config(&ConfigTerm::Mapping(vec![entry(key, kind, desc)]), parsed_nested());
        assert_eq!(r.err().unwrap(), msg);
    }
}

#[test]
fn nested_failures_are_reported() {
    let r = parse_extraction_config(&ConfigTerm::Mapping(vec![]), NestedConfig::JsonFailed("bad term".to_string()));
    assert_eq!(r.err().unwrap(), "Invalid configuration: failed to parse options - bad term");
    let r = parse_extraction_config(
        &ConfigTerm::Mapping(vec![]),
        NestedConfig::DeserializeFailed("missing field".to_string()),
    );
    assert_eq!(r.err().unwrap(), "Invalid configuration: failed to deserialize nested configs - missing field");
}

#[test]
fn validation_and_registration_succeed() {
    assert!(validate_extraction_config(&ExtractionConfig::default()).is_ok());
    assert!(register_builtin().is_ok());
}

#[test]
fn forcing_and_disabling_ocr_together_is_refused() {
    let mut config = ExtractionConfig::default();
    config.force_ocr = true;
    assert!(validate_extraction_config(&config).is_ok());
    config.disable_ocr = true;
    assert_eq!(
        validate_extraction_config(&config),
        Err("Invalid configuration: force_ocr and disable_ocr cannot both be enabled".to_string())
    );
    let options = ConfigTerm::Mapping(vec![
        entry("force_ocr", TermKind::Bool(true), "boolean"),
        entry("disable_ocr", TermKind::Bool(true), "boolean"),
    ]);
    assert_eq!(
        parse_extraction_config(&options, parsed_nested()).err(),
        Some("Invalid configuration: force_ocr and disable_ocr cannot both be enabled".to_string())
    );
}

#[test]
fn file_extraction_config_nil_means_none_and_errors_are_framed() {
    assert_eq!(file_extraction_config_from::<u32>(TermDecode::Nil), Ok(None));
    assert_eq!(file_extraction_config_from(TermDecode::Decoded(7u32)), Ok(Some(7)));
    assert_eq!(
        file_extraction_config_from::<u32>(TermDecode::JsonFailed("bad term".to_string())),
        Err("Invalid file extraction config: failed to parse - bad term".to_string())
    );
    assert_eq!(
        file_extraction_config_from::<u32>(TermDecode::DeserializeFailed("missing field".to_string())),
        Err("Invalid file extraction config: missing field".to_string())
    );
}

#[test]
fn embedding_config_nil_means_default_and_errors_are_framed() {
    assert_eq!(embedding_config_from(TermDecode::Nil, 3u32), Ok(3));
    assert_eq!(embedding_config_from(TermDecode::Decoded(9u32), 3), Ok(9));
    assert_eq!(
        embedding_config_from(TermDecode::JsonFailed("x".to_string()), 3u32),
        Err("Invalid embedding config: failed to parse - x".to_string())
    );
    assert_eq!(
        embedding_config_from(TermDecode::DeserializeFailed("y".to_string()), 3u32),
        Err("Invalid embedding config: y".to_string())
    );
}
