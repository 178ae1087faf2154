//! Extraction configuration: the options the pipeline reads, the choice of
//! file format by extension, where configuration is discovered, and the
//! validation of configuration maps handed in by language bindings.

use vstd::prelude::*;
use vstd::string::*;
use crate::embed::EmbeddingModelChoice;
use crate::error::KreuzbergError;
use crate::image_ocr::ascii_lowercase;
use crate::text::{chars_of, eq_chars, push_all, push_str_chars, string_from_chars};

verus! {

/// Output format of extracted content.
#[derive(Clone, Copy, Debug, PartialEq, Eq, Structural)]
pub enum OutputFormat {
    Plain,
    Markdown,
    Djot,
    Html,
}

/// OCR backend settings.
pub struct OcrConfig {
    /// Backend name (`"tesseract"`, ...).
    pub backend: String,
    /// Language code(s) for recognition.
    pub language: String,
}

/// Text chunking settings.
pub struct ChunkingConfig {
    /// Largest chunk, in characters.
    pub max_characters: usize,
    /// Characters shared by consecutive chunks.
    pub overlap: usize,
    /// Whether chunks are trimmed.
    pub trim: bool,
    /// The model that embeds the chunks, when embeddings are wanted.
    pub embedding: Option<EmbeddingModelChoice>,
}

/// Language detection settings.
pub struct LanguageDetectionConfig {
    /// Whether detection runs.
    pub enabled: bool,
}

/// Token reduction settings.
pub struct TokenReductionConfig {
    /// Reduction mode (`"off"`, `"light"`, `"moderate"`, ...).
    pub mode: String,
}

/// The extraction options the pipeline reads.
pub struct ExtractionConfig {
    pub use_cache: bool,
    pub enable_quality_processing: bool,
    pub force_ocr: bool,
    pub disable_ocr: bool,
    pub include_document_structure: bool,
    pub output_format: OutputFormat,
    pub max_concurrent_extractions: Option<usize>,
    pub ocr: Option<OcrConfig>,
    pub chunking: Option<ChunkingConfig>,
    pub language_detection: Option<LanguageDetectionConfig>,
    pub token_reduction: Option<TokenReductionConfig>,
}

/// The default configuration: caching and quality processing on, plain
/// output, no optional stage configured.
pub open spec fn is_default_config(c: ExtractionConfig) -> bool {
    &&& c.use_cache
    &&& c.enable_quality_processing
    &&& !c.force_ocr
    &&& !c.disable_ocr
    &&& !c.include_document_structure
    &&& c.output_format == OutputFormat::Plain
    &&& c.max_concurrent_extractions is None
    &&& c.ocr is None
    &&& c.chunking is None
    &&& c.language_detection is None
    &&& c.token_reduction is None
}

impl Default for ExtractionConfig {
    fn default() -> (r: Self)
        ensures
            is_default_config(r),
    {
        ExtractionConfig {
            use_cache: true,
            enable_quality_processing: true,
            force_ocr: false,
            disable_ocr: false,
            include_document_structure: false,
            output_format: OutputFormat::Plain,
            max_concurrent_extractions: None,
            ocr: None,
            chunking: None,
            language_detection: None,
            token_reduction: None,
        }
    }
}

/// Configuration file formats.
#[derive(Clone, Copy, Debug, PartialEq, Eq, Structural)]
pub enum ConfigFormat {
    Toml,
    Yaml,
    Json,
}

/// What `str::to_lowercase` gives for `s` (Unicode lowercase mapping; its
/// tables are std's).
pub uninterp spec fn unicode_lowercase(s: Seq<char>) -> Seq<char>;

/// Whether every character of `s` is ASCII.
pub open spec fn is_ascii_text(s: Seq<char>) -> bool {
    forall|i: int| 0 <= i < s.len() ==> (#[trigger] s[i] as u32) < 128
}

/// Calls `str::to_lowercase`; the contract names its result and states it
/// for ASCII text, whose lowercase mapping is the ASCII one.
#[verifier::external_body]
fn to_lowercase(s: &str) -> (r: String)
    ensures
        r@ == unicode_lowercase(s@),
        is_ascii_text(s@) ==> r@ == ascii_lowercase(s@),
{
    s.to_lowercase()
}

/// The message for an extension that names no supported format.
pub open spec fn unsupported_format_message(ext: Seq<char>) -> Seq<char> {
    "Unsupported config file format: ."@ + ext + ". Supported formats: .toml, .yaml, .json"@
}

/// The format a configuration file extension selects, compared after
/// lowercasing: `toml`, `yaml` or `yml`, `json`.
pub open spec fn format_for_extension(ext: Seq<char>) -> Option<ConfigFormat> {
    let l = unicode_lowercase(ext);
    if l == "toml"@ {
        Some(ConfigFormat::Toml)
    } else if l == "yaml"@ || l == "yml"@ {
        Some(ConfigFormat::Yaml)
    } else if l == "json"@ {
        Some(ConfigFormat::Json)
    } else {
        None
    }
}

/// Choose the configuration file format from a file extension.
pub fn config_format_for_extension(extension: &str) -> (r: Result<ConfigFormat, KreuzbergError>)
    ensures
        is_ascii_text(extension@) ==> unicode_lowercase(extension@) == ascii_lowercase(extension@),
        match format_for_extension(extension@) {
            Some(f) => r == Ok::<ConfigFormat, KreuzbergError>(f),
            None => r matches Err(KreuzbergError::Validation(m)) && m@ == unsupported_format_message(
                extension@,
            ),
        },
{
    let lower = to_lowercase(extension);
    let l = chars_of(lower.as_str());
    let toml = chars_of("toml");
    let yaml = chars_of("yaml");
    let yml = chars_of("yml");
    let json = chars_of("json");
    if eq_chars(l.as_slice(), toml.as_slice()) {
        Ok(ConfigFormat::Toml)
    } else if eq_chars(l.as_slice(), yaml.as_slice()) || eq_chars(l.as_slice(), yml.as_slice()) {
        Ok(ConfigFormat::Yaml)
    } else if eq_chars(l.as_slice(), json.as_slice()) {
        Ok(ConfigFormat::Json)
    } else {
        let mut m: Vec<char> = Vec::new();
        push_str_chars(&mut m, "Unsupported config file format: .");
        push_str_chars(&mut m, extension);
        push_str_chars(&mut m, ". Supported formats: .toml, .yaml, .json");
        Err(KreuzbergError::Validation(string_from_chars(m.as_slice())))
    }
}

/// Where configuration discovery found a file.
#[derive(Clone, Copy, Debug, PartialEq, Eq, Structural)]
pub enum DiscoveredConfig {
    /// The `n`-th project candidate: the configuration files looked for in
    /// each directory walking up from the start, nearest directory first.
    Project(usize),
    /// The `n`-th user-level or system-wide candidate.
    Global(usize),
    /// No configuration file.
    NotFound,
}

/// The first position holding `true`, if any.
pub open spec fn first_hit(hits: Seq<bool>) -> Option<int> {
    if exists|i: int| 0 <= i < hits.len() && hits[i] {
        Some(
            choose|i: int|
                0 <= i < hits.len() && hits[i] && forall|j: int| 0 <= j < i ==> !hits[j],
        )
    } else {
        None
    }
}

/// Discovery order: the first project candidate that exists wins (the
/// nearest directory walking up from the start, and within a directory the
/// order of the formats); only when none does is the first existing
/// user-level or system-wide candidate used.
pub open spec fn discovered(project_hits: Seq<bool>, global_hits: Seq<bool>) -> DiscoveredConfig {
    match first_hit(project_hits) {
        Some(i) => DiscoveredConfig::Project(i as usize),
        None => match first_hit(global_hits) {
            Some(j) => DiscoveredConfig::Global(j as usize),
            None => DiscoveredConfig::NotFound,
        },
    }
}

fn first_true(hits: &[bool]) -> (r: Option<usize>)
    ensures
        match r {
            Some(i) => first_hit(hits@) == Some(i as int) && i < hits@.len() && hits@[i as int]
                && forall|j: int| 0 <= j < i ==> !hits@[j],
            None => first_hit(hits@) is None,
        },
{
    let n = hits.len();
    for i in 0..n
        invariant
            n == hits@.len(),
            forall|j: int| 0 <= j < i ==> !hits@[j],
    {
        if hits[i] {
            let ghost w = choose|k: int|
                0 <= k < hits@.len() && hits@[k] && forall|j: int| 0 <= j < k ==> !hits@[j];
            assert(0 <= i < hits@.len() && hits@[i as int] && forall|j: int|
                0 <= j < i ==> !hits@[j]);
            proof {
                if w != i {
                    if w < i {
                        assert(!hits@[w]);
                    } else {
                        assert(!hits@[i as int]);
                    }
                }
            }
            return Some(i);
        }
    }
    None
}

/// Pick the configuration file to load: `project_hits[i]` says whether the
/// `i`-th project candidate exists, `global_hits[j]` whether the `j`-th
/// user-level or system-wide one does.
pub fn choose_discovered_config(project_hits: &[bool], global_hits: &[bool]) -> (r:
    DiscoveredConfig)
    ensures
        r == discovered(project_hits@, global_hits@),
        r matches DiscoveredConfig::Project(i) ==> i < project_hits@.len() && project_hits@[i as int]
            && forall|j: int| 0 <= j < i ==> !project_hits@[j],
        r matches DiscoveredConfig::Global(i) ==> i < global_hits@.len() && global_hits@[i as int]
            && (forall|j: int| 0 <= j < i ==> !global_hits@[j]) && (forall|k: int|
            0 <= k < project_hits@.len() ==> !project_hits@[k]),
{
    match first_true(project_hits) {
        Some(i) => DiscoveredConfig::Project(i),
        None => match first_true(global_hits) {
            Some(j) => DiscoveredConfig::Global(j),
            None => DiscoveredConfig::NotFound,
        },
    }
}

/// The kind of value a configuration option holds, as the language binding
/// decoded it.
#[derive(Clone, Copy, Debug, PartialEq, Eq, Structural)]
pub enum TermKind {
    /// The `nil` atom.
    Nil,
    /// A boolean (`true` / `false` atom).
    Bool(bool),
    /// A map.
    Mapping,
    /// A string.
    Str,
    /// An integer that fits in `u64`.
    UnsignedInt,
    /// Anything else.
    Other,
}

/// One option of a configuration map: its key, the kind of its value, and
/// the binding's description of that value's type (used in messages).
pub struct ConfigEntry {
    pub key: String,
    pub kind: TermKind,
    pub description: String,
}

/// A configuration term handed in by a binding.
pub enum ConfigTerm {
    /// `nil`: use the defaults.
    Nil,
    /// A map of options, in the order the binding walked it.
    Mapping(Vec<ConfigEntry>),
    /// Anything else.
    Other,
}

/// What deserialising the whole option map produced.
pub enum NestedConfig {
    /// The options deserialised into a configuration.
    Parsed(ExtractionConfig),
    /// The term could not be converted to JSON.
    JsonFailed(String),
    /// The JSON did not deserialise.
    DeserializeFailed(String),
}

/// Options that must hold booleans.
pub open spec fn is_boolean_field(k: Seq<char>) -> bool {
    k == "use_cache"@ || k == "enable_quality_processing"@ || k == "force_ocr"@ || k
        == "disable_ocr"@ || k == "include_document_structure"@
}

/// Options that must hold maps (or `nil`).
pub open spec fn is_nested_field(k: Seq<char>) -> bool {
    ||| k == "ocr"@
    ||| k == "chunking"@
    ||| k == "images"@
    ||| k == "pages"@
    ||| k == "language_detection"@
    ||| k == "postprocessor"@
    ||| k == "token_reduction"@
    ||| k == "keywords"@
    ||| k == "pdf_options"@
    ||| k == "html_options"@
    ||| k == "html_output"@
    ||| k == "security_limits"@
    ||| k == "content_filter"@
}

/// Options that must hold strings.
pub open spec fn is_string_field(k: Seq<char>) -> bool {
    k == "result_format"@ || k == "output_format"@
}

/// Options that must hold non-negative integers (or `nil`).
pub open spec fn is_integer_field(k: Seq<char>) -> bool {
    k == "max_concurrent_extractions"@
}

/// The message for an option whose value has the wrong kind.
pub open spec fn field_message(key: Seq<char>, expected: Seq<char>, got: Seq<char>) -> Seq<char> {
    "Invalid configuration: field '"@ + key + "' must be "@ + expected + ", got: "@ + got
}

/// The complaint about one option, if its value has the wrong kind;
/// options this library does not know are accepted.
pub open spec fn entry_error(e: ConfigEntry) -> Option<Seq<char>> {
    let k = e.key@;
    if is_boolean_field(k) {
        if e.kind is Bool {
            None
        } else {
            Some(field_message(k, "a boolean"@, e.description@))
        }
    } else if is_nested_field(k) {
        if e.kind is Nil || e.kind is Mapping {
            None
        } else {
            Some(field_message(k, "a map or nil"@, e.description@))
        }
    } else if is_string_field(k) {
        if e.kind is Str {
            None
        } else {
            Some(field_message(k, "a string"@, e.description@))
        }
    } else if is_integer_field(k) {
        if e.kind is Nil || e.kind is UnsignedInt {
            None
        } else {
            Some(field_message(k, "a positive integer or nil"@, e.description@))
        }
    } else {
        None
    }
}

/// The complaint about the first option (in the given order) whose value
/// has the wrong kind.
pub open spec fn first_entry_error(es: Seq<ConfigEntry>) -> Option<Seq<char>>
    decreases es.len(),
{
    if es.len() == 0 {
        None
    } else {
        match entry_error(es[0]) {
            Some(m) => Some(m),
            None => first_entry_error(es.drop_first()),
        }
    }
}

/// Options this library checks.
pub open spec fn is_known_option(k: Seq<char>) -> bool {
    is_boolean_field(k) || is_nested_field(k) || is_string_field(k) || is_integer_field(k)
}

/// Options this library does not know never make a configuration map
/// fail: only known options are checked.
pub proof fn lemma_unknown_options_never_fail(es: Seq<ConfigEntry>)
    ensures
        first_entry_error(es) is Some ==> exists|k: int|
            0 <= k < es.len() && is_known_option(#[trigger] es[k].key@),
    decreases es.len(),
{
    if es.len() > 0 {
        lemma_unknown_options_never_fail(es.drop_first());
        if entry_error(es[0]) is None && first_entry_error(es.drop_first()) is Some {
            let k = choose|k: int|
                0 <= k < es.drop_first().len() && is_known_option(#[trigger] es.drop_first()[k].key@);
            assert(es[k + 1] == es.drop_first()[k]);
        }
    }
}

/// The boolean an option sets, if it is the boolean option `name`.
pub open spec fn bool_setting(e: ConfigEntry, name: Seq<char>) -> Option<bool> {
    if e.key@ == name {
        match e.kind {
            TermKind::Bool(b) => Some(b),
            _ => None,
        }
    } else {
        None
    }
}

/// The value boolean option `name` ends with: the last setting of it, or
/// `default`.
pub open spec fn final_bool(es: Seq<ConfigEntry>, name: Seq<char>, default: bool) -> bool
    decreases es.len(),
{
    if es.len() == 0 {
        default
    } else {
        match bool_setting(es.last(), name) {
            Some(b) => b,
            None => final_bool(es.drop_last(), name, default),
        }
    }
}

/// The configuration made from validated options and the deserialised
/// option map: boolean flags from the options (over the defaults), nested
/// sections, output format and concurrency from the deserialised map.
pub open spec fn merged_config(es: Seq<ConfigEntry>, d: ExtractionConfig) -> ExtractionConfig {
    ExtractionConfig {
        use_cache: final_bool(es, "use_cache"@, true),
        enable_quality_processing: final_bool(es, "enable_quality_processing"@, true),
        force_ocr: final_bool(es, "force_ocr"@, false),
        disable_ocr: final_bool(es, "disable_ocr"@, false),
        include_document_structure: final_bool(es, "include_document_structure"@, false),
        output_format: d.output_format,
        max_concurrent_extractions: d.max_concurrent_extractions,
        ocr: d.ocr,
        chunking: d.chunking,
        language_detection: d.language_detection,
        token_reduction: d.token_reduction,
    }
}

fn key_is(key: &[char], lit: &str) -> (r: bool)
    ensures
        r == (key@ == lit@),
{
    let l = chars_of(lit);
    eq_chars(key, l.as_slice())
}

fn field_error(key: &[char], expected: &str, got: &String) -> (r: String)
    ensures
        r@ == field_message(key@, expected@, got@),
{
    let mut m: Vec<char> = Vec::new();
    push_str_chars(&mut m, "Invalid configuration: field '");
    push_all(&mut m, key);
    push_str_chars(&mut m, "' must be ");
    push_str_chars(&mut m, expected);
    push_str_chars(&mut m, ", got: ");
    push_str_chars(&mut m, got.as_str());
    string_from_chars(m.as_slice())
}

/// Checks one option and applies it when it is a boolean flag.
fn apply_entry(config: &mut ExtractionConfig, e: &ConfigEntry) -> (r: Result<(), String>)
    ensures
        match entry_error(*e) {
            Some(m) => r matches Err(x) && x@ == m,
            None => r is Ok,
        },
        final(config).output_format == old(config).output_format,
        final(config).max_concurrent_extractions == old(config).max_concurrent_extractions,
        final(config).use_cache == (match bool_setting(*e, "use_cache"@) {
            Some(b) => b,
            None => old(config).use_cache,
        }),
        final(config).enable_quality_processing == (match bool_setting(
            *e,
            "enable_quality_processing"@,
        ) {
            Some(b) => b,
            None => old(config).enable_quality_processing,
        }),
        final(config).force_ocr == (match bool_setting(*e, "force_ocr"@) {
            Some(b) => b,
            None => old(config).force_ocr,
        }),
        final(config).disable_ocr == (match bool_setting(*e, "disable_ocr"@) {
            Some(b) => b,
            None => old(config).disable_ocr,
        }),
        final(config).include_document_structure == (match bool_setting(
            *e,
            "include_document_structure"@,
        ) {
            Some(b) => b,
            None => old(config).include_document_structure,
        }),
{
    proof {
        reveal_strlit("use_cache");
        reveal_strlit("enable_quality_processing");
        reveal_strlit("force_ocr");
        reveal_strlit("disable_ocr");
        reveal_strlit("include_document_structure");
        assert("use_cache"@.len() == 9);
        assert("enable_quality_processing"@.len() == 25);
        assert("force_ocr"@.len() == 9);
        assert("disable_ocr"@.len() == 11);
        assert("include_document_structure"@.len() == 26);
        assert("use_cache"@[0] != "force_ocr"@[0]);
    }
    let key = chars_of(e.key.as_str());
    let k = key.as_slice();
    if key_is(k, "use_cache") || key_is(k, "enable_quality_processing") || key_is(k, "force_ocr")
        || key_is(k, "disable_ocr") || key_is(k, "include_document_structure") {
        match e.kind {
            TermKind::Bool(b) => {
                if key_is(k, "use_cache") {
                    config.use_cache = b;
                } else if key_is(k, "enable_quality_processing") {
                    config.enable_quality_processing = b;
                } else if key_is(k, "force_ocr") {
                    config.force_ocr = b;
                } else if key_is(k, "disable_ocr") {
                    config.disable_ocr = b;
                } else {
                    config.include_document_structure = b;
                }
                return Ok(());
            },
            _ => {
                return Err(field_error(k, "a boolean", &e.description));
            },
        }
    }
    if key_is(k, "ocr") || key_is(k, "chunking") || key_is(k, "images") || key_is(k, "pages")
        || key_is(k, "language_detection") || key_is(k, "postprocessor") || key_is(
        k,
        "token_reduction",
    ) || key_is(k, "keywords") || key_is(k, "pdf_options") || key_is(k, "html_options") || key_is(
        k,
        "html_output",
    ) || key_is(k, "security_limits") || key_is(k, "content_filter") {
        return match e.kind {
            TermKind::Nil | TermKind::Mapping => Ok(()),
            _ => Err(field_error(k, "a map or nil", &e.description)),
        };
    }
    if key_is(k, "result_format") || key_is(k, "output_format") {
        return match e.kind {
            TermKind::Str => Ok(()),
            _ => Err(field_error(k, "a string", &e.description)),
        };
    }
    if key_is(k, "max_concurrent_extractions") {
        return match e.kind {
            TermKind::Nil | TermKind::UnsignedInt => Ok(()),
            _ => Err(field_error(k, "a positive integer or nil", &e.description)),
        };
    }
    Ok(())
}

/// The message for forcing OCR while disabling it.
pub open spec fn ocr_flags_message() -> Seq<char> {
    "Invalid configuration: force_ocr and disable_ocr cannot both be enabled"@
}

/// What is wrong with a configuration whose boolean flags contradict each
/// other: OCR cannot be both forced and disabled.
pub open spec fn config_consistency_error(c: ExtractionConfig) -> Option<Seq<char>> {
    if c.force_ocr && c.disable_ocr {
        Some(ocr_flags_message())
    } else {
        None
    }
}

/// Validate an extraction configuration for internal consistency: boolean
/// flags that contradict each other are refused.
pub fn validate_extraction_config(config: &ExtractionConfig) -> (r: Result<(), String>)
    ensures
        match config_consistency_error(*config) {
            Some(m) => r matches Err(x) && x@ == m,
            None => r is Ok,
        },
{
    if config.force_ocr && config.disable_ocr {
        return Err(
            string_from_chars(
                chars_of(
                    "Invalid configuration: force_ocr and disable_ocr cannot both be enabled",
                ).as_slice(),
            ),
        );
    }
    Ok(())
}

/// Build an extraction configuration from a binding's option term: `nil`
/// gives the defaults; a map has each option's kind checked in order (the
/// first mismatch is reported), its boolean flags applied over the
/// defaults, and its nested sections taken from `nested`, what
/// deserialising the whole map produced; a configuration whose flags
/// contradict each other is refused.
pub fn parse_extraction_config(options: &ConfigTerm, nested: NestedConfig) -> (r: Result<
    ExtractionConfig,
    String,
>)
    ensures
        match options {
            ConfigTerm::Nil => r matches Ok(c) && is_default_config(c),
            ConfigTerm::Other => r matches Err(m) && m@
                == "Invalid configuration: options must be a map or nil"@,
            ConfigTerm::Mapping(es) => match first_entry_error(es@) {
                Some(m) => r matches Err(x) && x@ == m,
                None => match nested {
                    NestedConfig::Parsed(d) => match config_consistency_error(merged_config(es@, d)) {
                        Some(m) => r matches Err(x) && x@ == m,
                        None => r matches Ok(c) && c == merged_config(es@, d),
                    },
                    NestedConfig::JsonFailed(e) => r matches Err(x) && x@
                        == "Invalid configuration: failed to parse options - "@ + e@,
                    NestedConfig::DeserializeFailed(e) => r matches Err(x) && x@
                        == "Invalid configuration: failed to deserialize nested configs - "@ + e@,
                },
            },
        },
{
    match options {
        ConfigTerm::Nil => Ok(ExtractionConfig::default()),
        ConfigTerm::Other => Err(
            string_from_chars(
                chars_of("Invalid configuration: options must be a map or nil").as_slice(),
            ),
        ),
        ConfigTerm::Mapping(es) => parse_config_entries(es.as_slice(), nested),
    }
}

/// Checks and applies a map's options in order, then merges the
/// deserialised nested sections.
fn parse_config_entries(entries: &[ConfigEntry], nested: NestedConfig) -> (r: Result<
    ExtractionConfig,
    String,
>)
    ensures
        match first_entry_error(entries@) {
            Some(m) => r matches Err(x) && x@ == m,
            None => match nested {
                NestedConfig::Parsed(d) => match config_consistency_error(merged_config(entries@, d)) {
                    Some(m) => r matches Err(x) && x@ == m,
                    None => r matches Ok(c) && c == merged_config(entries@, d),
                },
                NestedConfig::JsonFailed(e) => r matches Err(x) && x@
                    == "Invalid configuration: failed to parse options - "@ + e@,
                NestedConfig::DeserializeFailed(e) => r matches Err(x) && x@
                    == "Invalid configuration: failed to deserialize nested configs - "@ + e@,
            },
        },
{
    let mut config = ExtractionConfig::default();
    let n = entries.len();
    assert(entries@.skip(0) =~= entries@);
    for i in 0..n
        invariant
            n == entries@.len(),
            first_entry_error(entries@) == first_entry_error(entries@.skip(i as int)),
            config.use_cache == final_bool(entries@.take(i as int), "use_cache"@, true),
            config.enable_quality_processing == final_bool(
                entries@.take(i as int),
                "enable_quality_processing"@,
                true,
            ),
            config.force_ocr == final_bool(entries@.take(i as int), "force_ocr"@, false),
            config.disable_ocr == final_bool(entries@.take(i as int), "disable_ocr"@, false),
            config.include_document_structure == final_bool(
                entries@.take(i as int),
                "include_document_structure"@,
                false,
            ),
    {
        assert(entries@.take(i + 1).drop_last() =~= entries@.take(i as int));
        assert(entries@.skip(i as int)[0] == entries@[i as int]);
        assert(entries@.skip(i as int).drop_first() =~= entries@.skip(i + 1));
        match apply_entry(&mut config, &entries[i]) {
            Ok(()) => {},
            Err(m) => {
                return Err(m);
            },
        }
    }
    assert(entries@.take(n as int) =~= entries@);
    assert(entries@.skip(n as int) =~= seq![]);
    match nested {
        NestedConfig::Parsed(d) => {
            config.output_format = d.output_format;
            config.max_concurrent_extractions = d.max_concurrent_extractions;
            config.ocr = d.ocr;
            config.chunking = d.chunking;
            config.language_detection = d.language_detection;
            config.token_reduction = d.token_reduction;
            match validate_extraction_config(&config) {
                Ok(()) => Ok(config),
                Err(m) => Err(m),
            }
        },
        NestedConfig::JsonFailed(e) => {
            let mut m = chars_of("Invalid configuration: failed to parse options - ");
            push_str_chars(&mut m, e.as_str());
            Err(string_from_chars(m.as_slice()))
        },
        NestedConfig::DeserializeFailed(e) => {
            let mut m = chars_of("Invalid configuration: failed to deserialize nested configs - ");
            push_str_chars(&mut m, e.as_str());
            Err(string_from_chars(m.as_slice()))
        },
    }
}


/// What converting a binding's term to JSON and deserialising it gave.
pub enum TermDecode<T> {
    /// The term was `nil`.
    Nil,
    /// The term could not be converted to JSON.
    JsonFailed(String),
    /// The JSON did not deserialise.
    DeserializeFailed(String),
    /// The deserialised value.
    Decoded(T),
}

/// The per-file configuration a binding's term gives: `nil` means none
/// (the batch defaults apply), a decoded map is taken as it is, and each
/// failure is reported with its cause.
pub fn file_extraction_config_from<T>(d: TermDecode<T>) -> (r: Result<Option<T>, String>)
    ensures
        match d {
            TermDecode::Nil => r matches Ok(None),
            TermDecode::JsonFailed(e) => r matches Err(m) && m@
                == "Invalid file extraction config: failed to parse - "@ + e@,
            TermDecode::DeserializeFailed(e) => r matches Err(m) && m@
                == "Invalid file extraction config: "@ + e@,
            TermDecode::Decoded(c) => r matches Ok(Some(x)) && x == c,
        },
{
    match d {
        TermDecode::Nil => Ok(None),
        TermDecode::JsonFailed(e) => {
            let mut m = chars_of("Invalid file extraction config: failed to parse - ");
            push_str_chars(&mut m, e.as_str());
            Err(string_from_chars(m.as_slice()))
        },
        TermDecode::DeserializeFailed(e) => {
            let mut m = chars_of("Invalid file extraction config: ");
            push_str_chars(&mut m, e.as_str());
            Err(string_from_chars(m.as_slice()))
        },
        TermDecode::Decoded(c) => Ok(Some(c)),
    }
}

/// The embedding configuration a binding's term gives: `nil` means
/// `default`, a decoded map is taken as it is, and each failure is reported
/// with its cause.
pub fn embedding_config_from<T>(d: TermDecode<T>, default: T) -> (r: Result<T, String>)
    ensures
        match d {
            TermDecode::Nil => r matches Ok(x) && x == default,
            TermDecode::JsonFailed(e) => r matches Err(m) && m@
                == "Invalid embedding config: failed to parse - "@ + e@,
            TermDecode::DeserializeFailed(e) => r matches Err(m) && m@
                == "Invalid embedding config: "@ + e@,
            TermDecode::Decoded(c) => r matches Ok(x) && x == c,
        },
{
    match d {
        TermDecode::Nil => Ok(default),
        TermDecode::JsonFailed(e) => {
            let mut m = chars_of("Invalid embedding config: failed to parse - ");
            push_str_chars(&mut m, e.as_str());
            Err(string_from_chars(m.as_slice()))
        },
        TermDecode::DeserializeFailed(e) => {
            let mut m = chars_of("Invalid embedding config: ");
            push_str_chars(&mut m, e.as_str());
            Err(string_from_chars(m.as_slice()))
        },
        TermDecode::Decoded(c) => Ok(c),
    }
}


/// Whether no option of `es` sets the boolean option `name`.
pub open spec fn never_set(es: Seq<ConfigEntry>, name: Seq<char>) -> bool {
    forall|k: int| 0 <= k < es.len() ==> #[trigger] bool_setting(es[k], name) is None
}

proof fn lemma_final_bool_unset(es: Seq<ConfigEntry>, name: Seq<char>, default: bool)
    requires
        never_set(es, name),
    ensures
        final_bool(es, name, default) == default,
    decreases es.len(),
{
    if es.len() > 0 {
        assert(bool_setting(es[es.len() - 1], name) is None);
        assert forall|k: int| 0 <= k < es.drop_last().len() implies #[trigger] bool_setting(
            es.drop_last()[k],
            name,
        ) is None by {
            assert(es.drop_last()[k] == es[k]);
        }
        lemma_final_bool_unset(es.drop_last(), name, default);
    }
}

/// A boolean flag that an options map does not set keeps its default:
/// `use_cache` and `enable_quality_processing` on, `force_ocr`,
/// `disable_ocr` and `include_document_structure` off.
pub proof fn lemma_unset_flags_keep_defaults(es: Seq<ConfigEntry>, d: ExtractionConfig)
    ensures
        never_set(es, "use_cache"@) ==> merged_config(es, d).use_cache == true,
        never_set(es, "enable_quality_processing"@) ==> merged_config(
            es,
            d,
        ).enable_quality_processing == true,
        never_set(es, "force_ocr"@) ==> merged_config(es, d).force_ocr == false,
        never_set(es, "disable_ocr"@) ==> merged_config(es, d).disable_ocr == false,
        never_set(es, "include_document_structure"@) ==> merged_config(
            es,
            d,
        ).include_document_structure == false,
{
    if never_set(es, "use_cache"@) {
        lemma_final_bool_unset(es, "use_cache"@, true);
    }
    if never_set(es, "enable_quality_processing"@) {
        lemma_final_bool_unset(es, "enable_quality_processing"@, true);
    }
    if never_set(es, "force_ocr"@) {
        lemma_final_bool_unset(es, "force_ocr"@, false);
    }
    if never_set(es, "disable_ocr"@) {
        lemma_final_bool_unset(es, "disable_ocr"@, false);
    }
    if never_set(es, "include_document_structure"@) {
        lemma_final_bool_unset(es, "include_document_structure"@, false);
    }
}

} // verus!
