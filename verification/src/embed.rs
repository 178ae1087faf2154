//! Checking an embedding request before any model is loaded.

use vstd::prelude::*;
use vstd::string::*;
use crate::text::{chars_of, eq_chars, decimal, push_decimal, push_str_chars, string_from_chars};

verus! {

/// The embedding model a request selects.
pub enum EmbeddingModelChoice {
    /// A model served through an LLM provider.
    Llm { model: String },
    /// A local preset model.
    Preset { name: String },
}

/// The message for an empty request.
pub open spec fn no_texts_message() -> Seq<char> {
    "No texts provided for embedding. Provide --text or pipe text via stdin."@
}

/// The message for an empty text at 1-based position `pos`.
pub open spec fn empty_text_message(pos: nat) -> Seq<char> {
    "Text at position "@ + decimal(pos) + " is empty. All texts must be non-empty."@
}

/// The message for the LLM provider without a model.
pub open spec fn missing_model_message() -> Seq<char> {
    "--model is required when --provider is 'llm' (e.g., --model openai/text-embedding-3-small)"@
}

/// The message for an unknown provider.
pub open spec fn unknown_provider_message(p: Seq<char>) -> Seq<char> {
    "Unknown embedding provider '"@ + p
        + "'. Valid providers: 'local' (default, ONNX) or 'llm' (liter-llm)."@
}

/// Index of the first empty text, if any.
pub open spec fn first_empty(texts: Seq<Seq<char>>) -> Option<int> {
    if exists|i: int| 0 <= i < texts.len() && texts[i].len() == 0 {
        Some(
            choose|i: int|
                0 <= i < texts.len() && texts[i].len() == 0 && forall|j: int|
                    0 <= j < i ==> texts[j].len() > 0,
        )
    } else {
        None
    }
}

/// Check an embedding request and choose its model: the texts must be
/// present and nonempty; provider `"llm"` needs a model, `"local"` (or
/// nothing) uses the preset, anything else is refused.
pub fn plan_embedding(
    texts: &[String],
    preset: &str,
    provider: &str,
    llm_model: Option<&str>,
) -> (r: Result<EmbeddingModelChoice, String>)
    ensures
        texts@.len() == 0 ==> (r matches Err(m) && m@ == no_texts_message()),
        texts@.len() > 0 ==> match first_empty(texts@.map_values(|t: String| t@)) {
            Some(i) => r matches Err(m) && m@ == empty_text_message((i + 1) as nat),
            None => if provider@ == "llm"@ {
                match llm_model {
                    Some(model) => r matches Ok(EmbeddingModelChoice::Llm { model: m }) && m@
                        == model@,
                    None => r matches Err(m) && m@ == missing_model_message(),
                }
            } else if provider@ == "local"@ || provider@.len() == 0 {
                r matches Ok(EmbeddingModelChoice::Preset { name: m }) && m@ == preset@
            } else {
                r matches Err(m) && m@ == unknown_provider_message(provider@)
            },
        },
{
    let ghost tv = texts@.map_values(|t: String| t@);
    let n = texts.len();
    if n == 0 {
        return Err(string_from_chars(chars_of("No texts provided for embedding. Provide --text or pipe text via stdin.").as_slice()));
    }
    for i in 0..n
        invariant
            n == texts@.len() == tv.len(),
            tv == texts@.map_values(|t: String| t@),
            forall|j: int| 0 <= j < i ==> tv[j].len() > 0,
    {
        assert(tv[i as int] == texts@[i as int]@);
        if texts[i].as_str().is_empty() {
            let ghost w = choose|k: int|
                0 <= k < tv.len() && tv[k].len() == 0 && forall|j: int| 0 <= j < k ==> tv[j].len() > 0;
            assert(0 <= i < tv.len() && tv[i as int].len() == 0 && forall|j: int|
                0 <= j < i ==> tv[j].len() > 0);
            proof {
                if w < i {
                    assert(tv[w].len() > 0);
                } else if w > i {
                    assert(tv[i as int].len() > 0);
                }
            }
            let mut m = chars_of("Text at position ");
            push_decimal(&mut m, i + 1);
            push_str_chars(&mut m, " is empty. All texts must be non-empty.");
            return Err(string_from_chars(m.as_slice()));
        }
    }
    let p = chars_of(provider);
    let llm = chars_of("llm");
    let local = chars_of("local");
    if eq_chars(p.as_slice(), llm.as_slice()) {
        match llm_model {
            Some(model) => Ok(EmbeddingModelChoice::Llm { model: string_from_chars(chars_of(model).as_slice()) }),
            None => Err(string_from_chars(chars_of("--model is required when --provider is 'llm' (e.g., --model openai/text-embedding-3-small)").as_slice())),
        }
    } else if eq_chars(p.as_slice(), local.as_slice()) || p.len() == 0 {
        Ok(EmbeddingModelChoice::Preset { name: string_from_chars(chars_of(preset).as_slice()) })
    } else {
        let mut m = chars_of("Unknown embedding provider '");
        push_str_chars(&mut m, provider);
        push_str_chars(&mut m, "'. Valid providers: 'local' (default, ONNX) or 'llm' (liter-llm).");
        Err(string_from_chars(m.as_slice()))
    }
}

} // verus!
