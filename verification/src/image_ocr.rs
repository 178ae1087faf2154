//! Which extracted images go to OCR, and how OCR outcomes are recorded.

use vstd::prelude::*;
use vstd::string::*;
use crate::text::{chars_of, decimal, eq_chars, push_decimal, push_str_chars, string_from_chars};
use crate::types::{warning_is, ExtractedImage, ExtractionResult, ProcessingWarning};

verus! {

/// `c` lowercased if it is an ASCII capital letter.
pub open spec fn ascii_lower(c: char) -> char {
    if 'A' <= c && c <= 'Z' {
        ((c as u32) + 32) as char
    } else {
        c
    }
}

/// `s` with ASCII capitals lowercased (`str::to_ascii_lowercase`).
pub open spec fn ascii_lowercase(s: Seq<char>) -> Seq<char> {
    s.map_values(|c: char| ascii_lower(c))
}

/// Image formats OCR cannot read: raw streams and PDF-only codecs.
pub open spec fn is_unsupported_ocr_format(f: Seq<char>) -> bool {
    f == "raw"@ || f == "ccitt"@ || f == "jbig2"@ || f == "jpeg2000"@ || f == "jpx"@ || f
        == "unknown"@
}

/// What probing an image's bytes gave: its dimensions, or whether format
/// guessing (`true`) or header decoding (`false`) failed, with the message.
pub type ProbeOutcome = Result<(u32, u32), (bool, String)>;

/// A probe outcome with its message taken as characters.
pub open spec fn probe_view(p: ProbeOutcome) -> Result<(u32, u32), (bool, Seq<char>)> {
    match p {
        Ok(d) => Ok(d),
        Err((stage, m)) => Err((stage, m@)),
    }
}

/// Whether probing the bytes `data` with the `image` crate can give `r`.
/// What it gives is not a function of the bytes alone: format guessing and
/// decoder choice also read the hooks registered with the crate anywhere in
/// the process.
pub uninterp spec fn image_probe_may_give(data: Seq<u8>, r: Result<(u32, u32), (bool, Seq<char>)>) -> bool;

/// Calls `image::ImageReader::new` on the bytes, then `with_guessed_format`
/// and `into_dimensions`. The contract ties the outcome to the bytes it was
/// given and states nothing more of it: which format is guessed and which
/// decoder runs also depend on the hooks registered with the `image` crate
/// anywhere in the process. The crate reads its hook registries through
/// `RwLock`s and panics when one is poisoned, which only a panic while a
/// hook is being registered (under the write lock) can bring about.
#[verifier::external_body]
fn probe_image_dimensions(data: &[u8]) -> (r: ProbeOutcome)
    ensures
        image_probe_may_give(data@, probe_view(r)),
{
    let reader = image::ImageReader::new(std::io::Cursor::new(data))
        .with_guessed_format()
        .map_err(|e| (true, e.to_string()))?;
    reader.into_dimensions().map_err(|e| (false, e.to_string()))
}

/// Whether an image passes the checks made before its bytes are probed: it
/// has bytes, in a format OCR can read.
pub open spec fn ocr_prechecks_pass(img: ExtractedImage) -> bool {
    img.data@.len() > 0 && !is_unsupported_ocr_format(ascii_lowercase(img.format@))
}

/// Why an image cannot go to OCR, given what probing its bytes gave (when
/// they were probed): no bytes, a format OCR cannot read, or bytes the
/// `image` crate could not make sense of.
pub open spec fn ocr_skip_reason(img: ExtractedImage, probe: Option<ProbeOutcome>) -> Option<
    Seq<char>,
> {
    if img.data@.len() == 0 {
        Some("image data is empty"@)
    } else if is_unsupported_ocr_format(ascii_lowercase(img.format@)) {
        Some("unsupported image format for OCR: "@ + ascii_lowercase(img.format@))
    } else {
        match probe {
            Some(Err((true, e))) => Some("image format probe failed: "@ + e@),
            Some(Err((false, e))) => Some("image dimensions could not be decoded: "@ + e@),
            _ => None,
        }
    }
}

fn ascii_lowercase_chars(v: &[char]) -> (r: Vec<char>)
    ensures
        r@ == ascii_lowercase(v@),
{
    let mut out: Vec<char> = Vec::new();
    let n = v.len();
    for i in 0..n
        invariant
            n == v@.len(),
            out@ == ascii_lowercase(v@.take(i as int)),
    {
        let c = v[i];
        let l = if 'A' <= c && c <= 'Z' {
            ((c as u8) + 32) as char
        } else {
            c
        };
        assert(l == ascii_lower(c));
        out.push(l);
        assert(out@ =~= ascii_lowercase(v@.take(i + 1)));
    }
    assert(v@.take(n as int) =~= v@);
    out
}

fn is_word(v: &[char], w: &str) -> (r: bool)
    ensures
        r == (v@ == w@),
{
    let c = chars_of(w);
    eq_chars(v, c.as_slice())
}

fn prechecks(image: &ExtractedImage) -> (r: Result<(), String>)
    ensures
        ocr_prechecks_pass(*image) ==> r is Ok,
        !ocr_prechecks_pass(*image) ==> (r matches Err(x) && ocr_skip_reason(*image, None) == Some(
            x@,
        )),
{
    if image.data.len() == 0 {
        return Err(string_from_chars(chars_of("image data is empty").as_slice()));
    }
    let f = ascii_lowercase_chars(chars_of(image.format.as_str()).as_slice());
    let fs = f.as_slice();
    if is_word(fs, "raw") || is_word(fs, "ccitt") || is_word(fs, "jbig2") || is_word(fs, "jpeg2000")
        || is_word(fs, "jpx") || is_word(fs, "unknown") {
        let mut m = chars_of("unsupported image format for OCR: ");
        crate::text::push_all(&mut m, fs);
        return Err(string_from_chars(m.as_slice()));
    }
    Ok(())
}

/// Whether an image can be handed to OCR, given what probing its bytes gave.
pub fn ocr_decodability(image: &ExtractedImage, probe: &ProbeOutcome) -> (r: Result<(), String>)
    ensures
        match ocr_skip_reason(*image, Some(*probe)) {
            Some(m) => r matches Err(x) && x@ == m,
            None => r is Ok,
        },
{
    match prechecks(image) {
        Err(m) => {
            return Err(m);
        },
        Ok(()) => {},
    }
    match probe {
        Ok(_) => Ok(()),
        Err((true, e)) => {
            let mut m = chars_of("image format probe failed: ");
            push_str_chars(&mut m, e.as_str());
            Err(string_from_chars(m.as_slice()))
        },
        Err((false, e)) => {
            let mut m = chars_of("image dimensions could not be decoded: ");
            push_str_chars(&mut m, e.as_str());
            Err(string_from_chars(m.as_slice()))
        },
    }
}

/// Whether `r` is what the checks give for `image` with probe outcome `p`.
pub open spec fn decodability_is(image: ExtractedImage, p: ProbeOutcome, r: Result<(), String>) -> bool {
    match ocr_skip_reason(image, Some(p)) {
        Some(m) => r matches Err(x) && x@ == m,
        None => r is Ok,
    }
}

/// Check that an image can be handed to OCR: an image without bytes or in a
/// format OCR cannot read is refused before its bytes are probed; otherwise
/// the bytes are probed with the `image` crate and the answer is what
/// `ocr_decodability` gives for that probe.
pub fn is_ocr_decodable_image(image: &ExtractedImage) -> (r: Result<(), String>)
    ensures
        !ocr_prechecks_pass(*image) ==> (r matches Err(x) && ocr_skip_reason(*image, None) == Some(
            x@,
        )),
        exists|p: ProbeOutcome| #[trigger] decodability_is(*image, p, r),
        ocr_prechecks_pass(*image) ==> exists|p: ProbeOutcome|
            image_probe_may_give(image.data@, probe_view(p)) && #[trigger] decodability_is(
                *image,
                p,
                r,
            ),
{
    match prechecks(image) {
        Err(m) => {
            let ghost p: ProbeOutcome = Ok((0, 0));
            assert(decodability_is(*image, p, Err(m)));
            return Err(m);
        },
        Ok(()) => {},
    }
    let probe = probe_image_dimensions(image.data.as_slice());
    let r = ocr_decodability(image, &probe);
    assert(decodability_is(*image, probe, r));
    r
}

/// Probe the bytes of every image that passes the checks made before
/// probing; the others are not probed.
pub fn probe_images(images: &[ExtractedImage]) -> (r: Vec<Option<ProbeOutcome>>)
    ensures
        r@.len() == images@.len(),
        forall|i: int| 0 <= i < r@.len() ==> (#[trigger] r@[i] is Some <==> ocr_prechecks_pass(images@[i])),
        forall|i: int|
            0 <= i < r@.len() ==> (#[trigger] r@[i] matches Some(p) ==> image_probe_may_give(
                images@[i].data@,
                probe_view(p),
            )),
{
    let mut out: Vec<Option<ProbeOutcome>> = Vec::new();
    let n = images.len();
    for i in 0..n
        invariant
            n == images@.len(),
            out@.len() == i,
            forall|k: int| 0 <= k < i ==> (#[trigger] out@[k] is Some <==> ocr_prechecks_pass(images@[k])),
            forall|k: int|
                0 <= k < i ==> (#[trigger] out@[k] matches Some(p) ==> image_probe_may_give(
                    images@[k].data@,
                    probe_view(p),
                )),
    {
        match prechecks(&images[i]) {
            Ok(()) => {
                out.push(Some(probe_image_dimensions(images[i].data.as_slice())));
            },
            Err(_) => {
                out.push(None);
            },
        }
    }
    out
}

/// The warning for an image skipped before OCR.
pub open spec fn skipped_message(idx: nat, reason: Seq<char>) -> Seq<char> {
    "Image "@ + decimal(idx) + " skipped before OCR: "@ + reason
}

/// Indices of the images OCR should run on, with a warning for each image
/// skipped: none at all when there are no images or OCR is not configured.
pub open spec fn ocr_selection(
    imgs: Seq<ExtractedImage>,
    probes: Seq<Option<ProbeOutcome>>,
    ocr_configured: bool,
) -> (Seq<usize>, Seq<Seq<char>>)
    decreases imgs.len(),
{
    if imgs.len() == 0 || !ocr_configured {
        (seq![], seq![])
    } else {
        let (sel, warns) = ocr_selection(imgs.drop_last(), probes, ocr_configured);
        let idx = (imgs.len() - 1) as usize;
        match ocr_skip_reason(imgs.last(), probes[imgs.len() - 1]) {
            Some(reason) => (sel, warns.push(skipped_message(idx as nat, reason))),
            None => (sel.push(idx), warns),
        }
    }
}

/// Choose the images to hand to OCR, given what probing each image's bytes
/// gave (`probes[i]` is `Some` exactly for the images whose bytes were
/// probed, as `probe_images` gives them); each skipped image gets an
/// `"image_ocr"` warning saying why.
pub fn select_images_for_ocr(
    images: &[ExtractedImage],
    probes: &[Option<ProbeOutcome>],
    ocr_configured: bool,
    warnings: &mut Vec<ProcessingWarning>,
) -> (r: Vec<usize>)
    requires
        probes@.len() == images@.len(),
        forall|i: int| 0 <= i < probes@.len() ==> (#[trigger] probes@[i] is Some <==> ocr_prechecks_pass(images@[i])),
    ensures
        r@ == ocr_selection(images@, probes@, ocr_configured).0,
        final(warnings)@.len() == old(warnings)@.len() + ocr_selection(images@, probes@, ocr_configured).1.len(),
        final(warnings)@.take(old(warnings)@.len() as int) == old(warnings)@,
        forall|k: int|
            0 <= k < ocr_selection(images@, probes@, ocr_configured).1.len() ==> warning_is(
                #[trigger] final(warnings)@[old(warnings)@.len() + k],
                "image_ocr"@,
                ocr_selection(images@, probes@, ocr_configured).1[k],
            ),
{
    let ghost w0 = warnings@;
    let mut sel: Vec<usize> = Vec::new();
    let n = images.len();
    if n == 0 || !ocr_configured {
        assert(warnings@.take(w0.len() as int) =~= w0);
        return sel;
    }
    for i in 0..n
        invariant
            n == images@.len(),
            n == probes@.len(),
            forall|j: int| 0 <= j < probes@.len() ==> (#[trigger] probes@[j] is Some <==> ocr_prechecks_pass(images@[j])),
            n > 0,
            ocr_configured,
            sel@ == ocr_selection(images@.take(i as int), probes@, true).0,
            warnings@.len() == w0.len() + ocr_selection(images@.take(i as int), probes@, true).1.len(),
            warnings@.take(w0.len() as int) == w0,
            forall|k: int|
                0 <= k < ocr_selection(images@.take(i as int), probes@, true).1.len() ==> warning_is(
                    #[trigger] warnings@[w0.len() + k],
                    "image_ocr"@,
                    ocr_selection(images@.take(i as int), probes@, true).1[k],
                ),
    {
        let ghost pre = images@.take(i as int);
        let ghost post = images@.take(i + 1);
        assert(post.drop_last() =~= pre);
        assert(post.last() == images@[i as int]);
        let ghost prev_warns = warnings@;
        assert(post.len() - 1 == i);
        let decision = match &probes[i] {
            Some(p) => ocr_decodability(&images[i], p),
            None => prechecks(&images[i]),
        };
        match decision {
            Ok(()) => {
                sel.push(i);
            },
            Err(reason) => {
                let mut m = chars_of("Image ");
                push_decimal(&mut m, i);
                push_str_chars(&mut m, " skipped before OCR: ");
                push_str_chars(&mut m, reason.as_str());
                warnings.push(
                    ProcessingWarning {
                        source: string_from_chars(chars_of("image_ocr").as_slice()),
                        message: string_from_chars(m.as_slice()),
                    },
                );
                assert(warnings@.take(w0.len() as int) =~= prev_warns.take(w0.len() as int));
            },
        }
    }
    assert(images@.take(n as int) =~= images@);
    sel
}

/// The warning for an image whose OCR failed.
pub open spec fn ocr_failed_message(idx: nat, err: Seq<char>) -> Seq<char> {
    "Image "@ + decimal(idx) + " OCR failed: "@ + err
}

/// Record what OCR produced for image `idx`: its text and MIME type as the
/// image's OCR result, or, on failure, no OCR result and an `"image_ocr"`
/// warning.
pub fn record_ocr_outcome(
    image: &mut ExtractedImage,
    idx: usize,
    outcome: Result<(String, String), String>,
    warnings: &mut Vec<ProcessingWarning>,
)
    ensures
        final(image).data == old(image).data,
        final(image).format == old(image).format,
        final(image).image_index == old(image).image_index,
        final(image).page_number == old(image).page_number,
        match outcome {
            Ok((content, mime)) => final(image).ocr_result matches Some(r) && r.content@ == content@
                && r.mime_type@ == mime@ && r.formatted_content is None && r.pages is None
                && r.page_boundaries is None && r.detected_languages is None
                && r.processing_warnings@.len() == 0 && r.code_chunks is None && r.chunks is None
                && final(warnings)@ == old(warnings)@,
            Err(e) => final(image).ocr_result is None && final(warnings)@.len() == old(warnings)@.len()
                + 1 && final(warnings)@.drop_last() == old(warnings)@ && warning_is(
                final(warnings)@.last(),
                "image_ocr"@,
                ocr_failed_message(idx as nat, e@),
            ),
        },
{
    match outcome {
        Ok((content, mime)) => {
            image.ocr_result = Some(
                Box::new(
                    ExtractionResult {
                        content,
                        formatted_content: None,
                        mime_type: mime,
                        pages: None,
                        page_boundaries: None,
                        detected_languages: None,
                        processing_warnings: Vec::new(),
                        code_chunks: None,
                        chunks: None,
                    },
                ),
            );
        },
        Err(e) => {
            let mut m = chars_of("Image ");
            push_decimal(&mut m, idx);
            push_str_chars(&mut m, " OCR failed: ");
            push_str_chars(&mut m, e.as_str());
            warnings.push(
                ProcessingWarning {
                    source: string_from_chars(chars_of("image_ocr").as_slice()),
                    message: string_from_chars(m.as_slice()),
                },
            );
            assert(warnings@.drop_last() =~= old(warnings)@);
            image.ocr_result = None;
        },
    }
}


/// The six formats refused before probing: raw, ccitt, jbig2, jpeg2000, jpx
/// and unknown.
pub open spec fn refused_before_probing(f: Seq<char>) -> bool {
    ||| f == seq!['r', 'a', 'w']
    ||| f == seq!['c', 'c', 'i', 't', 't']
    ||| f == seq!['j', 'b', 'i', 'g', '2']
    ||| f == seq!['j', 'p', 'e', 'g', '2', '0', '0', '0']
    ||| f == seq!['j', 'p', 'x']
    ||| f == seq!['u', 'n', 'k', 'n', 'o', 'w', 'n']
}

/// The checks before probing refuse an image exactly when it has no bytes
/// or its format, lowercased, is one of the six refused formats; every
/// other format (`jpeg`, `png`, ...) goes on to be probed.
pub proof fn lemma_prechecks_refuse_exactly_six_formats(img: ExtractedImage)
    ensures
        ocr_prechecks_pass(img) <==> (img.data@.len() > 0 && !refused_before_probing(
            ascii_lowercase(img.format@),
        )),
{
    reveal_strlit("raw");
    reveal_strlit("ccitt");
    reveal_strlit("jbig2");
    reveal_strlit("jpeg2000");
    reveal_strlit("jpx");
    reveal_strlit("unknown");
    let f = ascii_lowercase(img.format@);
    assert(("raw"@ == f) <==> (f == seq!['r', 'a', 'w'])) by {
        assert("raw"@ =~= seq!['r', 'a', 'w']);
    }
    assert(("ccitt"@ == f) <==> (f == seq!['c', 'c', 'i', 't', 't'])) by {
        assert("ccitt"@ =~= seq!['c', 'c', 'i', 't', 't']);
    }
    assert(("jbig2"@ == f) <==> (f == seq!['j', 'b', 'i', 'g', '2'])) by {
        assert("jbig2"@ =~= seq!['j', 'b', 'i', 'g', '2']);
    }
    assert(("jpeg2000"@ == f) <==> (f == seq!['j', 'p', 'e', 'g', '2', '0', '0', '0'])) by {
        assert("jpeg2000"@ =~= seq!['j', 'p', 'e', 'g', '2', '0', '0', '0']);
    }
    assert(("jpx"@ == f) <==> (f == seq!['j', 'p', 'x'])) by {
        assert("jpx"@ =~= seq!['j', 'p', 'x']);
    }
    assert(("unknown"@ == f) <==> (f == seq!['u', 'n', 'k', 'n', 'o', 'w', 'n'])) by {
        assert("unknown"@ =~= seq!['u', 'n', 'k', 'n', 'o', 'w', 'n']);
    }
}

/// With OCR configured, an image with bytes, in a format not refused before
/// probing, whose probe succeeded, is selected for OCR.
pub proof fn lemma_decodable_images_are_selected(
    imgs: Seq<ExtractedImage>,
    probes: Seq<Option<ProbeOutcome>>,
    i: int,
)
    requires
        0 <= i < imgs.len(),
        probes.len() == imgs.len(),
        imgs[i].data@.len() > 0,
        !refused_before_probing(ascii_lowercase(imgs[i].format@)),
        probes[i] matches Some(Ok(_)),
    ensures
        ocr_selection(imgs, probes, true).0.contains(i as usize),
    decreases imgs.len(),
{
    lemma_prechecks_refuse_exactly_six_formats(imgs[i]);
    let n = imgs.len();
    let (sel, _w) = ocr_selection(imgs.drop_last(), probes, true);
    if i == n - 1 {
        assert(imgs.last() == imgs[i]);
        assert(ocr_skip_reason(imgs.last(), probes[n - 1]) is None);
        assert(ocr_selection(imgs, probes, true).0 == sel.push(i as usize));
        assert(sel.push(i as usize)[sel.len() as int] == i as usize);
    } else {
        assert(imgs.drop_last()[i] == imgs[i]);
        lemma_decodable_images_are_selected_prefix(imgs.drop_last(), probes, i);
        let k = choose|k: int| 0 <= k < sel.len() && sel[k] == i as usize;
        match ocr_skip_reason(imgs.last(), probes[n - 1]) {
            Some(_) => {},
            None => {
                assert(sel.push((n - 1) as usize)[k] == i as usize);
            },
        }
    }
}

proof fn lemma_decodable_images_are_selected_prefix(
    imgs: Seq<ExtractedImage>,
    probes: Seq<Option<ProbeOutcome>>,
    i: int,
)
    requires
        0 <= i < imgs.len(),
        probes.len() >= imgs.len(),
        imgs[i].data@.len() > 0,
        !refused_before_probing(ascii_lowercase(imgs[i].format@)),
        probes[i] matches Some(Ok(_)),
    ensures
        ocr_selection(imgs, probes, true).0.contains(i as usize),
    decreases imgs.len(),
{
    lemma_prechecks_refuse_exactly_six_formats(imgs[i]);
    let n = imgs.len();
    let (sel, _w) = ocr_selection(imgs.drop_last(), probes, true);
    if i == n - 1 {
        assert(imgs.last() == imgs[i]);
        assert(ocr_skip_reason(imgs.last(), probes[n - 1]) is None);
        assert(sel.push(i as usize)[sel.len() as int] == i as usize);
    } else {
        assert(imgs.drop_last()[i] == imgs[i]);
        lemma_decodable_images_are_selected_prefix(imgs.drop_last(), probes, i);
        let k = choose|k: int| 0 <= k < sel.len() && sel[k] == i as usize;
        match ocr_skip_reason(imgs.last(), probes[n - 1]) {
            Some(_) => {},
            None => {
                assert(sel.push((n - 1) as usize)[k] == i as usize);
            },
        }
    }
}

} // verus!
