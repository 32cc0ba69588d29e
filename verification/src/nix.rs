//! Locating and rewriting the pinned `rev` value inside the `ultron` input
//! block of a flake-style configuration document.
//!
//! The pipeline is: find the block label, take the brace-balanced block
//! after it, find the rev label inside the block, take the value between
//! the first pair of quotes after it, and splice in a replacement of the
//! same byte length. Every step either narrows a [`Span`] or fails with a
//! typed error; the input document is never touched.

use vstd::prelude::*;
use vstd::string::StringSliceAdditionalSpecFns;
use vstd::utf8::encode_utf8;
use vstd::utf8::valid_utf8;

use crate::text::DelimScan;
use crate::text::Span;
use crate::text::SpanError;
use crate::text::delim_scan;
use crate::text::first_byte_index;
use crate::text::first_match_index;
use crate::text::has_byte_from;
use crate::text::has_match;
use crate::text::is_first_byte_from;
use crate::text::is_first_match_at;
use crate::text::lemma_delim_scan_bounds;
use crate::text::lemma_delim_scan_stable;
use crate::text::lemma_first_byte_stable;
use crate::text::lemma_first_byte_unique;
use crate::text::lemma_first_match_stable;
use crate::text::lemma_first_match_unique;
use crate::text::lemma_has_first_byte;
use crate::text::lemma_has_first_match;

verus! {

/// Failures of the rev-update pipeline.
#[derive(Debug, Clone, PartialEq, Eq)]
pub enum NixError {
    /// Unable to find the quoted `rev` value.
    RevNotFound,
    /// Failed to extract the rev.
    RevExtractFailed,
    /// The document is empty.
    Empty,
    /// Unable to build the new document text around the updated rev.
    BadRoot,
    /// Unable to replace the text.
    ReplaceFailed,
    /// A span operation failed.
    SpanError(SpanError),
}

/// The keyphrase that announces the block holding the pinned rev.
pub open spec fn block_label() -> Seq<u8> {
    "ultron = ".spec_bytes()
}

/// The keyphrase that announces the quoted rev value inside the block.
pub open spec fn rev_label() -> Seq<u8> {
    "rev = ".spec_bytes()
}

/// Offset just past the first occurrence of the block label in `d`;
/// meaningful only when `has_match(d, block_label())` holds.
pub open spec fn block_label_end(d: Seq<u8>) -> int {
    first_match_index(d, block_label()) + block_label().len()
}

/// The delimiter scan that looks for the brace-balanced block after the
/// block label.
pub open spec fn block_scan(d: Seq<u8>) -> DelimScan {
    delim_scan(d.subrange(block_label_end(d), d.len() as int), ('{' as u8), ('}' as u8), 0, 0)
}

/// Absolute bounds of the brace-balanced block after the block label, both
/// braces included; meaningful only when `block_scan(d) is Matched`.
pub open spec fn block_bounds(d: Seq<u8>) -> (int, int) {
    (
        block_label_end(d),
        block_label_end(d) + (match block_scan(d) {
            DelimScan::Matched { at } => at,
            _ => 0,
        }) + 1,
    )
}

/// The bytes of the block, braces included.
pub open spec fn block_window(d: Seq<u8>) -> Seq<u8> {
    d.subrange(block_bounds(d).0, block_bounds(d).1)
}

/// Offset just past the first occurrence of the rev label, relative to the
/// block's start; meaningful only when the block holds the rev label.
pub open spec fn rev_label_end(d: Seq<u8>) -> int {
    first_match_index(block_window(d), rev_label()) + rev_label().len()
}

/// The tail of the block after the rev label, where the quoted value is
/// searched for.
pub open spec fn value_window(d: Seq<u8>) -> Seq<u8> {
    block_window(d).subrange(rev_label_end(d), block_window(d).len() as int)
}

/// The tail of the block holds a first quote and a second one after it.
pub open spec fn has_quoted_value(d: Seq<u8>) -> bool {
    has_byte_from(value_window(d), ('"' as u8), 0) && has_byte_from(
        value_window(d),
        ('"' as u8),
        first_byte_index(value_window(d), ('"' as u8), 0) + 1,
    )
}

/// Absolute offset of the first byte of the rev value (just past the
/// opening quote); meaningful only when `has_quoted_value(d)` holds.
pub open spec fn rev_start(d: Seq<u8>) -> int {
    block_bounds(d).0 + rev_label_end(d) + first_byte_index(value_window(d), ('"' as u8), 0) + 1
}

/// Absolute offset just past the last byte of the rev value (the closing
/// quote's position); meaningful only when `has_quoted_value(d)` holds.
pub open spec fn rev_end(d: Seq<u8>) -> int {
    block_bounds(d).0 + rev_label_end(d) + first_byte_index(
        value_window(d),
        ('"' as u8),
        first_byte_index(value_window(d), ('"' as u8), 0) + 1,
    )
}

/// The bytes of the pinned rev value, quotes excluded.
pub open spec fn rev_value(d: Seq<u8>) -> Seq<u8> {
    d.subrange(rev_start(d), rev_end(d))
}

/// The document holds every landmark the pipeline needs: it is non-empty,
/// the block label occurs, a brace-balanced block follows it, the rev label
/// occurs inside the block, and a quoted value follows the rev label.
pub open spec fn well_formed(d: Seq<u8>) -> bool {
    &&& d.len() > 0
    &&& has_match(d, block_label())
    &&& block_scan(d) is Matched
    &&& has_match(block_window(d), rev_label())
    &&& has_quoted_value(d)
}

/// The document with the rev value replaced by `nr` and everything else
/// kept byte for byte.
pub open spec fn updated_doc(d: Seq<u8>, nr: Seq<u8>) -> Seq<u8> {
    d.subrange(0, rev_start(d)) + nr + d.subrange(rev_end(d), d.len() as int)
}

/// Everything the rev-update pipeline can do on a document `d` and a
/// replacement value `nr`, stated over the raw bytes.
pub enum RevUpdate {
    /// The rewritten document.
    Updated(Seq<u8>),
    /// The input document was empty.
    EmptyInput,
    /// A required keyphrase is absent; its characters are carried here.
    KeyphraseMissing(Seq<char>),
    /// The block label was found but no brace-balanced block follows it.
    BlockMissing,
    /// No quoted value follows the rev label inside the block.
    QuoteMissing,
    /// The replacement value's byte length differs from the present one.
    WrongLength { expected: int, found: int },
}

/// The outcome of the whole pipeline on document bytes `d` and replacement
/// bytes `nr`: the first landmark that is missing decides the failure, and
/// when none is missing the result is the spliced document.
pub open spec fn rev_update_model(d: Seq<u8>, nr: Seq<u8>) -> RevUpdate {
    if d.len() == 0 {
        RevUpdate::EmptyInput
    } else if !has_match(d, block_label()) {
        RevUpdate::KeyphraseMissing("ultron = "@)
    } else if !(block_scan(d) is Matched) {
        RevUpdate::BlockMissing
    } else if !has_match(block_window(d), rev_label()) {
        RevUpdate::KeyphraseMissing("rev = "@)
    } else if !has_quoted_value(d) {
        RevUpdate::QuoteMissing
    } else if nr.len() != rev_end(d) - rev_start(d) {
        RevUpdate::WrongLength { expected: rev_end(d) - rev_start(d), found: nr.len() as int }
    } else {
        RevUpdate::Updated(updated_doc(d, nr))
    }
}

/// Where the landmarks of a well-formed document stand: the block follows
/// the label, and the quoted rev value lies strictly inside the block.
pub proof fn lemma_landmark_bounds(d: Seq<u8>)
    requires
        well_formed(d),
    ensures
        is_first_match_at(d, block_label(), first_match_index(d, block_label())),
        is_first_match_at(
            block_window(d),
            rev_label(),
            first_match_index(block_window(d), rev_label()),
        ),
        is_first_byte_from(value_window(d), ('"' as u8), 0, first_byte_index(value_window(d), ('"' as u8), 0)),
        is_first_byte_from(
            value_window(d),
            ('"' as u8),
            first_byte_index(value_window(d), ('"' as u8), 0) + 1,
            first_byte_index(
                value_window(d),
                ('"' as u8),
                first_byte_index(value_window(d), ('"' as u8), 0) + 1,
            ),
        ),
        0 <= block_bounds(d).0 < block_bounds(d).1 <= d.len(),
        block_bounds(d).0 < rev_start(d) <= rev_end(d) < block_bounds(d).1,
        block_bounds(d).0 + rev_label_end(d) <= rev_start(d),
{
    lemma_has_first_match(d, block_label());
    lemma_delim_scan_bounds(
        d.subrange(block_label_end(d), d.len() as int),
        ('{' as u8),
        ('}' as u8),
        0,
        0,
    );
    lemma_has_first_match(block_window(d), rev_label());
    lemma_has_first_byte(value_window(d), ('"' as u8), 0);
    lemma_has_first_byte(
        value_window(d),
        ('"' as u8),
        first_byte_index(value_window(d), ('"' as u8), 0) + 1,
    );
}

/// A well-formed document accepts any replacement value of the same byte
/// length as the present one, and the rewritten document keeps the
/// original's byte length.
pub proof fn lemma_update_succeeds(d: Seq<u8>, nr: Seq<u8>)
    requires
        well_formed(d),
        nr.len() == rev_end(d) - rev_start(d),
    ensures
        rev_update_model(d, nr) matches RevUpdate::Updated(s) && s == updated_doc(d, nr),
        updated_doc(d, nr).len() == d.len(),
{
    lemma_landmark_bounds(d);
}

/// The rewritten document of a well-formed input is valid UTF-8 whenever
/// the input document and the replacement value are: the spliced-out value
/// sits between two quote bytes, which are ASCII, so both cuts fall on
/// character boundaries.
pub proof fn lemma_updated_doc_valid_utf8(d: Seq<u8>, nr: Seq<u8>)
    requires
        well_formed(d),
        valid_utf8(d),
        valid_utf8(nr),
    ensures
        valid_utf8(updated_doc(d, nr)),
{
    lemma_landmark_bounds(d);
    let a = rev_start(d);
    let b = rev_end(d);
    let bs = block_bounds(d).0;
    let q = rev_label_end(d);
    let vw = value_window(d);
    let p1 = first_byte_index(vw, ('"' as u8), 0);
    let p2 = first_byte_index(vw, ('"' as u8), p1 + 1);

    // The quote bytes stand at a - 1 and at b.
    assert(vw[p1] == ('"' as u8));
    assert(vw[p1] == block_window(d)[q + p1]);
    assert(block_window(d)[q + p1] == d[bs + q + p1]);
    assert(d[a - 1] == ('"' as u8));
    assert(vw[p2] == ('"' as u8));
    assert(vw[p2] == block_window(d)[q + p2]);
    assert(block_window(d)[q + p2] == d[bs + q + p2]);
    assert(d[b] == ('"' as u8));

    // b is a character boundary: the closing quote is no continuation byte.
    vstd::utf8::is_char_boundary_iff_not_is_continuation_byte(d, b);
    assert(vstd::utf8::is_char_boundary(d, b));

    // a is a character boundary: it follows the one-byte opening quote.
    vstd::utf8::is_char_boundary_iff_not_is_continuation_byte(d, a - 1);
    assert(vstd::utf8::is_char_boundary(d, a - 1));
    vstd::utf8::valid_utf8_split(d, a - 1);
    let tail = d.subrange(a - 1, d.len() as int);
    assert(valid_utf8(tail));
    assert(tail[0] == ('"' as u8));
    assert(vstd::utf8::valid_first_scalar(tail) && vstd::utf8::length_of_first_scalar(tail)
        == 1) by {
        reveal_with_fuel(vstd::utf8::valid_utf8, 2);
    }
    assert(vstd::utf8::is_char_boundary(tail, 1)) by {
        reveal_with_fuel(vstd::utf8::is_char_boundary, 2);
    }
    vstd::utf8::is_char_boundary_iff_not_is_continuation_byte(tail, 1);
    assert(!vstd::utf8::is_continuation_byte(tail[1]));
    assert(tail[1] == d[a]);
    vstd::utf8::is_char_boundary_iff_not_is_continuation_byte(d, a);
    assert(vstd::utf8::is_char_boundary(d, a));

    // Split the document at the two boundaries and put the replacement in
    // between: every piece is valid, so the whole is.
    vstd::utf8::valid_utf8_split(d, a);
    vstd::utf8::valid_utf8_split(d, b);
    let prefix = d.subrange(0, a);
    let suffix = d.subrange(b, d.len() as int);
    vstd::utf8::valid_utf8_concat(prefix, nr);
    vstd::utf8::valid_utf8_concat(prefix + nr, suffix);
    assert(updated_doc(d, nr) =~= (prefix + nr) + suffix);
}

/// Round trip: replacing the rev value of a well-formed document with a
/// same-length value that carries no brace or quote bytes, where the
/// present value carries no brace bytes, yields a well-formed document in
/// which every landmark stands at the same offset and the located rev
/// value is exactly the replacement.
pub proof fn lemma_round_trip(d: Seq<u8>, nr: Seq<u8>)
    requires
        well_formed(d),
        nr.len() == rev_end(d) - rev_start(d),
        forall|k: int| 0 <= k < nr.len()
            ==> nr[k] != ('{' as u8) && nr[k] != ('}' as u8) && nr[k] != ('"' as u8),
        forall|k: int| 0 <= k < rev_value(d).len()
            ==> rev_value(d)[k] != ('{' as u8) && rev_value(d)[k] != ('}' as u8),
    ensures
        ({
            let s = updated_doc(d, nr);
            &&& well_formed(s)
            &&& s.len() == d.len()
            &&& block_bounds(s) == block_bounds(d)
            &&& rev_start(s) == rev_start(d)
            &&& rev_end(s) == rev_end(d)
            &&& rev_value(s) == nr
        }),
{
    lemma_landmark_bounds(d);
    let s = updated_doc(d, nr);
    let bl = block_label();
    let rl = rev_label();
    let i = first_match_index(d, bl);
    let bs = block_bounds(d).0;
    let be = block_bounds(d).1;
    let q = rev_label_end(d);
    let a = rev_start(d);
    let b = rev_end(d);

    assert(s.len() == d.len());
    assert forall|k: int| 0 <= k < a implies s[k] == d[k] by {
        assert(s[k] == d.subrange(0, a)[k]);
    }
    assert forall|k: int| b <= k < d.len() implies s[k] == d[k] by {
        assert(s[k] == d.subrange(b, d.len() as int)[k - b]);
    }
    assert forall|k: int| a <= k < b implies s[k] == nr[k - a] by {
        assert(s[k] == nr[k - a]);
    }

    // The block label's first occurrence is unchanged.
    assert(i + bl.len() == bs);
    lemma_first_match_stable(d, s, bl, a, i);
    lemma_has_first_match(s, bl);
    lemma_first_match_unique(s, bl, i, first_match_index(s, bl));
    assert(block_label_end(s) == bs);

    // The delimiter scan sees the same brace pattern, so the block is
    // unchanged.
    let w1d = d.subrange(bs, d.len() as int);
    let w1s = s.subrange(bs, s.len() as int);
    assert forall|k: int| 0 <= k < w1d.len() implies ((w1d[k] == ('{' as u8)) <==> (w1s[k] == (
    '{' as u8))) && ((w1d[k] == ('}' as u8)) <==> (w1s[k] == ('}' as u8))) by {
        if a <= bs + k < b {
            assert(w1d[k] == d[bs + k]);
            assert(d[bs + k] == rev_value(d)[bs + k - a]);
            assert(w1s[k] == s[bs + k]);
            assert(s[bs + k] == nr[bs + k - a]);
        } else {
            assert(w1d[k] == d[bs + k] && w1s[k] == s[bs + k] && s[bs + k] == d[bs + k]);
        }
    }
    lemma_delim_scan_stable(w1d, w1s, ('{' as u8), ('}' as u8), 0, 0);
    assert(block_scan(s) == block_scan(d));
    assert(block_bounds(s) == block_bounds(d));
    let blk_d = block_window(d);
    let blk_s = block_window(s);

    // The rev label's first occurrence inside the block is unchanged.
    let m = first_match_index(blk_d, rl);
    assert forall|k: int| 0 <= k < a - bs implies blk_d[k] == blk_s[k] by {
        assert(blk_d[k] == d[bs + k] && blk_s[k] == s[bs + k]);
    }
    assert(m + rl.len() == q);
    assert(q + first_byte_index(value_window(d), ('"' as u8), 0) + 1 == a - bs);
    lemma_first_match_stable(blk_d, blk_s, rl, a - bs, m);
    lemma_has_first_match(blk_s, rl);
    lemma_first_match_unique(blk_s, rl, m, first_match_index(blk_s, rl));
    assert(rev_label_end(s) == q);

    // The first quote is unchanged; the second is the same closing quote,
    // because the replacement carries no quote bytes.
    let vw_d = value_window(d);
    let vw_s = value_window(s);
    let p1 = first_byte_index(vw_d, ('"' as u8), 0);
    let p2 = first_byte_index(vw_d, ('"' as u8), p1 + 1);
    assert(vw_s.len() == vw_d.len());
    assert forall|k: int| 0 <= k < p1 + 1 implies vw_d[k] == vw_s[k] by {
        assert(vw_d[k] == blk_d[q + k] && blk_d[q + k] == d[bs + q + k]);
        assert(vw_s[k] == blk_s[q + k] && blk_s[q + k] == s[bs + q + k]);
    }
    lemma_first_byte_stable(vw_d, vw_s, ('"' as u8), 0, p1 + 1, p1);
    lemma_has_first_byte(vw_s, ('"' as u8), 0);
    lemma_first_byte_unique(vw_s, ('"' as u8), 0, p1, first_byte_index(vw_s, ('"' as u8), 0));
    assert(is_first_byte_from(vw_s, ('"' as u8), p1 + 1, p2)) by {
        assert(vw_s[p2] == s[bs + q + p2] && s[bs + q + p2] == d[b]);
        assert(vw_d[p2] == d[bs + q + p2]);
        assert forall|j: int| p1 + 1 <= j < p2 implies vw_s[j] != ('"' as u8) by {
            assert(vw_s[j] == s[bs + q + j]);
            assert(s[bs + q + j] == nr[bs + q + j - a]);
        }
    }
    assert(has_byte_from(vw_s, ('"' as u8), p1 + 1));
    lemma_has_first_byte(vw_s, ('"' as u8), p1 + 1);
    lemma_first_byte_unique(
        vw_s,
        ('"' as u8),
        p1 + 1,
        p2,
        first_byte_index(vw_s, ('"' as u8), p1 + 1),
    );

    assert(rev_start(s) == a && rev_end(s) == b);
    assert(rev_value(s) =~= nr);
}

/// Get the brace-balanced block that follows the first `ultron = ` label
/// in the window: the label is searched for byte for byte, and the block
/// runs from just past the label through the closing brace that balances
/// the first opening one.
pub fn get_ultron_block<'t>(span: Span<'t>) -> (r: Result<Span<'t>, NixError>)
    ensures
        ({
            let w = span.window();
            if !has_match(w, block_label()) {
                r matches Err(e) && (e matches NixError::SpanError(se) && se
                    matches SpanError::NotFound(k) && k@ == "ultron = "@)
            } else {
                let s = first_match_index(w, block_label()) + block_label().len();
                match delim_scan(w.subrange(s, w.len() as int), ('{' as u8), ('}' as u8), 0, 0) {
                    DelimScan::Matched { at } => r matches Ok(b) && b.buf() == span.buf()
                        && b.spec_start() == span.spec_start() + s
                        && b.spec_end() == span.spec_start() + s + at + 1,
                    _ => r matches Err(e) && e == NixError::RevNotFound,
                }
            }
        }),
{
    let start_keyword = "ultron = ";
    let start_pos = match span.find(start_keyword) {
        Ok(p) => p,
        Err(e) => {
            return Err(NixError::SpanError(e));
        },
    };
    proof {
        use_type_invariant(&span);
        use_type_invariant(&start_pos);
        assert(start_pos.window() =~= span.window().subrange(
            first_match_index(span.window(), block_label()) + block_label().len(),
            span.window().len() as int,
        ));
    }
    match start_pos.get_matching_delimiters(('{' as u8), ('}' as u8)) {
        Ok(block) => Ok(block),
        Err(_) => Err(NixError::RevNotFound),
    }
}

/// Get the quoted value that follows the first `rev = ` label in the
/// window: the value runs strictly between the first pair of quote
/// characters after the label.
pub fn get_rev<'t>(span: Span<'t>) -> (r: Result<Span<'t>, NixError>)
    ensures
        ({
            let w = span.window();
            if !has_match(w, rev_label()) {
                r matches Err(e) && (e matches NixError::SpanError(se) && se
                    matches SpanError::NotFound(k) && k@ == "rev = "@)
            } else {
                let q = first_match_index(w, rev_label()) + rev_label().len();
                let vw = w.subrange(q, w.len() as int);
                let p1 = first_byte_index(vw, ('"' as u8), 0);
                let p2 = first_byte_index(vw, ('"' as u8), p1 + 1);
                if has_byte_from(vw, ('"' as u8), 0) && has_byte_from(vw, ('"' as u8), p1 + 1) {
                    r matches Ok(v) && v.buf() == span.buf()
                        && v.spec_start() == span.spec_start() + q + p1 + 1
                        && v.spec_end() == span.spec_start() + q + p2
                } else {
                    r matches Err(e) && e == NixError::RevNotFound
                }
            }
        }),
{
    let rev_keyword = "rev = ";
    let rev_pos = match span.find(rev_keyword) {
        Ok(p) => p,
        Err(e) => {
            return Err(NixError::SpanError(e));
        },
    };
    proof {
        use_type_invariant(&span);
        use_type_invariant(&rev_pos);
        assert(rev_pos.window() =~= span.window().subrange(
            first_match_index(span.window(), rev_label()) + rev_label().len(),
            span.window().len() as int,
        ));
    }
    match rev_pos.get_inner_delimiter(('"' as u8)) {
        Some(rev_span) => Ok(rev_span),
        None => Err(NixError::RevNotFound),
    }
}

/// Relies on `String::from_utf8`: the string it returns holds exactly the
/// bytes passed in, and it succeeds whenever those bytes are valid UTF-8.
#[verifier::external_body]
fn string_from_bytes(bytes: Vec<u8>) -> (r: Option<String>)
    ensures
        r matches Some(s) ==> encode_utf8(s@) == bytes@,
        valid_utf8(bytes@) ==> r is Some,
{
    String::from_utf8(bytes).ok()
}

/// Replace the pinned rev value of `input` with `new_rev`, which must have
/// the same byte length, and return the whole document rebuilt around it.
/// The first missing landmark decides the error, per
/// [`rev_update_model`]; the input text is never touched.
pub fn update_ultron_rev(input: &str, new_rev: &str) -> (r: Result<String, NixError>)
    ensures
        ({
            let d = input.spec_bytes();
            let nr = new_rev.spec_bytes();
            match rev_update_model(d, nr) {
                RevUpdate::Updated(s) => r matches Ok(out) && encode_utf8(out@) == s,
                RevUpdate::EmptyInput => r matches Err(e) && e == NixError::Empty,
                RevUpdate::KeyphraseMissing(k) => r matches Err(e) && (e
                    matches NixError::SpanError(se) && se matches SpanError::NotFound(p) && p@
                    == k),
                RevUpdate::BlockMissing => r matches Err(e) && e == NixError::RevNotFound,
                RevUpdate::QuoteMissing => r matches Err(e) && e == NixError::RevNotFound,
                RevUpdate::WrongLength { expected, found } => r matches Err(e) && (e
                    matches NixError::SpanError(se) && se
                    matches SpanError::ReplaceLengthMismatch { expected: ex, found: fo } && ex
                    == expected && fo == found),
            }
        }),
{
    let bytes: &[u8] = input.as_bytes();
    let flake_span = match Span::new(bytes, 0, bytes.len()) {
        Ok(s) => s,
        Err(_) => {
            proof {
                assert(false);
            }
            return Err(NixError::Empty);
        },
    };
    proof {
        assert(flake_span.window() =~= input.spec_bytes());
    }
    if flake_span.len() == 0 {
        return Err(NixError::Empty);
    }
    let ultron_block = match get_ultron_block(flake_span) {
        Ok(b) => b,
        Err(e) => {
            return Err(e);
        },
    };
    proof {
        assert(ultron_block.window() =~= block_window(input.spec_bytes()));
    }
    let rev_span = match get_rev(ultron_block) {
        Ok(v) => v,
        Err(e) => {
            return Err(e);
        },
    };
    proof {
        assert(rev_span.window() =~= rev_value(input.spec_bytes()));
    }
    let updated = match rev_span.replace(new_rev.as_bytes()) {
        Ok(v) => v,
        Err(e) => {
            return Err(NixError::SpanError(e));
        },
    };
    proof {
        assert(updated@ =~= updated_doc(input.spec_bytes(), new_rev.spec_bytes()));
    }
    match string_from_bytes(updated) {
        Some(s) => Ok(s),
        None => {
            proof {
                assert(well_formed(input.spec_bytes()));
                vstd::utf8::encode_utf8_valid_utf8(input@);
                vstd::utf8::encode_utf8_valid_utf8(new_rev@);
                lemma_updated_doc_valid_utf8(input.spec_bytes(), new_rev.spec_bytes());
                assert(false);
            }
            Err(NixError::BadRoot)
        },
    }
}

} // verus!
