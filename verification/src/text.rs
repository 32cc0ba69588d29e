//! Tools for manipulating text: an immutable window (span) over a shared
//! byte buffer, with keyword search, delimiter matching, and
//! length-preserving replacement.
//!
//! Offsets are byte offsets into the backing buffer. A span never mutates
//! the buffer: every operation returns a new span over the same buffer, and
//! `replace` returns a wholly new buffer.

use vstd::prelude::*;
use vstd::string::StringSliceAdditionalSpecFns;

verus! {

/// Failures of span construction and span operations.
#[derive(Debug, Clone, PartialEq, Eq)]
pub enum SpanError {
    /// An offset pair violates the span bounds invariant.
    OutOfRange,
    /// A required keyphrase is absent from the current window.
    NotFound(String),
    /// The replacement text's byte length differs from the span being
    /// replaced.
    ReplaceLengthMismatch { expected: usize, found: usize },
    /// A delimiter scan saw a closing delimiter while none was open, or ran
    /// out of text before an opening delimiter was balanced.
    UnbalancedDelimiters,
}

/// `needle` occurs byte-for-byte in `hay` at position `i`.
pub open spec fn is_match_at(hay: Seq<u8>, needle: Seq<u8>, i: int) -> bool {
    0 <= i && i + needle.len() <= hay.len() && hay.subrange(i, i + needle.len()) == needle
}

/// `needle` occurs somewhere in `hay`.
pub open spec fn has_match(hay: Seq<u8>, needle: Seq<u8>) -> bool {
    exists|i: int| is_match_at(hay, needle, i)
}

/// `i` is the position of the first occurrence of `needle` in `hay`.
pub open spec fn is_first_match_at(hay: Seq<u8>, needle: Seq<u8>, i: int) -> bool {
    is_match_at(hay, needle, i) && forall|j: int| 0 <= j < i ==> !is_match_at(hay, needle, j)
}

/// The position of the first occurrence of `needle` in `hay`; meaningful
/// only when `has_match(hay, needle)` holds.
pub open spec fn first_match_index(hay: Seq<u8>, needle: Seq<u8>) -> int {
    choose|i: int| is_first_match_at(hay, needle, i)
}

/// Two positions that are both a first occurrence are the same position.
pub proof fn lemma_first_match_unique(hay: Seq<u8>, needle: Seq<u8>, i: int, j: int)
    requires
        is_first_match_at(hay, needle, i),
        is_first_match_at(hay, needle, j),
    ensures
        i == j,
{
    if i < j {
        assert(!is_match_at(hay, needle, i));
    }
    if j < i {
        assert(!is_match_at(hay, needle, j));
    }
}

proof fn lemma_some_first_match(hay: Seq<u8>, needle: Seq<u8>, i: int)
    requires
        is_match_at(hay, needle, i),
    ensures
        exists|f: int| is_first_match_at(hay, needle, f),
    decreases i,
{
    if forall|j: int| 0 <= j < i ==> !is_match_at(hay, needle, j) {
        assert(is_first_match_at(hay, needle, i));
    } else {
        let j = choose|j: int| 0 <= j < i && is_match_at(hay, needle, j);
        lemma_some_first_match(hay, needle, j);
    }
}

/// Where `needle` occurs at all, `first_match_index` names a genuine first
/// occurrence.
pub proof fn lemma_has_first_match(hay: Seq<u8>, needle: Seq<u8>)
    requires
        has_match(hay, needle),
    ensures
        is_first_match_at(hay, needle, first_match_index(hay, needle)),
{
    let i = choose|i: int| is_match_at(hay, needle, i);
    lemma_some_first_match(hay, needle, i);
}

/// First occurrences agree between two buffers that agree on a prefix long
/// enough to hold the occurrence.
pub proof fn lemma_first_match_stable(s1: Seq<u8>, s2: Seq<u8>, needle: Seq<u8>, c: int, i: int)
    requires
        c <= s1.len(),
        c <= s2.len(),
        forall|k: int| 0 <= k < c ==> s1[k] == s2[k],
        is_first_match_at(s1, needle, i),
        i + needle.len() <= c,
    ensures
        is_first_match_at(s2, needle, i),
{
    assert(s2.subrange(i, i + needle.len()) =~= needle) by {
        assert(forall|k: int| 0 <= k < needle.len()
            ==> s1.subrange(i, i + needle.len())[k] == needle[k]);
    }
    assert forall|j: int| 0 <= j < i implies !is_match_at(s2, needle, j) by {
        if is_match_at(s2, needle, j) {
            assert(s1.subrange(j, j + needle.len()) =~= needle) by {
                assert(forall|k: int| 0 <= k < needle.len()
                    ==> s2.subrange(j, j + needle.len())[k] == needle[k]);
            }
            assert(is_match_at(s1, needle, j));
        }
    }
}

/// `i` is the position of the first occurrence of byte `d` in `w` at or
/// after position `from`.
pub open spec fn is_first_byte_from(w: Seq<u8>, d: u8, from: int, i: int) -> bool {
    from <= i < w.len() && w[i] == d && forall|j: int| from <= j < i ==> w[j] != d
}

/// Byte `d` occurs in `w` at or after position `from`.
pub open spec fn has_byte_from(w: Seq<u8>, d: u8, from: int) -> bool {
    exists|i: int| from <= i < w.len() && w[i] == d
}

/// The position of the first occurrence of byte `d` in `w` at or after
/// `from`; meaningful only when `has_byte_from(w, d, from)` holds.
pub open spec fn first_byte_index(w: Seq<u8>, d: u8, from: int) -> int {
    choose|i: int| is_first_byte_from(w, d, from, i)
}

/// Two positions that are both a first occurrence of `d` are the same.
pub proof fn lemma_first_byte_unique(w: Seq<u8>, d: u8, from: int, i: int, j: int)
    requires
        is_first_byte_from(w, d, from, i),
        is_first_byte_from(w, d, from, j),
    ensures
        i == j,
{
}

proof fn lemma_some_first_byte(w: Seq<u8>, d: u8, from: int, i: int)
    requires
        from <= i < w.len(),
        w[i] == d,
    ensures
        exists|f: int| is_first_byte_from(w, d, from, f),
    decreases i - from,
{
    if forall|j: int| from <= j < i ==> w[j] != d {
        assert(is_first_byte_from(w, d, from, i));
    } else {
        let j = choose|j: int| from <= j < i && w[j] == d;
        lemma_some_first_byte(w, d, from, j);
    }
}

/// Where byte `d` occurs at all at or after `from`, `first_byte_index`
/// names a genuine first occurrence.
pub proof fn lemma_has_first_byte(w: Seq<u8>, d: u8, from: int)
    requires
        has_byte_from(w, d, from),
    ensures
        is_first_byte_from(w, d, from, first_byte_index(w, d, from)),
{
    let i = choose|i: int| from <= i < w.len() && w[i] == d;
    lemma_some_first_byte(w, d, from, i);
}

/// First occurrences of a byte agree between two buffers that agree on a
/// prefix long enough to hold the occurrence.
pub proof fn lemma_first_byte_stable(s1: Seq<u8>, s2: Seq<u8>, d: u8, from: int, c: int, i: int)
    requires
        c <= s1.len(),
        c <= s2.len(),
        forall|k: int| 0 <= k < c ==> s1[k] == s2[k],
        is_first_byte_from(s1, d, from, i),
        i < c,
        0 <= from,
    ensures
        is_first_byte_from(s2, d, from, i),
{
}

/// Outcome of scanning a window for a balanced delimiter run.
pub enum DelimScan {
    /// The closing delimiter that balances the first opening one stands at
    /// this window position.
    Matched { at: int },
    /// A closing delimiter stood at this window position while no opening
    /// delimiter was pending.
    Underflow { at: int },
    /// The window ended before the delimiters balanced.
    Exhausted,
}

/// One pass over `w` from position `pos` with `depth` opening delimiters
/// pending: depth rises on `open`, falls on `close`, and the scan stops at
/// the close that returns it to zero. When `open == close`, every
/// occurrence counts as an opening delimiter.
pub open spec fn delim_scan(w: Seq<u8>, open_delimiter: u8, close_delimiter: u8, pos: int, depth: int) -> DelimScan
    decreases w.len() - pos,
{
    if pos < 0 || pos >= w.len() {
        DelimScan::Exhausted
    } else if w[pos] == open_delimiter {
        delim_scan(w, open_delimiter, close_delimiter, pos + 1, depth + 1)
    } else if w[pos] == close_delimiter {
        if depth == 1 {
            DelimScan::Matched { at: pos }
        } else if depth <= 0 {
            DelimScan::Underflow { at: pos }
        } else {
            delim_scan(w, open_delimiter, close_delimiter, pos + 1, depth - 1)
        }
    } else {
        delim_scan(w, open_delimiter, close_delimiter, pos + 1, depth)
    }
}

/// Net delimiter depth of the first `n` bytes of `w`: the number of
/// `open_delimiter` bytes minus the number of `close_delimiter` bytes,
/// counted the way the scan counts them.
pub open spec fn delim_depth(w: Seq<u8>, open_delimiter: u8, close_delimiter: u8, n: int) -> int
    decreases n,
{
    if n <= 0 || n > w.len() {
        0
    } else {
        delim_depth(w, open_delimiter, close_delimiter, n - 1) + (if w[n - 1] == open_delimiter {
            1int
        } else if w[n - 1] == close_delimiter {
            -1int
        } else {
            0int
        })
    }
}

/// A scan that matches or underflows stops inside the window, on a closing
/// delimiter.
pub proof fn lemma_delim_scan_bounds(w: Seq<u8>, o: u8, c: u8, pos: int, depth: int)
    requires
        0 <= pos,
    ensures
        match delim_scan(w, o, c, pos, depth) {
            DelimScan::Matched { at } => pos <= at < w.len() && w[at] == c,
            DelimScan::Underflow { at } => pos <= at < w.len() && w[at] == c,
            DelimScan::Exhausted => true,
        },
    decreases w.len() - pos,
{
    if pos < w.len() {
        if w[pos] == o {
            lemma_delim_scan_bounds(w, o, c, pos + 1, depth + 1);
        } else if w[pos] == c {
            if depth > 1 {
                lemma_delim_scan_bounds(w, o, c, pos + 1, depth - 1);
            }
        } else {
            lemma_delim_scan_bounds(w, o, c, pos + 1, depth);
        }
    }
}

/// A matched scan ends with the net depth back at zero: the window's bytes
/// through the matched closing delimiter hold balanced nesting.
pub proof fn lemma_delim_scan_matched_balanced(w: Seq<u8>, o: u8, c: u8, pos: int, depth: int)
    requires
        0 <= pos <= w.len(),
        depth == delim_depth(w, o, c, pos),
    ensures
        match delim_scan(w, o, c, pos, depth) {
            DelimScan::Matched { at } => delim_depth(w, o, c, at + 1) == 0,
            _ => true,
        },
    decreases w.len() - pos,
{
    if pos < w.len() {
        if w[pos] == o {
            lemma_delim_scan_matched_balanced(w, o, c, pos + 1, depth + 1);
        } else if w[pos] == c {
            if depth > 1 {
                lemma_delim_scan_matched_balanced(w, o, c, pos + 1, depth - 1);
            }
        } else {
            lemma_delim_scan_matched_balanced(w, o, c, pos + 1, depth);
        }
    }
}

/// The content a matched scan selects — the window's bytes through the
/// matched close — ends on the closing delimiter and carries balanced
/// nesting: its net delimiter depth is zero.
pub proof fn lemma_matched_content_balanced(w: Seq<u8>, o: u8, c: u8)
    requires
        delim_scan(w, o, c, 0, 0) is Matched,
    ensures
        match delim_scan(w, o, c, 0, 0) {
            DelimScan::Matched { at } => 0 <= at < w.len() && w[at] == c && delim_depth(
                w,
                o,
                c,
                at + 1,
            ) == 0,
            _ => true,
        },
{
    lemma_delim_scan_bounds(w, o, c, 0, 0);
    lemma_delim_scan_matched_balanced(w, o, c, 0, 0);
}

/// Delimiter scans agree between two windows of the same length whose
/// bytes agree on where the two delimiters stand.
pub proof fn lemma_delim_scan_stable(w1: Seq<u8>, w2: Seq<u8>, o: u8, c: u8, pos: int, depth: int)
    requires
        w1.len() == w2.len(),
        forall|k: int| 0 <= k < w1.len()
            ==> ((w1[k] == o) <==> (w2[k] == o)) && ((w1[k] == c) <==> (w2[k] == c)),
    ensures
        delim_scan(w1, o, c, pos, depth) == delim_scan(w2, o, c, pos, depth),
    decreases w1.len() - pos,
{
    if 0 <= pos < w1.len() {
        if w1[pos] == o {
            lemma_delim_scan_stable(w1, w2, o, c, pos + 1, depth + 1);
        } else if w1[pos] == c {
            if depth > 1 {
                lemma_delim_scan_stable(w1, w2, o, c, pos + 1, depth - 1);
            }
        } else {
            lemma_delim_scan_stable(w1, w2, o, c, pos + 1, depth);
        }
    }
}

/// `needle` occurs in `hay` at position `i`; checked byte for byte.
fn bytes_match_at(hay: &[u8], needle: &[u8], i: usize) -> (r: bool)
    requires
        i + needle@.len() <= hay@.len(),
    ensures
        r == is_match_at(hay@, needle@, i as int),
{
    let n = needle.len();
    let h = hay.len();
    let mut j: usize = 0;
    while j < n
        invariant
            j <= n,
            n == needle@.len(),
            h == hay@.len(),
            i + n <= hay@.len(),
            forall|k: int| 0 <= k < j ==> hay@[i + k] == needle@[k],
        decreases n - j,
    {
        if hay[i + j] != needle[j] {
            proof {
                assert(hay@.subrange(i as int, i + n) != needle@) by {
                    assert(hay@.subrange(i as int, i + n)[j as int] == hay@[i + j]);
                }
            }
            return false;
        }
        j += 1;
    }
    proof {
        assert(hay@.subrange(i as int, i + n) =~= needle@);
    }
    true
}

/// Position of the first occurrence of `needle` in `hay`, if any.
fn find_sub(hay: &[u8], needle: &[u8]) -> (r: Option<usize>)
    ensures
        match r {
            Some(i) => is_first_match_at(hay@, needle@, i as int),
            None => !has_match(hay@, needle@),
        },
{
    let n = needle.len();
    let h = hay.len();
    if n > h {
        return None;
    }
    if n == 0 {
        proof {
            assert(hay@.subrange(0, 0) =~= needle@);
        }
        return Some(0);
    }
    let mut i: usize = 0;
    while i <= h - n
        invariant
            1 <= n <= h,
            h == hay@.len(),
            n == needle@.len(),
            i <= h - n + 1,
            forall|j: int| 0 <= j < i ==> !is_match_at(hay@, needle@, j),
        decreases h - i,
    {
        if bytes_match_at(hay, needle, i) {
            return Some(i);
        }
        i += 1;
    }
    None
}

/// Position of the first occurrence of byte `d` in `w` at or after `from`,
/// if any.
fn find_byte(w: &[u8], d: u8, from: usize) -> (r: Option<usize>)
    requires
        from <= w@.len(),
    ensures
        match r {
            Some(i) => is_first_byte_from(w@, d, from as int, i as int),
            None => !has_byte_from(w@, d, from as int),
        },
{
    let mut i: usize = from;
    while i < w.len()
        invariant
            from <= i <= w@.len(),
            forall|j: int| from <= j < i ==> w@[j] != d,
        decreases w@.len() - i,
    {
        if w[i] == d {
            return Some(i);
        }
        i += 1;
    }
    None
}

/// Push every byte of `src` onto the end of `out`.
fn append_bytes(out: &mut Vec<u8>, src: &[u8])
    ensures
        final(out)@ == old(out)@ + src@,
{
    let mut i: usize = 0;
    while i < src.len()
        invariant
            i <= src@.len(),
            out@ == old(out)@ + src@.subrange(0, i as int),
        decreases src@.len() - i,
    {
        out.push(src[i]);
        proof {
            assert(out@ =~= old(out)@ + src@.subrange(0, i + 1));
        }
        i += 1;
    }
    proof {
        assert(src@.subrange(0, src@.len() as int) =~= src@);
    }
}

/// An immutable window into a backing byte buffer: the buffer reference and
/// a pair of byte offsets. Every operation that "moves" a span produces a
/// new span over the same buffer; the buffer itself is never touched.
#[derive(Debug, Clone, Copy)]
pub struct Span<'t> {
    text: &'t [u8],
    start: usize,
    end: usize,
}

impl<'t> Span<'t> {
    /// The whole backing buffer.
    pub closed spec fn buf(self) -> Seq<u8> {
        self.text@
    }

    /// Start offset of the window, in bytes from the buffer's beginning.
    pub closed spec fn spec_start(self) -> int {
        self.start as int
    }

    /// End offset of the window (exclusive), in bytes.
    pub closed spec fn spec_end(self) -> int {
        self.end as int
    }

    /// Bounds invariant: the offsets are ordered and fall inside the buffer.
    #[verifier::type_invariant]
    pub open spec fn wf(self) -> bool {
        0 <= self.spec_start() <= self.spec_end() <= self.buf().len()
    }

    /// The bytes the window currently exposes.
    pub open spec fn window(self) -> Seq<u8> {
        self.buf().subrange(self.spec_start(), self.spec_end())
    }

    /// Number of bytes in the window.
    pub open spec fn spec_len(self) -> int {
        self.spec_end() - self.spec_start()
    }

    /// Make a span over `text` from the offset pair `start..end`.
    pub fn new(text: &'t [u8], start: usize, end: usize) -> (r: Result<Span<'t>, SpanError>)
        ensures
            start <= end <= text@.len() ==> (r matches Ok(s)
                && s.buf() == text@
                && s.spec_start() == start
                && s.spec_end() == end),
            !(start <= end <= text@.len()) ==> (r matches Err(e) && e == SpanError::OutOfRange),
    {
        if start > end || end > text.len() {
            return Err(SpanError::OutOfRange);
        }
        Ok(Span { text, start, end })
    }

    /// Narrow the window to `start_offset..end_offset`, both relative to
    /// the window's current start, against the same backing buffer.
    pub fn slice(self, start_offset: usize, end_offset: usize) -> (r: Result<Span<'t>, SpanError>)
        ensures
            (start_offset <= end_offset
                && self.spec_start() + end_offset <= self.buf().len()) ==> (r matches Ok(s)
                && s.buf() == self.buf()
                && s.spec_start() == self.spec_start() + start_offset
                && s.spec_end() == self.spec_start() + end_offset),
            !(start_offset <= end_offset
                && self.spec_start() + end_offset <= self.buf().len()) ==> (r matches Err(e)
                && e == SpanError::OutOfRange),
    {
        proof {
            use_type_invariant(&self);
        }
        let text_len = self.text.len();
        if end_offset > text_len - self.start || start_offset > end_offset {
            return Err(SpanError::OutOfRange);
        }
        Ok(Span { text: self.text, start: self.start + start_offset, end: self.start + end_offset })
    }

    /// Fast-forward the window's start to just past the first occurrence of
    /// `keyphrase`; the end stays where it was. Fails with
    /// `NotFound(keyphrase)` when the window holds no occurrence.
    pub fn find(self, keyphrase: &str) -> (r: Result<Span<'t>, SpanError>)
        ensures
            match r {
                Ok(s) => has_match(self.window(), keyphrase.spec_bytes())
                    && is_first_match_at(
                        self.window(),
                        keyphrase.spec_bytes(),
                        first_match_index(self.window(), keyphrase.spec_bytes()),
                    )
                    && s.buf() == self.buf()
                    && s.spec_end() == self.spec_end()
                    && s.spec_start() == self.spec_start()
                        + first_match_index(self.window(), keyphrase.spec_bytes())
                        + keyphrase.spec_bytes().len(),
                Err(e) => !has_match(self.window(), keyphrase.spec_bytes())
                    && (e matches SpanError::NotFound(p) && p@ == keyphrase@),
            },
    {
        proof {
            use_type_invariant(&self);
        }
        let w = self.as_str();
        let kb: &[u8] = keyphrase.as_bytes();
        match find_sub(w, kb) {
            Some(pos) => {
                proof {
                    lemma_first_match_unique(
                        self.window(),
                        keyphrase.spec_bytes(),
                        pos as int,
                        first_match_index(self.window(), keyphrase.spec_bytes()),
                    );
                }
                Ok(Span { text: self.text, start: self.start + pos + kb.len(), end: self.end })
            },
            None => Err(SpanError::NotFound(keyphrase.to_owned())),
        }
    }

    /// Scan forward from the window's start, counting nesting depth of the
    /// two delimiters, and return the sub-window from the start through the
    /// closing delimiter that balances the first opening one, inclusive.
    /// Fails with `UnbalancedDelimiters` when a closing delimiter appears
    /// while none is open, or when the window ends before the depth returns
    /// to zero.
    pub fn get_matching_delimiters(self, open_delimiter: u8, close_delimiter: u8) -> (r: Result<
        Span<'t>,
        SpanError,
    >)
        ensures
            match delim_scan(self.window(), open_delimiter, close_delimiter, 0, 0) {
                DelimScan::Matched { at } => r matches Ok(s)
                    && s.buf() == self.buf()
                    && s.spec_start() == self.spec_start()
                    && s.spec_end() == self.spec_start() + at + 1,
                DelimScan::Underflow { at } => r matches Err(e)
                    && e == SpanError::UnbalancedDelimiters,
                DelimScan::Exhausted => r matches Err(e) && e == SpanError::UnbalancedDelimiters,
            },
    {
        proof {
            use_type_invariant(&self);
        }
        let w = self.as_str();
        let ghost ws = self.window();
        let mut depth: usize = 0;
        let mut i: usize = 0;
        while i < w.len()
            invariant
                w@ == ws,
                ws == self.window(),
                i <= ws.len(),
                depth <= i,
                self.wf(),
                w@.len() == self.spec_len(),
                delim_scan(ws, open_delimiter, close_delimiter, 0, 0) == delim_scan(
                    ws,
                    open_delimiter,
                    close_delimiter,
                    i as int,
                    depth as int,
                ),
            decreases ws.len() - i,
        {
            let b = w[i];
            if b == open_delimiter {
                proof {
                    assert(delim_scan(ws, open_delimiter, close_delimiter, i as int, depth as int)
                        == delim_scan(
                        ws,
                        open_delimiter,
                        close_delimiter,
                        i as int + 1,
                        depth as int + 1,
                    ));
                }
                depth = depth + 1;
                i = i + 1;
            } else if b == close_delimiter {
                if depth == 1 {
                    proof {
                        assert(delim_scan(
                            ws,
                            open_delimiter,
                            close_delimiter,
                            i as int,
                            depth as int,
                        ) == DelimScan::Matched { at: i as int });
                    }
                    return Ok(Span { text: self.text, start: self.start, end: self.start + i + 1 });
                } else if depth == 0 {
                    proof {
                        assert(delim_scan(
                            ws,
                            open_delimiter,
                            close_delimiter,
                            i as int,
                            depth as int,
                        ) == DelimScan::Underflow { at: i as int });
                    }
                    return Err(SpanError::UnbalancedDelimiters);
                } else {
                    proof {
                        assert(delim_scan(
                            ws,
                            open_delimiter,
                            close_delimiter,
                            i as int,
                            depth as int,
                        ) == delim_scan(
                            ws,
                            open_delimiter,
                            close_delimiter,
                            i as int + 1,
                            depth as int - 1,
                        ));
                    }
                    depth = depth - 1;
                    i = i + 1;
                }
            } else {
                proof {
                    assert(delim_scan(ws, open_delimiter, close_delimiter, i as int, depth as int)
                        == delim_scan(
                        ws,
                        open_delimiter,
                        close_delimiter,
                        i as int + 1,
                        depth as int,
                    ));
                }
                i = i + 1;
            }
        }
        proof {
            assert(delim_scan(ws, open_delimiter, close_delimiter, i as int, depth as int)
                == DelimScan::Exhausted);
        }
        Err(SpanError::UnbalancedDelimiters)
    }

    /// Find the first occurrence of `delimiter`, then the first occurrence
    /// after that, and return the window strictly between them, both
    /// delimiters excluded. Returns `None` when the window holds fewer than
    /// two occurrences.
    pub fn get_inner_delimiter(self, delimiter: u8) -> (r: Option<Span<'t>>)
        ensures
            ({
                let w = self.window();
                let p1 = first_byte_index(w, delimiter, 0);
                let p2 = first_byte_index(w, delimiter, p1 + 1);
                match r {
                    Some(s) => has_byte_from(w, delimiter, 0)
                        && has_byte_from(w, delimiter, p1 + 1)
                        && is_first_byte_from(w, delimiter, 0, p1)
                        && is_first_byte_from(w, delimiter, p1 + 1, p2)
                        && s.buf() == self.buf()
                        && s.spec_start() == self.spec_start() + p1 + 1
                        && s.spec_end() == self.spec_start() + p2,
                    None => !has_byte_from(w, delimiter, 0)
                        || !has_byte_from(w, delimiter, p1 + 1),
                }
            }),
    {
        proof {
            use_type_invariant(&self);
        }
        let w = self.as_str();
        let p1 = match find_byte(w, delimiter, 0) {
            Some(p) => p,
            None => {
                return None;
            },
        };
        proof {
            lemma_first_byte_unique(
                self.window(),
                delimiter,
                0,
                p1 as int,
                first_byte_index(self.window(), delimiter, 0),
            );
        }
        let p2 = match find_byte(w, delimiter, p1 + 1) {
            Some(p) => p,
            None => {
                return None;
            },
        };
        proof {
            lemma_first_byte_unique(
                self.window(),
                delimiter,
                p1 + 1,
                p2 as int,
                first_byte_index(self.window(), delimiter, p1 + 1),
            );
        }
        Some(Span { text: self.text, start: self.start + p1 + 1, end: self.start + p2 })
    }

    /// Replace the window's contents with `new_text`, whose byte length
    /// must equal the window's, and return the whole buffer rebuilt around
    /// it as a new owned value. Fails with `ReplaceLengthMismatch` when the
    /// lengths differ; the backing buffer is never touched.
    pub fn replace(&self, new_text: &[u8]) -> (r: Result<Vec<u8>, SpanError>)
        ensures
            new_text@.len() == self.spec_len() ==> (r matches Ok(v)
                && v@ == self.buf().subrange(0, self.spec_start())
                    + new_text@
                    + self.buf().subrange(self.spec_end(), self.buf().len() as int)),
            new_text@.len() != self.spec_len() ==> (r matches Err(e)
                && e matches SpanError::ReplaceLengthMismatch { expected, found }
                && expected == self.spec_len()
                && found == new_text@.len()),
    {
        proof {
            use_type_invariant(self);
        }
        if self.len() != new_text.len() {
            return Err(
                SpanError::ReplaceLengthMismatch { expected: self.len(), found: new_text.len() },
            );
        }
        let mut result: Vec<u8> = Vec::new();
        append_bytes(&mut result, vstd::slice::slice_subrange(self.text, 0, self.start));
        append_bytes(&mut result, new_text);
        append_bytes(&mut result, vstd::slice::slice_subrange(self.text, self.end, self.text.len()));
        Ok(result)
    }

    /// Number of bytes in the window.
    pub fn len(&self) -> (r: usize)
        ensures
            r == self.spec_len(),
    {
        proof {
            use_type_invariant(self);
        }
        self.end - self.start
    }

    /// The window's bytes, borrowed from the backing buffer.
    pub fn as_str(&self) -> (r: &'t [u8])
        ensures
            r@ == self.window(),
    {
        proof {
            use_type_invariant(self);
        }
        vstd::slice::slice_subrange(self.text, self.start, self.end)
    }
}

impl<'t> From<&'t [u8]> for Span<'t> {
    /// A span over the whole of `text`.
    fn from(text: &'t [u8]) -> (r: Span<'t>) {
        Span { text, start: 0, end: text.len() }
    }
}

impl<'t> vstd::std_specs::convert::FromSpecImpl<&'t [u8]> for Span<'t> {
    open spec fn obeys_from_spec() -> bool {
        true
    }

    closed spec fn from_spec(text: &'t [u8]) -> Span<'t> {
        Span { text, start: 0, end: text@.len() as usize }
    }
}

/// What `Span::from` yields: the window over the whole of `text`.
pub proof fn lemma_span_from(text: &[u8])
    ensures
        ({
            let s = <Span as vstd::std_specs::convert::FromSpec<&[u8]>>::from_spec(text);
            s.buf() == text@ && s.spec_start() == 0 && s.spec_end() == text@.len()
        }),
{
    broadcast use vstd::slice::axiom_spec_len;

    assert(vstd::slice::spec_slice_len(text) == text@.len());
}

} // verus!
