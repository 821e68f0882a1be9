//! The scanner: a single forward pass over a text buffer that dispatches on
//! the current character and produces the token sequence described by the
//! specification functions in this module.
//!
//! The whole scan is modelled by [`spec_scan`], a recursive function over the
//! buffer's character sequence and a cursor; the executable scanner is proved
//! to produce exactly the tokens that model describes.

use vstd::prelude::*;

use crate::token::{eof_view, views, Tag, TagView, Token, TokenView};

verus! {

// ---------------------------------------------------------------------------
// Character classes
// ---------------------------------------------------------------------------

/// Whitespace skipped between the lines of a list: tab, carriage return and
/// space, but not the line terminator itself.
pub open spec fn is_line_ws(c: char) -> bool {
    c == '\t' || c == '\r' || c == ' '
}

/// The whitespace characters the dialect speaks of: tab, space, carriage
/// return and newline.  Token text is trimmed of these on both sides.
pub open spec fn is_ws(c: char) -> bool {
    is_line_ws(c) || c == '\n'
}

/// The predicate of characters other than the line terminator, as a value,
/// so that every span computation names the same function.
pub open spec fn not_newline() -> spec_fn(char) -> bool {
    |c: char| c != '\n'
}

/// The hash-marker predicate as a value.
pub open spec fn is_hash() -> spec_fn(char) -> bool {
    |c: char| c == '#'
}

/// The line-whitespace predicate as a value.
pub open spec fn line_ws() -> spec_fn(char) -> bool {
    |c: char| is_line_ws(c)
}

/// The whitespace predicate as a value.
pub open spec fn ws() -> spec_fn(char) -> bool {
    |c: char| is_ws(c)
}

// ---------------------------------------------------------------------------
// Span computations
// ---------------------------------------------------------------------------

/// The first position at or after `i` whose character fails `p`, or the
/// buffer length when every remaining character satisfies `p`.
pub open spec fn span_end(s: Seq<char>, i: int, p: spec_fn(char) -> bool) -> int
    recommends
        0 <= i <= s.len(),
    decreases s.len() - i,
{
    if i < 0 || i >= s.len() {
        s.len() as int
    } else if !p(s[i]) {
        i
    } else {
        span_end(s, i + 1, p)
    }
}

/// Walking left from `j`: the least position `k <= j` such that every
/// character in `[k, j)` satisfies `p`, stopping at a character that fails
/// `p` or at the start of the buffer.
pub open spec fn span_start(s: Seq<char>, j: int, p: spec_fn(char) -> bool) -> int
    recommends
        0 <= j <= s.len(),
    decreases j,
{
    if j <= 0 {
        0
    } else if !p(s[j - 1]) {
        j
    } else {
        span_start(s, j - 1, p)
    }
}

/// The position of the next newline at or after `i`, or the buffer length
/// when the line is not terminated.
pub open spec fn line_end(s: Seq<char>, i: int) -> int {
    span_end(s, i, not_newline())
}

pub proof fn lemma_span_end(s: Seq<char>, i: int, p: spec_fn(char) -> bool)
    requires
        0 <= i <= s.len(),
    ensures
        i <= span_end(s, i, p) <= s.len(),
        forall|j: int| i <= j < span_end(s, i, p) ==> p(#[trigger] s[j]),
        span_end(s, i, p) < s.len() ==> !p(s[span_end(s, i, p)]),
    decreases s.len() - i,
{
    if i < s.len() && p(s[i]) {
        lemma_span_end(s, i + 1, p);
    }
}

/// `span_end` is the unique position with an all-`p` span before it and a
/// failing character (or the buffer end) at it.
pub proof fn lemma_span_end_is(s: Seq<char>, i: int, p: spec_fn(char) -> bool, j: int)
    requires
        0 <= i <= j <= s.len(),
        forall|k: int| i <= k < j ==> p(#[trigger] s[k]),
        j < s.len() ==> !p(s[j]),
    ensures
        span_end(s, i, p) == j,
    decreases j - i,
{
    if i < j {
        lemma_span_end_is(s, i + 1, p, j);
    }
}

pub proof fn lemma_span_start(s: Seq<char>, j: int, p: spec_fn(char) -> bool)
    requires
        0 <= j <= s.len(),
    ensures
        0 <= span_start(s, j, p) <= j,
        forall|k: int| span_start(s, j, p) <= k < j ==> p(#[trigger] s[k]),
        span_start(s, j, p) > 0 ==> !p(s[span_start(s, j, p) - 1]),
    decreases j,
{
    if j > 0 && p(s[j - 1]) {
        lemma_span_start(s, j - 1, p);
    }
}

/// `span_start` is the unique position with an all-`p` span after it and a
/// failing character (or the buffer start) before it.
pub proof fn lemma_span_start_is(s: Seq<char>, j: int, p: spec_fn(char) -> bool, k: int)
    requires
        0 <= k <= j <= s.len(),
        forall|m: int| k <= m < j ==> p(#[trigger] s[m]),
        k > 0 ==> !p(s[k - 1]),
    ensures
        span_start(s, j, p) == k,
    decreases j - k,
{
    if k < j {
        lemma_span_start_is(s, j - 1, p, k);
    }
}

// ---------------------------------------------------------------------------
// Trimming
// ---------------------------------------------------------------------------

/// `s` with its leading and trailing whitespace removed; empty when `s` is
/// all whitespace.
pub open spec fn trimmed(s: Seq<char>) -> Seq<char> {
    let lo = span_end(s, 0, ws());
    let hi = span_start(s, s.len() as int, ws());
    if lo <= hi {
        s.subrange(lo, hi)
    } else {
        Seq::<char>::empty()
    }
}

/// A buffer of nothing but whitespace trims to the empty sequence.
pub proof fn lemma_trimmed_all_ws(s: Seq<char>)
    requires
        forall|i: int| 0 <= i < s.len() ==> is_ws(#[trigger] s[i]),
    ensures
        trimmed(s) == Seq::<char>::empty(),
{
    lemma_span_end_is(s, 0, ws(), s.len() as int);
    lemma_span_start(s, s.len() as int, ws());
    if span_start(s, s.len() as int, ws()) < s.len() {
        assert(trimmed(s) =~= Seq::<char>::empty());
    }
}

/// When a whitespace prefix ends at `lo`, a whitespace suffix starts at
/// `hi`, and the characters just inside are not whitespace, the trim is
/// exactly the span `[lo, hi)`.
pub proof fn lemma_trimmed_is(s: Seq<char>, lo: int, hi: int)
    requires
        0 <= lo < hi <= s.len(),
        forall|i: int| 0 <= i < lo ==> is_ws(#[trigger] s[i]),
        forall|i: int| hi <= i < s.len() ==> is_ws(#[trigger] s[i]),
        !is_ws(s[lo]),
        !is_ws(s[hi - 1]),
    ensures
        trimmed(s) == s.subrange(lo, hi),
{
    lemma_span_end_is(s, 0, ws(), lo);
    lemma_span_start_is(s, s.len() as int, ws(), hi);
}

/// Dropping a whitespace prefix does not change the trim.
pub proof fn lemma_trimmed_ws_prefix(s: Seq<char>, k: int)
    requires
        0 <= k <= s.len(),
        forall|i: int| 0 <= i < k ==> is_ws(#[trigger] s[i]),
    ensures
        trimmed(s.subrange(k, s.len() as int)) == trimmed(s),
{
    let t = s.subrange(k, s.len() as int);
    let lo = span_end(s, k, ws());
    lemma_span_end(s, k, ws());
    if lo == s.len() {
        lemma_trimmed_all_ws(s);
        assert(forall|i: int| 0 <= i < t.len() ==> is_ws(#[trigger] t[i])) by {
            assert(forall|i: int| 0 <= i < t.len() ==> #[trigger] t[i] == s[k + i]);
        }
        lemma_trimmed_all_ws(t);
    } else {
        let hi = span_start(s, s.len() as int, ws());
        lemma_span_start(s, s.len() as int, ws());
        assert(lo < hi);
        lemma_trimmed_is(s, lo, hi);
        assert(forall|i: int| 0 <= i < t.len() ==> #[trigger] t[i] == s[k + i]);
        assert forall|i: int| 0 <= i < lo - k implies is_ws(#[trigger] t[i]) by {
            assert(t[i] == s[k + i]);
        }
        assert forall|i: int| hi - k <= i < t.len() implies is_ws(#[trigger] t[i]) by {
            assert(t[i] == s[k + i]);
        }
        assert(t[lo - k] == s[lo]);
        assert(t[hi - k - 1] == s[hi - 1]);
        lemma_trimmed_is(t, lo - k, hi - k);
        assert(t.subrange(lo - k, hi - k) =~= s.subrange(lo, hi));
    }
}

// ---------------------------------------------------------------------------
// Token construction
// ---------------------------------------------------------------------------

/// A paragraph token: the trimmed line content, tag `P`.
pub open spec fn paragraph_token(text: Seq<char>) -> TokenView {
    TokenView { text: text, tag: TagView::P }
}

/// A header token: the trimmed inner content and the marker count.
pub open spec fn header_token(level: int, text: Seq<char>) -> TokenView {
    TokenView { text: text, tag: TagView::H(level) }
}

/// An unordered-list token: empty text, one entry per item line.
pub open spec fn ul_token(lines: Seq<Seq<char>>) -> TokenView {
    TokenView { text: Seq::empty(), tag: TagView::UL(lines) }
}

// ---------------------------------------------------------------------------
// The scan model
// ---------------------------------------------------------------------------

/// The paragraph scan: the token covers the rest of the current line, with
/// surrounding whitespace trimmed, and the cursor moves to the line end.
pub open spec fn spec_paragraph(s: Seq<char>, start: int) -> (TokenView, int)
    recommends
        0 <= start <= s.len(),
{
    let le = line_end(s, start);
    (paragraph_token(trimmed(s.subrange(start, le))), le)
}

/// The header scan, entered with `start` at the first `#`.
///
/// A marker run not followed by a space, or one of more than six markers,
/// reclassifies the whole line as a paragraph.  Otherwise the token text is
/// the span between the marker-plus-space prefix and the line end, with a
/// trailing run of `#` stripped and surrounding whitespace trimmed.
pub open spec fn spec_header(s: Seq<char>, start: int) -> (TokenView, int)
    recommends
        0 <= start < s.len(),
        s[start] == '#',
{
    let run = span_end(s, start, is_hash());
    let level = run - start;
    if run >= s.len() || s[run] != ' ' || level > 6 {
        spec_paragraph(s, start)
    } else {
        let cstart = run + 1;
        let le = line_end(s, cstart);
        let tend = span_start(s, le, is_hash());
        (header_token(level, trimmed(s.subrange(cstart, tend))), le)
    }
}

/// The unordered-list scan, entered with `start` at a delimiter character.
///
/// Each step takes one line: the item text is the line past the fixed
/// two-character `delimiter + space` prefix, trimmed.  After the line and
/// any leading tab, carriage-return or space whitespace on the next one, the
/// list continues exactly when the same delimiter followed by a space
/// appears; otherwise the accumulated items and the resting cursor are
/// returned.
pub open spec fn spec_list(s: Seq<char>, start: int, delim: char) -> (Seq<Seq<char>>, int)
    recommends
        0 <= start < s.len(),
    decreases s.len() - start,
        when 0 <= start < s.len()
{
    let le = line_end(s, start);
    let item_lo = if start + 2 <= le {
        start + 2
    } else {
        le
    };
    let item = trimmed(s.subrange(item_lo, le));
    let after = if le < s.len() {
        le + 1
    } else {
        le
    };
    let nxt = span_end(s, after, line_ws());
    if nxt < s.len() && s[nxt] == delim && nxt + 1 < s.len() && s[nxt + 1] == ' ' {
        proof {
            lemma_span_end(s, start, not_newline());
            lemma_span_end(s, after, line_ws());
        }
        let (rest, fin) = spec_list(s, nxt, delim);
        (seq![item] + rest, fin)
    } else {
        (seq![item], nxt)
    }
}

/// One dispatch step of the scanner at cursor `i`: the tokens the step
/// yields (none or one) and the cursor after it.
///
/// `#` opens a header scan; `*` opens a list scan only when followed by a
/// space; `-` opens a list scan unless it begins a `---` horizontal-rule
/// marker; `+` always opens a list scan; whitespace is skipped; any other
/// character opens a paragraph scan.  The reserved constructs (emphasis,
/// horizontal rule) yield nothing and the cursor moves on by one.
pub open spec fn spec_step(s: Seq<char>, i: int) -> (Seq<TokenView>, int)
    recommends
        0 <= i < s.len(),
{
    let c = s[i];
    if c == '#' {
        let (t, n) = spec_header(s, i);
        (seq![t], n)
    } else if c == '*' {
        if i + 1 < s.len() && s[i + 1] == ' ' {
            let (lines, n) = spec_list(s, i, '*');
            (seq![ul_token(lines)], n)
        } else {
            (Seq::empty(), i + 1)
        }
    } else if c == '-' {
        if i + 1 < s.len() && s[i + 1] == '-' && i + 2 < s.len() && s[i + 2] == '-' {
            (Seq::empty(), i + 1)
        } else {
            let (lines, n) = spec_list(s, i, '-');
            (seq![ul_token(lines)], n)
        }
    } else if c == '+' {
        let (lines, n) = spec_list(s, i, '+');
        (seq![ul_token(lines)], n)
    } else if is_ws(c) {
        (Seq::empty(), i + 1)
    } else {
        let (t, n) = spec_paragraph(s, i);
        (seq![t], n)
    }
}

/// The list scan consumes at least one line, so its resting cursor moves
/// strictly forward and stays within the buffer.
pub proof fn lemma_list_advances(s: Seq<char>, start: int, delim: char)
    requires
        0 <= start < s.len(),
    ensures
        start < spec_list(s, start, delim).1 <= s.len(),
    decreases s.len() - start,
{
    let le = line_end(s, start);
    lemma_span_end(s, start, not_newline());
    let after = if le < s.len() {
        le + 1
    } else {
        le
    };
    lemma_span_end(s, after, line_ws());
    let nxt = span_end(s, after, line_ws());
    if nxt < s.len() && s[nxt] == delim && nxt + 1 < s.len() && s[nxt + 1] == ' ' {
        lemma_list_advances(s, nxt, delim);
    }
}

/// Every dispatch step advances the cursor by at least one position and
/// never runs past the end of the buffer.
pub proof fn lemma_step_advances(s: Seq<char>, i: int)
    requires
        0 <= i < s.len(),
    ensures
        i < spec_step(s, i).1 <= s.len(),
{
    let c = s[i];
    if c == '#' {
        let run = span_end(s, i, is_hash());
        lemma_span_end(s, i, is_hash());
        if run >= s.len() || s[run] != ' ' || run - i > 6 {
            lemma_span_end(s, i, not_newline());
        } else {
            lemma_span_end(s, run + 1, not_newline());
        }
    } else if c == '*' {
        if i + 1 < s.len() && s[i + 1] == ' ' {
            lemma_list_advances(s, i, '*');
        }
    } else if c == '-' {
        if !(i + 1 < s.len() && s[i + 1] == '-' && i + 2 < s.len() && s[i + 2] == '-') {
            lemma_list_advances(s, i, '-');
        }
    } else if c == '+' {
        lemma_list_advances(s, i, '+');
    } else if is_ws(c) {
    } else {
        lemma_span_end(s, i, not_newline());
    }
}

/// The full scan from cursor `i`: the concatenation of the tokens of each
/// dispatch step until the cursor reaches the end of the buffer.
pub open spec fn spec_scan(s: Seq<char>, i: int) -> Seq<TokenView>
    recommends
        0 <= i <= s.len(),
    decreases s.len() - i,
        when 0 <= i <= s.len()
{
    if i >= s.len() {
        Seq::empty()
    } else {
        let (toks, n) = spec_step(s, i);
        proof {
            lemma_step_advances(s, i);
        }
        toks + spec_scan(s, n)
    }
}

/// Scanning over a whitespace span produces nothing: the cursor walks
/// through it one character at a time, each step yielding no token.
pub proof fn lemma_scan_skip_ws(s: Seq<char>, i: int, j: int)
    requires
        0 <= i <= j <= s.len(),
        forall|k: int| i <= k < j ==> is_ws(#[trigger] s[k]),
    ensures
        spec_scan(s, i) == spec_scan(s, j),
    decreases j - i,
{
    if i < j {
        assert(spec_step(s, i) == (Seq::<TokenView>::empty(), i + 1));
        assert(spec_scan(s, i) =~= spec_scan(s, i + 1));
        lemma_scan_skip_ws(s, i + 1, j);
    }
}

/// The token sequence a whole scan of `s` produces, before the sentinel.
pub open spec fn scan_tokens(s: Seq<char>) -> Seq<TokenView> {
    spec_scan(s, 0)
}

/// The token sequence the library hands to callers for a document: the
/// scanned tokens followed by exactly one `EOF` sentinel.
pub open spec fn document_tokens(s: Seq<char>) -> Seq<TokenView> {
    scan_tokens(s).push(eof_view())
}

// ---------------------------------------------------------------------------
// Executable scanner
// ---------------------------------------------------------------------------

/// Relies on `String::push`: it appends the given character to the end of
/// the string.
pub assume_specification[ String::push ](s: &mut String, ch: char)
    ensures
        final(s)@ == old(s)@.push(ch),
;

/// The characters of the source text, in order, as an indexable buffer.
fn chars_of(source: &str) -> (chars: Vec<char>)
    ensures
        chars@ == source@,
{
    let n = source.unicode_len();
    let mut chars: Vec<char> = Vec::new();
    let mut i: usize = 0;
    while i < n
        invariant
            n == source@.len(),
            i <= n,
            chars@ == source@.take(i as int),
        decreases n - i,
    {
        let c = source.get_char(i);
        chars.push(c);
        proof {
            assert(chars@ =~= source@.take(i + 1));
        }
        i = i + 1;
    }
    proof {
        assert(chars@ =~= source@);
    }
    chars
}

/// Whether `c` is one of the dialect's whitespace characters.
fn is_ws_char(c: char) -> (r: bool)
    ensures
        r == is_ws(c),
{
    c == '\t' || c == '\r' || c == ' ' || c == '\n'
}

/// The character one past `current`, or the NUL character at the end of the
/// buffer.
fn peek(src: &Vec<char>, current: usize) -> (c: char)
    requires
        current < src@.len(),
    ensures
        c == (if current + 1 < src@.len() {
            src@[current + 1]
        } else {
            '\0'
        }),
{
    let n = src.len();
    if current + 1 < n {
        src[current + 1]
    } else {
        '\0'
    }
}

/// The character two past `current`, or the NUL character at the end of the
/// buffer.
fn peek_next(src: &Vec<char>, current: usize) -> (c: char)
    requires
        current < src@.len(),
    ensures
        c == (if current + 2 < src@.len() {
            src@[current + 2]
        } else {
            '\0'
        }),
{
    let n = src.len();
    if current + 1 < n && current + 2 < n {
        src[current + 2]
    } else {
        '\0'
    }
}

/// Advances from `current` to the end of the current line: the position of
/// the next newline, or the buffer length when none follows.
fn advance_line(src: &Vec<char>, current: usize) -> (le: usize)
    requires
        current <= src@.len(),
    ensures
        le == line_end(src@, current as int),
        current <= le <= src@.len(),
{
    let n = src.len();
    let mut j = current;
    while j < n && src[j] != '\n'
        invariant
            current <= j <= n,
            n == src@.len(),
            forall|k: int| current <= k < j ==> #[trigger] src@[k] != '\n',
        decreases n - j,
    {
        j = j + 1;
    }
    proof {
        lemma_span_end_is(src@, current as int, not_newline(), j as int);
    }
    j
}

/// Skips tab, carriage-return and space characters, stopping at any other
/// character, at a newline, or at the end of the buffer.
fn advance_whitespace(src: &Vec<char>, current: usize) -> (r: usize)
    requires
        current <= src@.len(),
    ensures
        r == span_end(src@, current as int, line_ws()),
        current <= r <= src@.len(),
{
    let n = src.len();
    let mut j = current;
    while j < n && (src[j] == '\t' || src[j] == '\r' || src[j] == ' ')
        invariant
            current <= j <= n,
            n == src@.len(),
            forall|k: int| current <= k < j ==> is_line_ws(#[trigger] src@[k]),
        decreases n - j,
    {
        j = j + 1;
    }
    proof {
        lemma_span_end_is(src@, current as int, line_ws(), j as int);
    }
    j
}

/// The span `[from, to)` of the buffer with surrounding whitespace trimmed,
/// as an owned string.
fn trimmed_string(src: &Vec<char>, from: usize, to: usize) -> (text: String)
    requires
        from <= to <= src@.len(),
    ensures
        text@ == trimmed(src@.subrange(from as int, to as int)),
{
    let ghost sub = src@.subrange(from as int, to as int);
    let mut lo = from;
    while lo < to && is_ws_char(src[lo])
        invariant
            from <= lo <= to <= src@.len(),
            forall|k: int| from <= k < lo ==> is_ws(#[trigger] src@[k]),
        decreases to - lo,
    {
        lo = lo + 1;
    }
    if lo == to {
        proof {
            assert(forall|k: int| 0 <= k < sub.len() ==> is_ws(#[trigger] sub[k]));
            lemma_trimmed_all_ws(sub);
        }
        return String::new();
    }
    let mut hi = to;
    while is_ws_char(src[hi - 1])
        invariant
            lo < hi <= to <= src@.len(),
            !is_ws(src@[lo as int]),
            forall|k: int| hi <= k < to ==> is_ws(#[trigger] src@[k]),
        decreases hi,
    {
        hi = hi - 1;
    }
    proof {
        lemma_trimmed_is(sub, lo - from, hi - from);
        assert(sub.subrange(lo - from, hi - from) =~= src@.subrange(lo as int, hi as int));
    }
    let mut text = String::new();
    let mut k = lo;
    while k < hi
        invariant
            lo <= k <= hi <= src@.len(),
            text@ == src@.subrange(lo as int, k as int),
        decreases hi - k,
    {
        text.push(src[k]);
        proof {
            assert(text@ =~= src@.subrange(lo as int, k + 1));
        }
        k = k + 1;
    }
    text
}

/// The paragraph scan: consumes the rest of the current line and yields it,
/// trimmed, as one `P` token.
fn paragraph(src: &Vec<char>, start: usize) -> (r: (Token, usize))
    requires
        start <= src@.len(),
    ensures
        r.0@ == spec_paragraph(src@, start as int).0,
        r.1 as int == spec_paragraph(src@, start as int).1,
        start <= r.1 <= src@.len(),
{
    let le = advance_line(src, start);
    let text = trimmed_string(src, start, le);
    (Token { text, tag: Tag::P }, le)
}

/// The header scan, entered with `start` at the first `#` of the marker
/// run.  Yields a `H(level)` token, or delegates the whole line to the
/// paragraph scan when the run is not followed by a space or is longer than
/// six markers.
fn header(src: &Vec<char>, start: usize) -> (r: (Token, usize))
    requires
        start < src@.len(),
        src@[start as int] == '#',
    ensures
        r.0@ == spec_header(src@, start as int).0,
        r.1 as int == spec_header(src@, start as int).1,
        start <= r.1 <= src@.len(),
{
    let n = src.len();
    let mut run = start;
    while run < n && src[run] == '#'
        invariant
            start <= run <= n,
            n == src@.len(),
            forall|k: int| start <= k < run ==> #[trigger] src@[k] == '#',
        decreases n - run,
    {
        run = run + 1;
    }
    proof {
        lemma_span_end_is(src@, start as int, is_hash(), run as int);
    }
    if run >= n || src[run] != ' ' || run - start > 6 {
        return paragraph(src, start);
    }
    let cstart = run + 1;
    let le = advance_line(src, cstart);
    let mut tend = le;
    while tend > 0 && src[tend - 1] == '#'
        invariant
            tend <= le <= src@.len(),
            forall|k: int| tend <= k < le ==> #[trigger] src@[k] == '#',
        decreases tend,
    {
        tend = tend - 1;
    }
    proof {
        lemma_span_start_is(src@, le as int, is_hash(), tend as int);
        if tend < cstart {
            assert(src@[run as int] == '#');  // contradicts the space at `run`
        }
    }
    let text = trimmed_string(src, cstart, tend);
    (Token { text, tag: Tag::H(run - start) }, le)
}

/// The unordered-list scan, entered with `start` at the delimiter of the
/// first item line.  Accumulates one trimmed item text per consecutive line
/// that begins, after optional leading whitespace, with the same delimiter
/// followed by a space; returns the items and the resting cursor.
fn unordered_list(src: &Vec<char>, start: usize, delim: char) -> (r: (Vec<String>, usize))
    requires
        start < src@.len(),
    ensures
        r.0.deep_view() == spec_list(src@, start as int, delim).0,
        r.1 as int == spec_list(src@, start as int, delim).1,
        start < r.1 <= src@.len(),
{
    proof {
        lemma_list_advances(src@, start as int, delim);
    }
    let n = src.len();
    let mut lines: Vec<String> = Vec::new();
    let mut cur = start;
    loop
        invariant
            cur < n,
            n == src@.len(),
            spec_list(src@, start as int, delim).0 == lines.deep_view() + spec_list(
                src@,
                cur as int,
                delim,
            ).0,
            spec_list(src@, start as int, delim).1 == spec_list(src@, cur as int, delim).1,
            start < spec_list(src@, cur as int, delim).1 <= src@.len(),
        decreases n - cur,
    {
        let ghost prev_lines = lines.deep_view();
        let le = advance_line(src, cur);
        let item_lo = if le - cur >= 2 {
            cur + 2
        } else {
            le
        };
        let text = trimmed_string(src, item_lo, le);
        lines.push(text);
        proof {
            assert(lines.deep_view() =~= prev_lines.push(text@));
        }
        let after = if le < n {
            le + 1
        } else {
            le
        };
        let nxt = advance_whitespace(src, after);
        if nxt < n && src[nxt] == delim && nxt + 1 < n && src[nxt + 1] == ' ' {
            proof {
                assert(spec_list(src@, cur as int, delim).0 == seq![text@] + spec_list(
                    src@,
                    nxt as int,
                    delim,
                ).0);
                assert(lines.deep_view() + spec_list(src@, nxt as int, delim).0 =~= prev_lines
                    + spec_list(src@, cur as int, delim).0);
            }
            cur = nxt;
        } else {
            proof {
                assert(spec_list(src@, cur as int, delim).0 =~= seq![text@]);
                assert(lines.deep_view() =~= prev_lines + spec_list(src@, cur as int, delim).0);
            }
            return (lines, nxt);
        }
    }
}

/// Scans `source` and appends the produced tokens to `tokens`, in document
/// order.  The appended sequence is exactly what the scan model yields; no
/// sentinel is appended here.
pub fn scan(tokens: &mut Vec<Token>, source: &str)
    ensures
        views(final(tokens)@) == views(old(tokens)@) + scan_tokens(source@),
{
    let src = chars_of(source);
    let n = src.len();
    let mut current: usize = 0;
    while current < n
        invariant
            current <= n,
            n == src@.len(),
            src@ == source@,
            views(tokens@) + spec_scan(src@, current as int) == views(old(tokens)@) + spec_scan(
                src@,
                0,
            ),
        decreases n - current,
    {
        let ghost prev = views(tokens@);
        let start = current;
        let c = src[start];
        let token: Option<Token>;
        let next: usize;
        if c == '#' {
            let (t, after) = header(&src, start);
            token = Some(t);
            next = after;
        } else if c == '*' {
            if peek(&src, start) == ' ' {
                let (lines, after) = unordered_list(&src, start, '*');
                token = Some(Token { text: String::new(), tag: Tag::UL(lines) });
                next = after;
            } else {
                // reserved for emphasis markup
                token = None;
                next = start + 1;
            }
        } else if c == '-' {
            if peek(&src, start) == '-' && peek_next(&src, start) == '-' {
                // reserved for the horizontal-rule marker
                token = None;
                next = start + 1;
            } else {
                let (lines, after) = unordered_list(&src, start, '-');
                token = Some(Token { text: String::new(), tag: Tag::UL(lines) });
                next = after;
            }
        } else if c == '\t' || c == ' ' || c == '\r' || c == '\n' {
            token = None;
            next = start + 1;
        } else if c == '+' {
            let (lines, after) = unordered_list(&src, start, '+');
            token = Some(Token { text: String::new(), tag: Tag::UL(lines) });
            next = after;
        } else {
            let (t, after) = paragraph(&src, start);
            token = Some(t);
            next = after;
        }
        proof {
            lemma_step_advances(src@, start as int);
        }
        match token {
            Some(t) => {
                proof {
                    assert(views(tokens@.push(t)) =~= prev.push(t@));
                    assert(prev.push(t@) =~= prev + spec_step(src@, start as int).0);
                }
                tokens.push(t);
            },
            None => {
                proof {
                    assert(prev =~= prev + spec_step(src@, start as int).0);
                }
            },
        }
        current = next;
    }
}

/// Scans a whole document and returns its token sequence, closed by exactly
/// one `EOF` sentinel token with empty text.
pub fn scan_document(source: &str) -> (tokens: Vec<Token>)
    ensures
        views(tokens@) == document_tokens(source@),
{
    let mut tokens: Vec<Token> = Vec::new();
    scan(&mut tokens, source);
    let ghost scanned = views(tokens@);
    let eof = Token { text: String::new(), tag: Tag::EOF };
    tokens.push(eof);
    proof {
        assert(views(tokens@) =~= scanned.push(eof_view()));
        assert(scanned =~= scan_tokens(source@));
    }
    tokens
}

} // verus!
