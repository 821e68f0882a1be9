//! General properties of the scanner, stated and proved against the scan
//! model: the sentinel discipline, the header round trip and its overflow
//! reclassification, paragraph independence, list grouping, and the
//! whitespace-only scan.

use vstd::prelude::*;

use crate::lexer::{
    document_tokens, header_token, is_hash, is_line_ws, is_ws, lemma_scan_skip_ws, lemma_span_end,
    lemma_span_end_is, lemma_span_start, lemma_span_start_is, lemma_step_advances,
    lemma_trimmed_all_ws, lemma_trimmed_ws_prefix, line_ws, not_newline, paragraph_token,
    scan_tokens, span_end,
    span_start, spec_list, spec_scan, spec_step, trimmed, ul_token, ws,
};
use crate::token::{eof_view, TagView, TokenView};

verus! {

/// A run of `n` header marker characters.
pub open spec fn hash_run(n: int) -> Seq<char> {
    Seq::new(n as nat, |i: int| '#')
}

/// No dispatch step yields the sentinel: every token a scan produces is a
/// header, a paragraph or an unordered list.
proof fn lemma_scan_no_eof(s: Seq<char>, i: int)
    requires
        0 <= i <= s.len(),
    ensures
        forall|j: int|
            0 <= j < spec_scan(s, i).len() ==> !((#[trigger] spec_scan(s, i)[j]).tag is EOF),
    decreases s.len() - i,
{
    if i < s.len() {
        lemma_step_advances(s, i);
        lemma_scan_no_eof(s, spec_step(s, i).1);
    }
}

/// The sentinel invariant: a scanned document's token sequence is never
/// empty, its last token is the `EOF` sentinel with empty text, and no
/// other token carries the sentinel tag.
pub proof fn lemma_sentinel(s: Seq<char>)
    ensures
        document_tokens(s).len() >= 1,
        document_tokens(s).last() == eof_view(),
        document_tokens(s).last().text.len() == 0,
        forall|j: int|
            0 <= j < document_tokens(s).len() - 1 ==> !((#[trigger] document_tokens(s)[j]).tag
                is EOF),
{
    lemma_scan_no_eof(s, 0);
}

/// Header round trip: a line of one to six markers, a space, and a body
/// that does not itself end in a marker — with or without a trailing marker
/// run of any length — scans to exactly one header token whose level is the
/// marker count and whose text is the trimmed body.
pub proof fn lemma_header_round_trip(n: int, body: Seq<char>, m: int)
    requires
        1 <= n <= 6,
        0 <= m,
        forall|k: int| 0 <= k < body.len() ==> #[trigger] body[k] != '\n',
        body.len() > 0 ==> body.last() != '#',
    ensures
        scan_tokens(hash_run(n) + seq![' '] + body + hash_run(m)) == seq![
            header_token(n, trimmed(body)),
        ],
{
    let s = hash_run(n) + seq![' '] + body + hash_run(m);
    let b = body.len() as int;
    assert(s.len() == n + 1 + b + m);
    assert(forall|k: int| 0 <= k < n ==> #[trigger] s[k] == '#');
    assert(s[n as int] == ' ');
    assert(forall|k: int| n + 1 <= k < n + 1 + b ==> #[trigger] s[k] == body[k - n - 1]);
    assert(forall|k: int| n + 1 + b <= k < s.len() ==> #[trigger] s[k] == '#');
    lemma_span_end_is(s, 0, is_hash(), n);
    lemma_span_end_is(s, n + 1, not_newline(), s.len() as int);
    lemma_span_start_is(s, s.len() as int, is_hash(), n + 1 + b);
    assert(s.subrange(n + 1, n + 1 + b) =~= body);
    assert(spec_step(s, 0) == (seq![header_token(n, trimmed(body))], s.len() as int));
    assert(spec_scan(s, s.len() as int) =~= Seq::<TokenView>::empty());
    assert(scan_tokens(s) =~= seq![header_token(n, trimmed(body))]);
}

/// Header overflow: seven or more markers followed by a space reclassify
/// the whole line — hash run included — as a single paragraph token.
pub proof fn lemma_header_overflow(n: int, body: Seq<char>)
    requires
        7 <= n,
        forall|k: int| 0 <= k < body.len() ==> #[trigger] body[k] != '\n',
    ensures
        scan_tokens(hash_run(n) + seq![' '] + body) == seq![
            paragraph_token(trimmed(hash_run(n) + seq![' '] + body)),
        ],
{
    let s = hash_run(n) + seq![' '] + body;
    let b = body.len() as int;
    assert(s.len() == n + 1 + b);
    assert(forall|k: int| 0 <= k < n ==> #[trigger] s[k] == '#');
    assert(s[n as int] == ' ');
    assert(forall|k: int| n + 1 <= k < s.len() ==> #[trigger] s[k] == body[k - n - 1]);
    lemma_span_end_is(s, 0, is_hash(), n);
    lemma_span_end_is(s, 0, not_newline(), s.len() as int);
    assert(s.subrange(0, s.len() as int) =~= s);
    assert(spec_step(s, 0) == (seq![paragraph_token(trimmed(s))], s.len() as int));
    assert(spec_scan(s, s.len() as int) =~= Seq::<TokenView>::empty());
    assert(scan_tokens(s) =~= seq![paragraph_token(trimmed(s))]);
}

/// A marker run not followed by a space is no header: the whole line —
/// hash run included — scans to a single paragraph token.
pub proof fn lemma_hash_without_space(n: int, body: Seq<char>)
    requires
        1 <= n,
        body.len() > 0,
        body[0] != ' ',
        body[0] != '#',
        forall|k: int| 0 <= k < body.len() ==> #[trigger] body[k] != '\n',
    ensures
        scan_tokens(hash_run(n) + body) == seq![paragraph_token(trimmed(hash_run(n) + body))],
{
    let s = hash_run(n) + body;
    let b = body.len() as int;
    assert(s.len() == n + b);
    assert(forall|k: int| 0 <= k < n ==> #[trigger] s[k] == '#');
    assert(forall|k: int| n <= k < s.len() ==> #[trigger] s[k] == body[k - n]);
    lemma_span_end_is(s, 0, is_hash(), n);
    lemma_span_end_is(s, 0, not_newline(), s.len() as int);
    assert(s.subrange(0, s.len() as int) =~= s);
    assert(spec_step(s, 0) == (seq![paragraph_token(trimmed(s))], s.len() as int));
    assert(spec_scan(s, s.len() as int) =~= Seq::<TokenView>::empty());
    assert(scan_tokens(s) =~= seq![paragraph_token(trimmed(s))]);
}

/// A character that opens one of the non-paragraph constructs when it is
/// the first non-whitespace character of a line.
pub open spec fn special_start(c: char) -> bool {
    c == '#' || c == '*' || c == '-' || c == '+'
}

/// A line whose content `a` stands at `[i, i + a.len())` of the buffer, is
/// terminated by a newline or the buffer end, is not blank, and does not
/// open a special construct, scans to exactly one paragraph token carrying
/// the line's trimmed content.
proof fn lemma_paragraph_line(s: Seq<char>, i: int, a: Seq<char>, e: int)
    requires
        0 <= i <= s.len(),
        e == i + a.len(),
        e <= s.len(),
        s.subrange(i, e) == a,
        forall|k: int| 0 <= k < a.len() ==> #[trigger] a[k] != '\n',
        e < s.len() ==> s[e] == '\n',
        trimmed(a).len() > 0,
        !special_start(trimmed(a)[0]),
    ensures
        spec_scan(s, i) == seq![paragraph_token(trimmed(a))] + spec_scan(s, e),
{
    assert forall|k: int| 0 <= k < a.len() implies #[trigger] s[i + k] == a[k] by {
        assert(s.subrange(i, e)[k] == s[i + k]);
    }
    let lo = span_end(a, 0, ws());
    lemma_span_end(a, 0, ws());
    if lo == a.len() {
        lemma_trimmed_all_ws(a);
        assert(false);
    }
    let hi = span_start(a, a.len() as int, ws());
    lemma_span_start(a, a.len() as int, ws());
    assert(lo < hi) by {
        if hi <= lo {
            assert(is_ws(a[lo]));
        }
    }
    assert(trimmed(a) == a.subrange(lo, hi));
    assert(trimmed(a)[0] == a[lo]);
    let j = i + lo;
    assert forall|k: int| i <= k < j implies is_ws(#[trigger] s[k]) by {
        assert(s[i + (k - i)] == a[k - i]);
    }
    lemma_scan_skip_ws(s, i, j);
    let c = s[j];
    assert(c == a[lo]);
    assert(!is_ws(c) && !special_start(c));
    assert forall|k: int| j <= k < e implies #[trigger] s[k] != '\n' by {
        assert(s[i + (k - i)] == a[k - i]);
    }
    lemma_span_end_is(s, j, not_newline(), e);
    assert(s.subrange(j, e) =~= a.subrange(lo, a.len() as int));
    lemma_trimmed_ws_prefix(a, lo);
    assert(spec_step(s, j) == (seq![paragraph_token(trimmed(a))], e));
    assert(spec_scan(s, i) =~= seq![paragraph_token(trimmed(a))] + spec_scan(s, e));
}

/// Paragraph independence: two non-blank lines that open no special
/// construct, separated by a newline, scan to two separate paragraph
/// tokens, each carrying its own line's trimmed content.
pub proof fn lemma_paragraph_independence(a: Seq<char>, b: Seq<char>)
    requires
        forall|k: int| 0 <= k < a.len() ==> #[trigger] a[k] != '\n',
        forall|k: int| 0 <= k < b.len() ==> #[trigger] b[k] != '\n',
        trimmed(a).len() > 0,
        trimmed(b).len() > 0,
        !special_start(trimmed(a)[0]),
        !special_start(trimmed(b)[0]),
    ensures
        scan_tokens(a + seq!['\n'] + b) == seq![
            paragraph_token(trimmed(a)),
            paragraph_token(trimmed(b)),
        ],
{
    let s = a + seq!['\n'] + b;
    let al = a.len() as int;
    assert(s.subrange(0, al) =~= a);
    assert(s[al] == '\n');
    assert(s.subrange(al + 1, s.len() as int) =~= b);
    lemma_paragraph_line(s, 0, a, al);
    assert(spec_step(s, al) == (Seq::<TokenView>::empty(), al + 1));
    assert(spec_scan(s, al) =~= spec_scan(s, al + 1));
    lemma_paragraph_line(s, al + 1, b, s.len() as int);
    assert(spec_scan(s, s.len() as int) =~= Seq::<TokenView>::empty());
    assert(scan_tokens(s) =~= seq![paragraph_token(trimmed(a)), paragraph_token(trimmed(b))]);
}

/// One of the three interchangeable bullet delimiters.
pub open spec fn list_delim(c: char) -> bool {
    c == '-' || c == '*' || c == '+'
}

/// No item body contains a line terminator.
pub open spec fn no_newline(items: Seq<Seq<char>>) -> bool {
    forall|j: int, k: int|
        0 <= j < items.len() && 0 <= k < items[j].len() ==> #[trigger] items[j][k] != '\n'
}

/// The document consisting of one bulleted line per item: the delimiter, a
/// space, the item body, and a newline.
pub open spec fn list_lines(items: Seq<Seq<char>>, delim: char) -> Seq<char>
    decreases items.len(),
{
    if items.len() == 0 {
        Seq::empty()
    } else {
        seq![delim, ' '] + items[0] + seq!['\n'] + list_lines(items.drop_first(), delim)
    }
}

/// The list scan over a run of bulleted lines standing at `[i, i + L)` of
/// the buffer collects exactly the trimmed item bodies, in order, and comes
/// to rest past the run's trailing whitespace — provided the character
/// standing there does not continue the list.
proof fn lemma_list_block(s: Seq<char>, i: int, items: Seq<Seq<char>>, delim: char)
    requires
        list_delim(delim),
        items.len() > 0,
        no_newline(items),
        0 <= i,
        i + list_lines(items, delim).len() <= s.len(),
        s.subrange(i, i + list_lines(items, delim).len() as int) == list_lines(items, delim),
        ({
            let fin = span_end(s, i + list_lines(items, delim).len() as int, line_ws());
            !(fin < s.len() && s[fin] == delim && fin + 1 < s.len() && s[fin + 1] == ' ')
        }),
    ensures
        spec_list(s, i, delim) == (
            items.map_values(|t: Seq<char>| trimmed(t)),
            span_end(s, i + list_lines(items, delim).len() as int, line_ws()),
        ),
    decreases items.len(),
{
    let ll = list_lines(items, delim);
    let ln = items[0].len() as int;
    assert(ll == seq![delim, ' '] + items[0] + seq!['\n'] + list_lines(items.drop_first(), delim));
    assert forall|k: int| 0 <= k < ll.len() implies s[i + k] == #[trigger] ll[k] by {
        assert(s.subrange(i, i + ll.len() as int)[k] == s[i + k]);
    }
    assert(ll[0] == delim && s[i + 0] == ll[0]);
    assert(ll[1] == ' ' && s[i + 1] == ll[1]);
    assert forall|k: int| 0 <= k < ln implies #[trigger] s[i + 2 + k] == items[0][k] by {
        assert(ll[2 + k] == items[0][k]);
        assert(s[i + (2 + k)] == ll[2 + k]);
    }
    assert(ll[2 + ln] == '\n' && s[i + (2 + ln)] == ll[2 + ln]);
    assert forall|k: int| i <= k < i + 2 + ln implies #[trigger] s[k] != '\n' by {
        if k >= i + 2 {
            assert(s[i + 2 + (k - i - 2)] == items[0][k - i - 2]);
            assert(items[0][k - i - 2] != '\n');
        }
    }
    lemma_span_end_is(s, i, not_newline(), i + 2 + ln);
    let le = i + 2 + ln;
    assert forall|k: int| 0 <= k < ln implies s.subrange(i + 2, le)[k] == items[0][k] by {
        assert(s[i + 2 + k] == items[0][k]);
    }
    assert(s.subrange(i + 2, le) =~= items[0]);
    let after = le + 1;
    let rest = items.drop_first();
    if items.len() == 1 {
        assert(after == i + ll.len());
        assert(spec_list(s, i, delim) == (
            seq![trimmed(items[0])],
            span_end(s, after, line_ws()),
        ));
        assert(seq![trimmed(items[0])] =~= items.map_values(|t: Seq<char>| trimmed(t)));
    } else {
        let ll2 = list_lines(rest, delim);
        assert(ll2.len() >= 3);
        assert forall|k: int| 0 <= k < ll2.len() implies #[trigger] s[after + k] == ll2[k] by {
            assert(ll[3 + ln + k] == ll2[k]);
            assert(s[i + (3 + ln + k)] == ll[3 + ln + k]);
        }
        assert(ll2[0] == delim && ll2[1] == ' ');
        assert(s[after + 0] == ll2[0] && s[after + 1] == ll2[1]);
        assert(!is_line_ws(delim));
        assert(span_end(s, after, line_ws()) == after);
        assert forall|k: int|
            0 <= k < ll2.len() implies s.subrange(after, after + ll2.len() as int)[k]
            == ll2[k] by {
            assert(s[after + k] == ll2[k]);
        }
        assert(s.subrange(after, after + ll2.len() as int) =~= ll2);
        assert(after + ll2.len() == i + ll.len());
        lemma_list_block(s, after, rest, delim);
        assert(spec_list(s, i, delim).0 == seq![trimmed(items[0])] + rest.map_values(
            |t: Seq<char>| trimmed(t),
        ));
        assert(seq![trimmed(items[0])] + rest.map_values(|t: Seq<char>| trimmed(t)) =~= items
            .map_values(|t: Seq<char>| trimmed(t)));
    }
}

/// List grouping: a run of consecutive bulleted lines with one delimiter
/// scans to exactly one unordered-list token whose entries are the trimmed
/// item bodies, in document order.
pub proof fn lemma_list_grouping(items: Seq<Seq<char>>, delim: char)
    requires
        items.len() > 0,
        list_delim(delim),
        no_newline(items),
    ensures
        scan_tokens(list_lines(items, delim)) == seq![
            ul_token(items.map_values(|t: Seq<char>| trimmed(t))),
        ],
{
    let s = list_lines(items, delim);
    assert(s.subrange(0, s.len() as int) =~= s);
    assert(span_end(s, s.len() as int, line_ws()) == s.len());
    lemma_list_block(s, 0, items, delim);
    assert(s[0] == delim && s[1] == ' ') by {
        assert(forall|k: int|
            0 <= k < s.len() ==> s.subrange(0, s.len() as int)[k] == #[trigger] s[k]);
    }
    let tok = ul_token(items.map_values(|t: Seq<char>| trimmed(t)));
    assert(spec_step(s, 0) == (seq![tok], s.len() as int));
    assert(spec_scan(s, s.len() as int) =~= Seq::<TokenView>::empty());
    assert(scan_tokens(s) =~= seq![tok]);
}

/// Switching delimiters: a run of bulleted lines with one delimiter
/// followed immediately by a run with a different delimiter scans to two
/// separate unordered-list tokens, in document order.
pub proof fn lemma_list_switch(
    items1: Seq<Seq<char>>,
    delim1: char,
    items2: Seq<Seq<char>>,
    delim2: char,
)
    requires
        items1.len() > 0,
        items2.len() > 0,
        list_delim(delim1),
        list_delim(delim2),
        delim1 != delim2,
        no_newline(items1),
        no_newline(items2),
    ensures
        scan_tokens(list_lines(items1, delim1) + list_lines(items2, delim2)) == seq![
            ul_token(items1.map_values(|t: Seq<char>| trimmed(t))),
            ul_token(items2.map_values(|t: Seq<char>| trimmed(t))),
        ],
{
    let a = list_lines(items1, delim1);
    let bdoc = list_lines(items2, delim2);
    let s = a + bdoc;
    let e = a.len() as int;
    assert(forall|k: int| 0 <= k < e ==> #[trigger] s[k] == a[k]);
    assert(forall|k: int| 0 <= k < bdoc.len() ==> #[trigger] s[e + k] == bdoc[k]);
    assert(bdoc.len() >= 3);
    assert(bdoc[0] == delim2 && bdoc[1] == ' ');
    assert(a[0] == delim1 && a[1] == ' ');
    assert(s.subrange(0, e) =~= a);
    assert(span_end(s, e, line_ws()) == e);
    lemma_list_block(s, 0, items1, delim1);
    let tok1 = ul_token(items1.map_values(|t: Seq<char>| trimmed(t)));
    assert(spec_step(s, 0) == (seq![tok1], e));
    assert(s.subrange(e, e + bdoc.len() as int) =~= bdoc);
    assert(span_end(s, s.len() as int, line_ws()) == s.len());
    lemma_list_block(s, e, items2, delim2);
    let tok2 = ul_token(items2.map_values(|t: Seq<char>| trimmed(t)));
    assert(spec_step(s, e) == (seq![tok2], s.len() as int));
    assert(spec_scan(s, s.len() as int) =~= Seq::<TokenView>::empty());
    assert(spec_scan(s, e) =~= seq![tok2]);
    assert(scan_tokens(s) =~= seq![tok1, tok2]);
}

/// Whitespace idempotence: a buffer of nothing but tabs, spaces, carriage
/// returns and newlines yields no token before the sentinel.
pub proof fn lemma_ws_only(s: Seq<char>)
    requires
        forall|i: int| 0 <= i < s.len() ==> is_ws(#[trigger] s[i]),
    ensures
        scan_tokens(s) == Seq::<TokenView>::empty(),
{
    lemma_scan_skip_ws(s, 0, s.len() as int);
}

} // verus!
