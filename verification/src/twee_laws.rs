//! What writing a story as Twee and reading it back keeps.

use vstd::prelude::*;
use crate::json::{compact_json, parsed_json, pretty_json, Json};
use crate::story::{PassageView, StoryView, WarningView};
use crate::text::{is_blank, is_space, is_word, lemma_trim_end_is_take, lemma_trim_end_padding,
    lemma_trim_idempotent, lemma_trim_padded, lemma_trim_start_is_skip, lemma_trimmed_ends, trim,
    trim_end, trim_start};
use crate::twee3::{at_line_start, escape_content, escape_text, escape_upto, escapes_header,
    finish, has_passage, header_at, header_of, is_header, is_special, json_source,
    lemma_line_end, lemma_line_end_is, lemma_next_header, lemma_next_header_is, line_end,
    next_header, opens_meta, passage_text, passages_text, read_from, read_start, read_twee,
    record, scan_line, scan_start, scan_step, starts_colons, tags_text, unescape, unescape_upto,
    write_twee, HeaderMode, HeaderScan, HeaderView, ReadState};

verus! {

/// Text that no Twee reader changes: no line of it starts with `\::`.
pub open spec fn no_escapes(c: Seq<char>) -> bool {
    forall|i: int| !escapes_header(c, i)
}

/// Escaping only ever appends: the escaped text of a prefix is a prefix.
pub proof fn lemma_escape_prefix(c: Seq<char>, n: int, m: int)
    requires
        0 <= n <= m <= c.len(),
    ensures
        n <= escape_upto(c, n).len() <= escape_upto(c, m).len(),
        escape_upto(c, m).take(escape_upto(c, n).len() as int) == escape_upto(c, n),
        n < m ==> escape_upto(c, n).len() < escape_upto(c, m).len(),
        n > 0 ==> escape_upto(c, n).last() == c[n - 1],
        (n == 0) == (escape_upto(c, n).len() == 0),
    decreases m - n,
{
    lemma_escape_len(c, n);
    if n == m {
        assert(escape_upto(c, m).take(escape_upto(c, n).len() as int) =~= escape_upto(c, n));
    } else {
        lemma_escape_prefix(c, n, m - 1);
        let k = escape_upto(c, n).len() as int;
        assert(escape_upto(c, m).take(k) =~= escape_upto(c, m - 1).take(k));
    }
}

proof fn lemma_escape_len(c: Seq<char>, n: int)
    requires
        0 <= n <= c.len(),
    ensures
        n <= escape_upto(c, n).len(),
        n > 0 ==> escape_upto(c, n).last() == c[n - 1],
    decreases n,
{
    if n > 0 {
        lemma_escape_len(c, n - 1);
    }
}

/// What escaping does to passage text, seen from the escaped text: after
/// the escaped form of the first `n` characters, unescaping has given
/// those characters back, and no line so far starts with `::`.
pub proof fn lemma_escape_facts(c: Seq<char>, n: int)
    requires
        0 <= n <= c.len(),
        no_escapes(c),
    ensures
        ({
            let e = escape_content(c);
            let k = escape_upto(c, n).len() as int;
            &&& n <= k <= e.len()
            &&& e.take(k) == escape_upto(c, n)
            &&& unescape_upto(e, k) == c.take(n)
            &&& forall|r: int| 0 <= r < k ==> !starts_colons(e, r)
        }),
    decreases n,
{
    let total = c.len() as int;
    let e = escape_content(c);
    lemma_escape_prefix(c, n, total);
    if n == 0 {
        assert(c.take(0) =~= Seq::<char>::empty());
    } else {
        let m = n - 1;
        lemma_escape_facts(c, m);
        let k = escape_upto(c, m).len() as int;
        lemma_escape_prefix(c, m, total);
        lemma_escape_prefix(c, n, total);
        assert(!escapes_header(c, m));
        // The characters of the escaped text from `k` on.
        if m + 1 < total {
            lemma_escape_prefix(c, m + 2, total);
        }
        if m + 2 < total {
            lemma_escape_prefix(c, m + 3, total);
        }
        let now = escape_upto(c, n);
        assert(e.take(now.len() as int) == now);
        if starts_colons(c, m) {
            assert(now == escape_upto(c, m).push('\\').push(c[m]));
            assert(e[k] == now[k]);
            assert(e[k + 1] == now[k + 1]);
            let next = escape_upto(c, m + 2);
            assert(!starts_colons(c, m + 1));
            assert(next == now.push(c[m + 1]));
            assert(e.take(next.len() as int) == next);
            assert(e[k + 2] == next[k + 2]);
            if m > 0 {
                assert(e[k - 1] == escape_upto(c, m)[k - 1]);
                assert(e.take(k)[k - 1] == e[k - 1]);
            }
            assert(escapes_header(e, k));
            assert(unescape_upto(e, k + 1) == unescape_upto(e, k));
            assert(!escapes_header(e, k + 1));
            assert(unescape_upto(e, k + 2) == unescape_upto(e, k + 1).push(e[k + 1]));
            assert(c.take(m).push(c[m]) =~= c.take(n));
            assert forall|r: int| 0 <= r < k + 2 implies !starts_colons(e, r) by {
                if r == k + 1 {
                    assert(e[r - 1] == '\\');
                }
            }
        } else {
            assert(now == escape_upto(c, m).push(c[m]));
            assert(e[k] == now[k]);
            if m > 0 {
                assert(e.take(k)[k - 1] == e[k - 1]);
                assert(e[k - 1] == c[m - 1]);
            }
            if at_line_start(e, k) {
                assert(at_line_start(c, m));
            }
            if k + 1 < e.len() {
                assert(m + 1 < total);
                if c[m] != '\n' {
                    let next = escape_upto(c, m + 2);
                    assert(!starts_colons(c, m + 1));
                    assert(next == now.push(c[m + 1]));
                    assert(e.take(next.len() as int) == next);
                    assert(e[k + 1] == next[k + 1]);
                    if k + 2 < e.len() {
                        assert(m + 2 < total);
                        if c[m + 1] != '\n' {
                            let third = escape_upto(c, m + 3);
                            assert(!starts_colons(c, m + 2));
                            assert(third == next.push(c[m + 2]));
                            assert(e.take(third.len() as int) == third);
                            assert(e[k + 2] == third[k + 2]);
                        }
                    }
                }
            }
            assert(!escapes_header(e, k));
            assert(!starts_colons(e, k));
            assert(unescape_upto(e, k + 1) == unescape_upto(e, k).push(e[k]));
            assert(c.take(m).push(c[m]) =~= c.take(n));
        }
    }
}

/// Unescaping what escaping wrote gives the text back, and what escaping
/// wrote has no line that starts with `::`.
pub proof fn lemma_unescape_escape(c: Seq<char>)
    requires
        no_escapes(c),
    ensures
        unescape(escape_content(c)) == c,
        forall|r: int| !starts_colons(escape_content(c), r),
{
    lemma_escape_facts(c, c.len() as int);
    assert(c.take(c.len() as int) =~= c);
    let e = escape_content(c);
    assert(escape_upto(c, c.len() as int) == e);
    assert(e.take(e.len() as int) =~= e);
}

/// Line feeds behind a text stay where they are when it is unescaped.
pub proof fn lemma_unescape_tail(x: Seq<char>, tail: Seq<char>, k: int)
    requires
        0 <= k <= x.len() + tail.len(),
        forall|i: int| 0 <= i < tail.len() ==> tail[i] == '\n',
    ensures
        k <= x.len() ==> unescape_upto(x + tail, k) == unescape_upto(x, k),
        k > x.len() ==> unescape_upto(x + tail, k) == unescape(x) + tail.take(k - x.len()),
    decreases k,
{
    let s = x + tail;
    if k > 0 {
        lemma_unescape_tail(x, tail, k - 1);
        let i = k - 1;
        if k <= x.len() {
            assert(s[i] == x[i]);
            if i > 0 {
                assert(s[i - 1] == x[i - 1]);
            }
            if i + 2 < s.len() {
                if i + 1 < x.len() {
                    assert(s[i + 1] == x[i + 1]);
                } else {
                    assert(s[i + 1] == tail[i + 1 - x.len()]);
                }
                if i + 2 < x.len() {
                    assert(s[i + 2] == x[i + 2]);
                } else {
                    assert(s[i + 2] == tail[i + 2 - x.len()]);
                }
            }
            assert(escapes_header(s, i) == escapes_header(x, i));
        } else {
            assert(s[i] == tail[i - x.len()]);
            assert(!escapes_header(s, i));
            if i == x.len() {
                assert(unescape_upto(s, i) == unescape(x));
                assert(unescape(x) + tail.take(0) =~= unescape(x));
            }
            assert((unescape(x) + tail.take(i - x.len())).push(s[i]) =~= unescape(x) + tail.take(
                k - x.len(),
            ));
        }
    }
}

/// The end of a line is found where it is, whatever stands around the
/// text that holds it.
pub proof fn lemma_line_end_local(s: Seq<char>, off: int, y: Seq<char>, i: int)
    requires
        0 <= off,
        off + y.len() <= s.len(),
        s.subrange(off, off + y.len()) == y,
        0 <= i <= y.len(),
        line_end(y, i) < y.len(),
    ensures
        line_end(s, off + i) == off + line_end(y, i),
    decreases y.len() - i,
{
    if i < y.len() {
        assert(s[off + i] == s.subrange(off, off + y.len())[i]);
        if y[i] != '\n' {
            lemma_line_end_local(s, off, y, i + 1);
        }
    }
}

/// A header line reads the same, whatever stands around the text that
/// holds it up to its line feed.
pub proof fn lemma_scan_local(s: Seq<char>, off: int, y: Seq<char>, i: int, st: HeaderScan)
    requires
        0 <= off,
        off + y.len() <= s.len(),
        s.subrange(off, off + y.len()) == y,
        0 <= i <= y.len(),
        line_end(y, i) < y.len(),
    ensures
        scan_line(s, off + i, st) == scan_line(y, i, st),
    decreases y.len() - i,
{
    if i < y.len() {
        assert(s[off + i] == s.subrange(off, off + y.len())[i]);
        if y[i] == '\r' || y[i] == '\n' {
        } else if opens_meta(st, y[i]) {
            lemma_line_end_local(s, off, y, i);
            lemma_line_end(y, i);
            let end = line_end(y, i);
            assert(s.subrange(off + i, off + end) =~= y.subrange(i, end)) by {
                assert forall|j: int| 0 <= j < end - i implies s.subrange(off + i, off + end)[j]
                    == y.subrange(i, end)[j] by {
                    assert(s[off + i + j] == s.subrange(off, off + y.len())[i + j]);
                }
            }
        } else {
            lemma_scan_local(s, off, y, i + 1, scan_step(st, y[i]));
        }
    }
}

/// Whether a header starts at a position does not depend on what stands
/// before the line feed that the text follows.
pub proof fn lemma_is_header_shift(pre: Seq<char>, x: Seq<char>, p: int)
    requires
        pre.len() > 0,
        pre.last() == '\n',
        0 <= p <= x.len(),
    ensures
        is_header(pre + x, pre.len() + p) == is_header(x, p),
        0 <= line_end(x, p) <= x.len(),
        line_end(pre + x, pre.len() + p) == pre.len() + line_end(x, p),
{
    let s = pre + x;
    lemma_line_end_shift(pre, x, p);
    if p + 2 <= x.len() {
        lemma_line_end_shift(pre, x, p + 2);
        assert(s[pre.len() + p] == x[p]);
        assert(s[pre.len() + p + 1] == x[p + 1]);
        if p > 0 {
            assert(s[pre.len() + p - 1] == x[p - 1]);
        } else {
            assert(s[pre.len() - 1] == pre[pre.len() - 1]);
        }
    }
}

/// The end of a line does not depend on what stands before the text.
pub proof fn lemma_line_end_shift(pre: Seq<char>, x: Seq<char>, i: int)
    requires
        0 <= i <= x.len(),
    ensures
        line_end(pre + x, pre.len() + i) == pre.len() + line_end(x, i),
        i <= line_end(x, i) <= x.len(),
    decreases x.len() - i,
{
    if i < x.len() {
        assert((pre + x)[pre.len() + i] == x[i]);
        if x[i] != '\n' {
            lemma_line_end_shift(pre, x, i + 1);
        }
    }
}

/// The next header does not depend on what stands before the line feed
/// that the text follows.
pub proof fn lemma_next_header_shift(pre: Seq<char>, x: Seq<char>, i: int)
    requires
        pre.len() > 0,
        pre.last() == '\n',
        0 <= i <= x.len(),
    ensures
        next_header(pre + x, pre.len() + i) == pre.len() + next_header(x, i),
    decreases x.len() - i,
{
    if i < x.len() {
        lemma_is_header_shift(pre, x, i);
        if !is_header(x, i) {
            lemma_next_header_shift(pre, x, i + 1);
        }
    }
}

/// Reading from a header on does not depend on what stands before the
/// line feed that the text follows.
pub proof fn lemma_read_from_shift(pre: Seq<char>, x: Seq<char>, p: int, st: ReadState)
    requires
        pre.len() > 0,
        pre.last() == '\n',
        is_header(x, p),
    ensures
        read_from(pre + x, pre.len() + p, st) == read_from(x, p, st),
    decreases x.len() - p,
{
    let s = pre + x;
    let off = pre.len() as int;
    lemma_line_end(x, p + 2);
    lemma_line_end_shift(pre, x, p + 2);
    let body = line_end(x, p + 2) + 1;
    lemma_next_header(x, body);
    lemma_next_header_shift(pre, x, body);
    let next = next_header(x, body);
    assert(s.subrange(off, off + x.len()) =~= x);
    lemma_scan_local(s, off, x, p + 2, scan_start());
    assert(s.subrange(off + body, off + next) =~= x.subrange(body, next));
    if p < next < x.len() {
        let h = header_at(x, p + 2);
        let content = unescape(x.subrange(body, next));
        let after = record(st, h, content, parsed_json(json_source(h, content)));
        lemma_read_from_shift(pre, x, next, after);
    }
}

/// One header line and the text under it.
pub struct Record {
    /// The header line, after its `::` and without its line feed.
    pub line: Seq<char>,
    /// What follows the header line, up to the next header.
    pub body: Seq<char>,
}

/// A record as text.
pub open spec fn record_text(r: Record) -> Seq<char> {
    seq![':', ':'] + r.line + seq!['\n'] + r.body
}

/// Records as text, one after the other.
pub open spec fn records_text(recs: Seq<Record>) -> Seq<char>
    decreases recs.len(),
{
    if recs.len() == 0 {
        Seq::empty()
    } else {
        record_text(recs[0]) + records_text(recs.drop_first())
    }
}

/// A record that reads as one passage: its line is one line, its body ends
/// in a line feed, and no line of its body starts with `::`.
pub open spec fn record_clean(r: Record) -> bool {
    &&& forall|i: int| 0 <= i < r.line.len() ==> r.line[i] != '\n'
    &&& r.body.len() > 0
    &&& r.body.last() == '\n'
    &&& forall|q: int| !starts_colons(r.body, q)
}

/// What a header line says, read on its own.
pub open spec fn line_header(line: Seq<char>) -> HeaderView {
    header_at(line + seq!['\n'], 0)
}

/// The state after one record.
pub open spec fn take_record(st: ReadState, r: Record) -> ReadState {
    let h = line_header(r.line);
    let content = unescape(r.body);
    record(st, h, content, parsed_json(json_source(h, content)))
}

/// The state after the records, one after the other.
pub open spec fn take_records(st: ReadState, recs: Seq<Record>) -> ReadState
    decreases recs.len(),
{
    if recs.len() == 0 {
        st
    } else {
        take_records(take_record(st, recs[0]), recs.drop_first())
    }
}

/// Reading the text of clean records is taking the records one after the
/// other.
pub proof fn lemma_read_records(recs: Seq<Record>, st: ReadState)
    requires
        recs.len() > 0,
        forall|i: int| 0 <= i < recs.len() ==> record_clean(#[trigger] recs[i]),
    ensures
        is_header(records_text(recs), 0),
        read_from(records_text(recs), 0, st) == take_records(st, recs),
    decreases recs.len(),
{
    let r = recs[0];
    let rest = recs.drop_first();
    let tail = records_text(rest);
    let head = record_text(r);
    let s = records_text(recs);
    assert(s == head + tail);
    assert(record_clean(recs[0]));
    let ls: int = 2;
    let le: int = 2 + r.line.len() as int;
    let bs: int = le + 1;
    let nx: int = bs + r.body.len() as int;
    assert(head.len() == nx);
    assert(s[0] == ':' && s[1] == ':');
    assert(s[le] == '\n');
    assert forall|q: int| ls <= q < le implies s[q] != '\n' by {
        assert(s[q] == r.line[q - 2]);
    }
    lemma_line_end_is(s, ls, le);
    assert(is_header(s, 0));
    assert(head.last() == r.body.last());
    if rest.len() > 0 {
        assert forall|i: int| 0 <= i < rest.len() implies record_clean(#[trigger] rest[i]) by {
            assert(rest[i] == recs[i + 1]);
        }
        lemma_read_records(rest, take_record(st, r));
        lemma_is_header_shift(head, tail, 0);
    } else {
        assert(tail =~= Seq::<char>::empty());
        assert(s =~= head);
    }
    assert forall|q: int| bs <= q < nx implies !is_header(s, q) by {
        let at = q - bs;
        assert(s[q] == r.body[at]);
        assert(s[q - 1] == if at == 0 {
            '\n'
        } else {
            r.body[at - 1]
        });
        if at + 1 < r.body.len() {
            assert(s[q + 1] == r.body[at + 1]);
            assert(!starts_colons(r.body, at));
        }
    }
    lemma_next_header_is(s, bs, nx);
    assert(s.subrange(bs, nx) =~= r.body);
    let y = r.line + seq!['\n'];
    assert(s.subrange(2, 2 + y.len() as int) =~= y);
    assert forall|q: int| 0 <= q < r.line.len() implies y[q] != '\n' by {
        assert(y[q] == r.line[q]);
    }
    lemma_line_end_is(y, 0, r.line.len() as int);
    lemma_scan_local(s, 2, y, 0, scan_start());
    assert(header_at(s, 2) == line_header(r.line));
    let after = take_record(st, r);
    assert(line_end(s, 2) + 1 == bs);
    assert(next_header(s, bs) == nx);
    assert(read_from(s, 0, st) == if 0 < nx < s.len() {
        read_from(s, nx, after)
    } else {
        after
    });
    if rest.len() > 0 {
        assert(tail == record_text(rest[0]) + records_text(rest.drop_first()));
        assert(tail.len() > 0);
        lemma_read_from_shift(head, tail, 0, after);
        assert(take_records(st, recs) == take_records(after, rest));
    } else {
        assert(take_records(after, rest) == after);
    }
}

/// The reading of the characters `x`, none of which ends the line or opens
/// the metadata.
pub open spec fn scan_over(st: HeaderScan, x: Seq<char>) -> HeaderScan
    decreases x.len(),
{
    if x.len() == 0 {
        st
    } else {
        scan_step(scan_over(st, x.drop_last()), x.last())
    }
}

/// Whether none of the characters `x` ends the line or opens the metadata.
pub open spec fn passes(st: HeaderScan, x: Seq<char>) -> bool
    decreases x.len(),
{
    x.len() == 0 || (passes(st, x.drop_last()) && x.last() != '\r' && x.last() != '\n'
        && !opens_meta(scan_over(st, x.drop_last()), x.last()))
}

/// Reading a line first reads the characters that pass.
pub proof fn lemma_scan_advance(s: Seq<char>, i: int, st: HeaderScan, x: Seq<char>)
    requires
        0 <= i,
        i + x.len() <= s.len(),
        s.subrange(i, i + x.len()) == x,
        passes(st, x),
    ensures
        scan_line(s, i, st) == scan_line(s, i + x.len(), scan_over(st, x)),
    decreases x.len(),
{
    if x.len() > 0 {
        let init = x.drop_last();
        assert(s.subrange(i, i + init.len()) =~= init) by {
            assert forall|j: int| 0 <= j < init.len() implies s.subrange(i, i + init.len())[j]
                == init[j] by {
                assert(s.subrange(i, i + x.len())[j] == x[j]);
            }
        }
        lemma_scan_advance(s, i, st, init);
        let j = i + init.len();
        assert(s[j] == s.subrange(i, i + x.len())[init.len() as int]);
        assert(s[j] == x.last());
    }
}

/// Reading two texts in a row is reading the second from where the first
/// ended.
pub proof fn lemma_scan_over_concat(st: HeaderScan, a: Seq<char>, b: Seq<char>)
    ensures
        scan_over(st, a + b) == scan_over(scan_over(st, a), b),
        passes(st, a + b) == (passes(st, a) && passes(scan_over(st, a), b)),
    decreases b.len(),
{
    if b.len() == 0 {
        assert(a + b =~= a);
    } else {
        lemma_scan_over_concat(st, a, b.drop_last());
        assert((a + b).drop_last() =~= a + b.drop_last());
        assert((a + b).last() == b.last());
    }
}

/// Reading one character.
pub proof fn lemma_scan_over_one(st: HeaderScan, c: char)
    ensures
        scan_over(st, seq![c]) == scan_step(st, c),
        passes(st, seq![c]) == (c != '\r' && c != '\n' && !opens_meta(st, c)),
{
    assert(seq![c].drop_last() =~= Seq::<char>::empty());
    assert(seq![c].last() == c);
    assert(scan_over(st, Seq::<char>::empty()) == st);
    assert(passes(st, Seq::<char>::empty()));
}

/// In the name of a passage.
pub open spec fn in_title(name: Seq<char>) -> HeaderScan {
    HeaderScan {
        mode: HeaderMode::Title,
        escape: false,
        name,
        tags: Seq::empty(),
        tag: Seq::empty(),
        meta: None,
    }
}

/// Between `[` and `]`.
pub open spec fn in_tags(name: Seq<char>, tags: Seq<Seq<char>>, tag: Seq<char>) -> HeaderScan {
    HeaderScan { mode: HeaderMode::Tags, escape: false, name, tags, tag, meta: None }
}

/// After `]`.
pub open spec fn after_tags(name: Seq<char>, tags: Seq<Seq<char>>) -> HeaderScan {
    HeaderScan {
        mode: HeaderMode::Between,
        escape: false,
        name,
        tags,
        tag: Seq::empty(),
        meta: None,
    }
}

/// Whether a text holds neither a carriage return nor a line feed.
pub open spec fn one_line(s: Seq<char>) -> bool {
    forall|i: int| 0 <= i < s.len() ==> s[i] != '\r' && s[i] != '\n'
}

/// An escaped name reads as the name.
pub proof fn lemma_scan_name(before: Seq<char>, w: Seq<char>)
    requires
        one_line(w),
    ensures
        passes(in_title(before), escape_text(w)),
        scan_over(in_title(before), escape_text(w)) == in_title(before + w),
        one_line(escape_text(w)),
    decreases w.len(),
{
    let st = in_title(before);
    if w.len() == 0 {
        assert(before + w =~= before);
    } else {
        let init = w.drop_last();
        let c = w.last();
        assert(one_line(init)) by {
            assert forall|i: int| 0 <= i < init.len() implies init[i] != '\r' && init[i]
                != '\n' by {
                assert(init[i] == w[i]);
            }
        }
        lemma_scan_name(before, init);
        assert(w[w.len() - 1] == c);
        let e = escape_text(init);
        let mid = in_title(before + init);
        assert((before + init).push(c) =~= before + w);
        if is_special(c) {
            let one = e.push('\\');
            assert(one.drop_last() =~= e);
            assert(one.push(c).drop_last() =~= one);
            assert(scan_over(st, one) == scan_step(mid, '\\'));
            assert(passes(st, one));
            assert(scan_over(st, one.push(c)) == scan_step(scan_step(mid, '\\'), c));
            assert(passes(st, one.push(c)));
            assert forall|i: int| 0 <= i < one.push(c).len() implies one.push(c)[i] != '\r'
                && one.push(c)[i] != '\n' by {
                if i < e.len() {
                    assert(one.push(c)[i] == e[i]);
                }
            }
        } else {
            assert(e.push(c).drop_last() =~= e);
            assert(scan_over(st, e.push(c)) == scan_step(mid, c));
            assert(passes(st, e.push(c)));
            assert forall|i: int| 0 <= i < e.push(c).len() implies e.push(c)[i] != '\r'
                && e.push(c)[i] != '\n' by {
                if i < e.len() {
                    assert(e.push(c)[i] == e[i]);
                }
            }
        }
    }
}

/// An escaped tag reads as the tag.
pub proof fn lemma_scan_tag(name: Seq<char>, tags: Seq<Seq<char>>, before: Seq<char>, w: Seq<char>)
    requires
        forall|i: int| 0 <= i < w.len() ==> !is_space(#[trigger] w[i]),
    ensures
        passes(in_tags(name, tags, before), escape_text(w)),
        scan_over(in_tags(name, tags, before), escape_text(w)) == in_tags(name, tags, before + w),
        one_line(escape_text(w)),
    decreases w.len(),
{
    let st = in_tags(name, tags, before);
    if w.len() == 0 {
        assert(before + w =~= before);
    } else {
        let init = w.drop_last();
        let c = w.last();
        assert forall|i: int| 0 <= i < init.len() implies !is_space(#[trigger] init[i]) by {
            assert(init[i] == w[i]);
        }
        lemma_scan_tag(name, tags, before, init);
        assert(!is_space(w[w.len() - 1]));
        assert(c != '\r' && c != '\n');
        let e = escape_text(init);
        let mid = in_tags(name, tags, before + init);
        assert((before + init).push(c) =~= before + w);
        if is_special(c) {
            let one = e.push('\\');
            assert(one.drop_last() =~= e);
            assert(one.push(c).drop_last() =~= one);
            assert(scan_over(st, one) == scan_step(mid, '\\'));
            assert(passes(st, one));
            assert(scan_over(st, one.push(c)) == scan_step(scan_step(mid, '\\'), c));
            assert(passes(st, one.push(c)));
            assert forall|i: int| 0 <= i < one.push(c).len() implies one.push(c)[i] != '\r'
                && one.push(c)[i] != '\n' by {
                if i < e.len() {
                    assert(one.push(c)[i] == e[i]);
                }
            }
        } else {
            assert(e.push(c).drop_last() =~= e);
            assert(scan_over(st, e.push(c)) == scan_step(mid, c));
            assert(passes(st, e.push(c)));
            assert forall|i: int| 0 <= i < e.push(c).len() implies e.push(c)[i] != '\r'
                && e.push(c)[i] != '\n' by {
                if i < e.len() {
                    assert(e.push(c)[i] == e[i]);
                }
            }
        }
    }
}

/// Escaped tags with spaces between them read as the tags, the last one
/// still open.
pub proof fn lemma_scan_tags(name: Seq<char>, tags: Seq<Seq<char>>)
    requires
        tags.len() > 0,
        forall|i: int| 0 <= i < tags.len() ==> is_word(#[trigger] tags[i]),
    ensures
        passes(in_tags(name, Seq::empty(), Seq::empty()), tags_text(tags)),
        scan_over(in_tags(name, Seq::empty(), Seq::empty()), tags_text(tags)) == in_tags(
            name,
            tags.drop_last(),
            tags.last(),
        ),
        one_line(tags_text(tags)),
    decreases tags.len(),
{
    let st = in_tags(name, Seq::empty(), Seq::empty());
    let last = tags.last();
    assert(is_word(tags[tags.len() - 1]));
    if tags.len() == 1 {
        lemma_scan_tag(name, Seq::empty(), Seq::empty(), tags[0]);
        assert(Seq::<char>::empty() + tags[0] =~= tags[0]);
        assert(tags.drop_last() =~= Seq::<Seq<char>>::empty());
    } else {
        let init = tags.drop_last();
        assert forall|i: int| 0 <= i < init.len() implies is_word(#[trigger] init[i]) by {
            assert(init[i] == tags[i]);
        }
        lemma_scan_tags(name, init);
        assert(is_word(init[init.len() - 1]));
        let a = tags_text(init);
        let mid = in_tags(name, init.drop_last(), init.last());
        lemma_scan_over_concat(st, a, seq![' ']);
        lemma_scan_over_one(mid, ' ');
        assert(is_space(' '));
        let spaced = in_tags(name, init.drop_last().push(init.last()), Seq::empty());
        assert(scan_step(mid, ' ') == spaced);
        assert(init.drop_last().push(init.last()) =~= init);
        lemma_scan_tag(name, init, Seq::empty(), last);
        assert(Seq::<char>::empty() + last =~= last);
        lemma_scan_over_concat(st, a + seq![' '], escape_text(last));
        let all = a + seq![' '] + escape_text(last);
        assert forall|i: int| 0 <= i < all.len() implies all[i] != '\r' && all[i] != '\n' by {
            if i < a.len() {
                assert(all[i] == a[i]);
            } else if i == a.len() {
                assert(all[i] == ' ');
            } else {
                assert(all[i] == escape_text(last)[i - a.len() - 1]);
            }
        }
    }
}

/// A header line as Twee writes it, after its `::`: a space and the
/// escaped name, the tags in brackets where there are any, and the
/// metadata text where there is one.
pub open spec fn header_line(
    name: Seq<char>,
    tags: Seq<Seq<char>>,
    meta_text: Option<Seq<char>>,
) -> Seq<char> {
    seq![' '] + escape_text(name) + (if tags.len() > 0 {
        seq![' ', '['] + tags_text(tags) + seq![']']
    } else {
        Seq::empty()
    }) + (match meta_text {
        Some(m) => seq![' '] + m,
        None => Seq::empty(),
    })
}

/// A name that a header line holds without loss: not empty, on one line,
/// and without white space around it.
pub open spec fn name_faithful(name: Seq<char>) -> bool {
    name.len() > 0 && trim(name) == name && one_line(name)
}

/// Metadata text that a header line holds without loss: it starts with
/// `{` and holds no line feed.
pub open spec fn meta_line(m: Seq<char>) -> bool {
    m.len() > 0 && m[0] == '{' && forall|i: int| 0 <= i < m.len() ==> m[i] != '\n'
}

/// The start of a written header line: the space, the name and the tags.
pub open spec fn line_start(name: Seq<char>, tags: Seq<Seq<char>>) -> Seq<char> {
    seq![' '] + escape_text(name) + (if tags.len() > 0 {
        seq![' ', '['] + tags_text(tags) + seq![']']
    } else {
        Seq::empty()
    })
}

/// Where reading stands after the start of a written header line.
pub open spec fn after_start(name: Seq<char>, tags: Seq<Seq<char>>) -> HeaderScan {
    if tags.len() > 0 {
        after_tags(seq![' '] + name + seq![' '], tags)
    } else {
        in_title(seq![' '] + name)
    }
}

/// The start of a written header line reads as the name and the tags.
pub proof fn lemma_line_start(name: Seq<char>, tags: Seq<Seq<char>>)
    requires
        one_line(name),
        forall|i: int| 0 <= i < tags.len() ==> is_word(#[trigger] tags[i]),
    ensures
        passes(scan_start(), line_start(name, tags)),
        scan_over(scan_start(), line_start(name, tags)) == after_start(name, tags),
        one_line(line_start(name, tags)),
{
    let st0 = scan_start();
    assert(st0 == in_title(Seq::empty()));
    assert(is_space(' '));
    lemma_scan_over_one(st0, ' ');
    let n1 = seq![' '];
    assert(Seq::<char>::empty().push(' ') =~= n1);
    assert(scan_step(st0, ' ') == in_title(n1));
    lemma_scan_name(n1, name);
    let x1 = seq![' '] + escape_text(name);
    lemma_scan_over_concat(st0, seq![' '], escape_text(name));
    let st1 = in_title(n1 + name);
    assert(passes(st0, x1) && scan_over(st0, x1) == st1);
    assert(one_line(x1)) by {
        assert forall|i: int| 0 <= i < x1.len() implies x1[i] != '\r' && x1[i] != '\n' by {
            if i > 0 {
                assert(x1[i] == escape_text(name)[i - 1]);
            }
        }
    }
    if tags.len() > 0 {
        let tagspart = seq![' ', '['] + tags_text(tags) + seq![']'];
        let n2 = seq![' '] + name + seq![' '];
        assert((n1 + name).push(' ') =~= n2);
        lemma_scan_over_one(st1, ' ');
        assert(scan_step(st1, ' ') == in_title(n2));
        lemma_scan_over_one(in_title(n2), '[');
        let open = in_tags(n2, Seq::empty(), Seq::empty());
        assert(scan_step(in_title(n2), '[') == open);
        lemma_scan_over_concat(st1, seq![' '], seq!['[']);
        assert(seq![' '] + seq!['['] =~= seq![' ', '[']);
        lemma_scan_tags(n2, tags);
        lemma_scan_over_concat(st1, seq![' ', '['], tags_text(tags));
        let inside = in_tags(n2, tags.drop_last(), tags.last());
        lemma_scan_over_one(inside, ']');
        assert(is_word(tags[tags.len() - 1]));
        assert(tags.drop_last().push(tags.last()) =~= tags);
        assert(scan_step(inside, ']') == after_tags(n2, tags));
        lemma_scan_over_concat(st1, seq![' ', '['] + tags_text(tags), seq![']']);
        lemma_scan_over_concat(st0, x1, tagspart);
        let x2 = x1 + tagspart;
        assert(x2 == line_start(name, tags));
        assert forall|i: int| 0 <= i < x2.len() implies x2[i] != '\r' && x2[i] != '\n' by {
            if i < x1.len() {
                assert(x2[i] == x1[i]);
            } else {
                let j = i - x1.len();
                assert(x2[i] == tagspart[j]);
                if 2 <= j < tagspart.len() - 1 {
                    assert(tagspart[j] == tags_text(tags)[j - 2]);
                }
            }
        }
    } else {
        assert(line_start(name, tags) =~= x1);
    }
}

/// A written header line with metadata reads as the name, the tags and
/// the metadata text that it was written from.
pub proof fn lemma_line_header_meta(name: Seq<char>, tags: Seq<Seq<char>>, m: Seq<char>)
    requires
        name_faithful(name),
        forall|i: int| 0 <= i < tags.len() ==> is_word(#[trigger] tags[i]),
        meta_line(m),
    ensures
        line_header(header_line(name, tags, Some(m))) == (HeaderView {
            name,
            tags,
            meta: m,
            unclosed: false,
        }),
        forall|i: int|
            0 <= i < header_line(name, tags, Some(m)).len() ==> header_line(name, tags, Some(m))[i]
                != '\n',
{
    let line = header_line(name, tags, Some(m));
    let s = line + seq!['\n'];
    let st0 = scan_start();
    let x2 = line_start(name, tags);
    let st2 = after_start(name, tags);
    lemma_line_start(name, tags);
    lemma_trimmed_ends(name);
    assert(is_space(' '));
    lemma_scan_over_one(st2, ' ');
    let x3 = x2 + seq![' '];
    lemma_scan_over_concat(st0, x2, seq![' ']);
    let st3 = scan_step(st2, ' ');
    assert(passes(st0, x3) && scan_over(st0, x3) == st3);
    assert(line =~= x3 + m);
    let at = x3.len() as int;
    assert(s.subrange(0, at) =~= x3);
    lemma_scan_advance(s, 0, st0, x3);
    assert(s[at] == m[0]);
    assert(opens_meta(st3, '{'));
    assert forall|q: int| at <= q < line.len() implies s[q] != '\n' by {
        assert(s[q] == m[q - at]);
    }
    lemma_line_end_is(s, at, line.len() as int);
    assert(s.subrange(at, line.len() as int) =~= m);
    let done = HeaderScan { meta: Some(m), ..st3 };
    assert(scan_line(s, at, st3) == done);
    assert(!is_space(m[0]));
    assert(!is_blank(m));
    assert(is_blank(seq![' ']));
    lemma_trim_padded(seq![' '], name, seq![' ']);
    if tags.len() > 0 {
        assert(st3.name == seq![' '] + name + seq![' ']);
    } else {
        assert(st3.name =~= seq![' '] + name + seq![' ']);
        assert(st3.tags =~= tags);
    }
    assert(header_of(done) == (HeaderView { name, tags, meta: m, unclosed: false }));
    assert forall|i: int| 0 <= i < line.len() implies line[i] != '\n' by {
        if i < x2.len() {
            assert(line[i] == x2[i]);
        } else if i == x2.len() {
            assert(line[i] == ' ');
        } else {
            assert(line[i] == m[i - at]);
        }
    }
}

/// A written header line without metadata reads as the name and the tags
/// that it was written from, and as empty metadata.
pub proof fn lemma_line_header_plain(name: Seq<char>, tags: Seq<Seq<char>>)
    requires
        name_faithful(name),
        forall|i: int| 0 <= i < tags.len() ==> is_word(#[trigger] tags[i]),
    ensures
        line_header(header_line(name, tags, None)) == (HeaderView {
            name,
            tags,
            meta: "{}"@,
            unclosed: false,
        }),
        forall|i: int|
            0 <= i < header_line(name, tags, None).len() ==> header_line(name, tags, None)[i]
                != '\n',
{
    let line = header_line(name, tags, None);
    let s = line + seq!['\n'];
    let st0 = scan_start();
    let x2 = line_start(name, tags);
    let st2 = after_start(name, tags);
    lemma_line_start(name, tags);
    lemma_trimmed_ends(name);
    assert(line =~= x2);
    let at = x2.len() as int;
    assert(s.subrange(0, at) =~= x2);
    lemma_scan_advance(s, 0, st0, x2);
    assert(s[at] == '\n');
    assert(scan_line(s, at, st2) == st2);
    assert(is_space(' '));
    assert(is_blank(seq![' ']));
    assert(is_blank(Seq::<char>::empty()));
    if tags.len() > 0 {
        lemma_trim_padded(seq![' '], name, seq![' ']);
    } else {
        assert(seq![' '] + name =~= seq![' '] + name + Seq::<char>::empty());
        lemma_trim_padded(seq![' '], name, Seq::empty());
        assert(st2.tags =~= tags);
    }
    assert(header_of(st2) == (HeaderView { name, tags, meta: "{}"@, unclosed: false }));
    assert forall|i: int| 0 <= i < line.len() implies line[i] != '\n' by {
        assert(line[i] == x2[i]);
    }
}

/// The two reserved names are names that a header line holds without
/// loss, and they are written as they are.
pub proof fn lemma_reserved_names()
    ensures
        name_faithful("StoryTitle"@),
        name_faithful("StoryData"@),
        escape_text("StoryTitle"@) == "StoryTitle"@,
        escape_text("StoryData"@) == "StoryData"@,
        "StoryTitle"@ != "StoryData"@,
        "StoryTitle"@.len() == 10,
        "StoryData"@.len() == 9,
{
    reveal_strlit("StoryTitle");
    reveal_strlit("StoryData");
    let a = "StoryTitle"@;
    let b = "StoryData"@;
    assert(a.len() == 10 && b.len() == 9);
    assert(a =~= seq!['S', 't', 'o', 'r', 'y', 'T', 'i', 't', 'l', 'e']);
    assert(b =~= seq!['S', 't', 'o', 'r', 'y', 'D', 'a', 't', 'a']);
    assert(!is_space('S') && !is_space('e') && !is_space('a'));
    assert(trim_end(a) == a);
    assert(trim_end(b) == b);
    assert(crate::text::trim_start(a) == a);
    assert(crate::text::trim_start(b) == b);
    lemma_escape_plain(a);
    lemma_escape_plain(b);
}

/// A text without backslashes, brackets and braces is written as it is.
pub proof fn lemma_escape_plain(w: Seq<char>)
    requires
        forall|i: int| 0 <= i < w.len() ==> !is_special(#[trigger] w[i]),
    ensures
        escape_text(w) == w,
    decreases w.len(),
{
    if w.len() > 0 {
        let init = w.drop_last();
        assert forall|i: int| 0 <= i < init.len() implies !is_special(#[trigger] init[i]) by {
            assert(init[i] == w[i]);
        }
        lemma_escape_plain(init);
        assert(!is_special(w[w.len() - 1]));
        assert(init.push(w.last()) =~= w);
    }
}

/// Text without escapes is read as it is.
pub proof fn lemma_unescape_plain(x: Seq<char>, k: int)
    requires
        no_escapes(x),
        0 <= k <= x.len(),
    ensures
        unescape_upto(x, k) == x.take(k),
    decreases k,
{
    if k == 0 {
        assert(x.take(0) =~= Seq::<char>::empty());
    } else {
        lemma_unescape_plain(x, k - 1);
        assert(!escapes_header(x, k - 1));
        assert(x.take(k - 1).push(x[k - 1]) =~= x.take(k));
    }
}

/// Line feeds behind a text whose lines do not start with `::` start no
/// such line either.
pub proof fn lemma_tail_clean(x: Seq<char>, tail: Seq<char>)
    requires
        forall|q: int| !starts_colons(x, q),
        tail.len() > 0,
        forall|i: int| 0 <= i < tail.len() ==> tail[i] == '\n',
    ensures
        forall|q: int| !starts_colons(x + tail, q),
        (x + tail).len() > 0,
        (x + tail).last() == '\n',
{
    let s = x + tail;
    assert(s.last() == tail[tail.len() - 1]);
    assert forall|q: int| !starts_colons(s, q) by {
        if 0 <= q && q + 1 < s.len() {
            if q + 1 < x.len() {
                assert(s[q] == x[q] && s[q + 1] == x[q + 1]);
                if q > 0 {
                    assert(s[q - 1] == x[q - 1]);
                }
                assert(!starts_colons(x, q));
            } else if q < x.len() {
                assert(s[q + 1] == tail[q + 1 - x.len()]);
            } else {
                assert(s[q] == tail[q - x.len()]);
            }
        }
    }
}

/// The metadata text of a passage in its header line: none where the
/// passage has no metadata.
pub open spec fn meta_text_of(p: PassageView) -> Option<Seq<char>> {
    if p.meta.len() > 0 {
        Some(compact_json(Json::Object(p.meta)))
    } else {
        None
    }
}

/// The record of a passage; `more` says that another passage follows.
pub open spec fn passage_record(p: PassageView, more: bool) -> Record {
    Record {
        line: header_line(p.name, p.tags, meta_text_of(p)),
        body: escape_content(p.content) + (if more {
            seq!['\n', '\n']
        } else {
            seq!['\n']
        }),
    }
}

/// The records of passages.
pub open spec fn passage_records(ps: Seq<PassageView>) -> Seq<Record>
    decreases ps.len(),
{
    if ps.len() == 0 {
        Seq::empty()
    } else {
        seq![passage_record(ps[0], ps.len() > 1)] + passage_records(ps.drop_first())
    }
}

/// The record of the story title.
pub open spec fn title_record(title: Seq<char>) -> Record {
    Record {
        line: header_line("StoryTitle"@, Seq::empty(), None),
        body: escape_text(title) + seq!['\n', '\n'],
    }
}

/// What stands under the `StoryData` header; `more` says that a passage
/// follows.
pub open spec fn data_body(meta: Seq<(Seq<char>, Json)>, more: bool) -> Seq<char> {
    pretty_json(Json::Object(meta)) + (if more {
        seq!['\n', '\n', '\n']
    } else {
        seq!['\n', '\n']
    })
}

/// The record of the story metadata.
pub open spec fn data_record(meta: Seq<(Seq<char>, Json)>, more: bool) -> Record {
    Record { line: header_line("StoryData"@, Seq::empty(), None), body: data_body(meta, more) }
}

/// The records of a story.
pub open spec fn story_records(story: StoryView) -> Seq<Record> {
    seq![title_record(story.title), data_record(story.meta, story.passages.len() > 0)]
        + passage_records(story.passages)
}

/// The text of passages starts with the text of the first passage.
pub proof fn lemma_passages_text_front(ps: Seq<PassageView>)
    requires
        ps.len() > 0,
    ensures
        passages_text(ps) == passage_text(ps[0], compact_json(Json::Object(ps[0].meta)))
            + passages_text(ps.drop_first()),
    decreases ps.len(),
{
    let block = |p: PassageView| passage_text(p, compact_json(Json::Object(p.meta)));
    if ps.len() == 1 {
        assert(ps.drop_last() =~= Seq::<PassageView>::empty());
        assert(ps.drop_first() =~= Seq::<PassageView>::empty());
        assert(passages_text(Seq::<PassageView>::empty()) =~= Seq::<char>::empty());
        assert(ps.last() == ps[0]);
        assert(passages_text(ps) =~= block(ps[0]));
        assert(block(ps[0]) + passages_text(ps.drop_first()) =~= block(ps[0]));
    } else {
        let init = ps.drop_last();
        lemma_passages_text_front(init);
        assert(init[0] == ps[0]);
        let rest = ps.drop_first();
        assert(rest.drop_last() =~= init.drop_first());
        assert(rest.last() == ps.last());
        assert(passages_text(rest) == passages_text(rest.drop_last()) + block(rest.last()));
        assert(passages_text(ps) == passages_text(init) + block(ps.last()));
        assert(passages_text(ps) =~= block(ps[0]) + passages_text(rest));
    }
}

/// The text of one passage is a line feed and the text of its record.
pub proof fn lemma_passage_block(p: PassageView)
    ensures
        passage_text(p, compact_json(Json::Object(p.meta))) == seq!['\n'] + record_text(
            passage_record(p, false),
        ),
        record_text(passage_record(p, true)) == record_text(passage_record(p, false)) + seq![
            '\n',
        ],
{
    reveal_strlit("\n:: ");
    reveal_strlit(" [");
    reveal_strlit("]");
    reveal_strlit(" ");
    reveal_strlit("\n");
    assert("\n:: "@ =~= seq!['\n', ':', ':', ' ']);
    assert(" ["@ =~= seq![' ', '[']);
    assert("]"@ =~= seq![']']);
    assert(" "@ =~= seq![' ']);
    assert("\n"@ =~= seq!['\n']);
    let cj = compact_json(Json::Object(p.meta));
    assert(passage_text(p, cj) =~= seq!['\n'] + record_text(passage_record(p, false)));
    assert(record_text(passage_record(p, true)) =~= record_text(passage_record(p, false)) + seq![
        '\n',
    ]);
}

/// The text of records starts with the text of the first record.
pub proof fn lemma_records_text_front(r: Record, rest: Seq<Record>)
    ensures
        records_text(seq![r] + rest) == record_text(r) + records_text(rest),
{
    let all = seq![r] + rest;
    assert(all[0] == r);
    assert(all.drop_first() =~= rest);
}

/// The text of passages is a line feed and the text of their records.
pub proof fn lemma_passages_records(ps: Seq<PassageView>)
    requires
        ps.len() > 0,
    ensures
        passages_text(ps) == seq!['\n'] + records_text(passage_records(ps)),
    decreases ps.len(),
{
    let p = ps[0];
    let rest = ps.drop_first();
    lemma_passages_text_front(ps);
    lemma_passage_block(p);
    lemma_records_text_front(passage_record(p, ps.len() > 1), passage_records(rest));
    if rest.len() > 0 {
        lemma_passages_records(rest);
        assert(passages_text(ps) =~= seq!['\n'] + records_text(passage_records(ps)));
    } else {
        assert(passage_records(rest) =~= Seq::<Record>::empty());
        assert(records_text(Seq::<Record>::empty()) =~= Seq::<char>::empty());
        assert(passages_text(rest) =~= Seq::<char>::empty());
        assert(passages_text(ps) =~= seq!['\n'] + records_text(passage_records(ps)));
    }
}

/// A story as Twee text is the text of its records.
pub proof fn lemma_write_is_records(story: StoryView)
    ensures
        write_twee(story) == records_text(story_records(story)),
{
    lemma_reserved_names();
    reveal_strlit(":: StoryTitle\n");
    reveal_strlit("\n\n:: StoryData\n");
    reveal_strlit("\n\n");
    reveal_strlit("StoryTitle");
    reveal_strlit("StoryData");
    let pj = pretty_json(Json::Object(story.meta));
    let ps = story.passages;
    let title_line = header_line("StoryTitle"@, Seq::empty(), None);
    let data_line = header_line("StoryData"@, Seq::empty(), None);
    assert(title_line =~= seq![' '] + "StoryTitle"@);
    assert(data_line =~= seq![' '] + "StoryData"@);
    assert(":: StoryTitle\n"@ =~= seq![':', ':'] + title_line + seq!['\n']);
    assert("\n\n:: StoryData\n"@ =~= seq!['\n', '\n'] + (seq![':', ':'] + data_line + seq!['\n']));
    assert("\n\n"@ =~= seq!['\n', '\n']);
    let t = title_record(story.title);
    let d = data_record(story.meta, ps.len() > 0);
    let rest = passage_records(ps);
    assert(story_records(story) =~= seq![t] + (seq![d] + rest));
    lemma_records_text_front(t, seq![d] + rest);
    lemma_records_text_front(d, rest);
    if ps.len() > 0 {
        lemma_passages_records(ps);
        assert(write_twee(story) =~= record_text(t) + (record_text(d) + records_text(rest)));
    } else {
        assert(rest =~= Seq::<Record>::empty());
        assert(records_text(rest) =~= Seq::<char>::empty());
        assert(passages_text(ps) =~= Seq::<char>::empty());
        assert(write_twee(story) =~= record_text(t) + (record_text(d) + records_text(rest)));
    }
}

/// A title that Twee holds without loss: not empty, without white space
/// around it, without backslashes, brackets and braces, and without a line
/// that starts with `::`.
pub open spec fn title_faithful(title: Seq<char>) -> bool {
    &&& title.len() > 0
    &&& trim(title) == title
    &&& forall|i: int| 0 <= i < title.len() ==> !is_special(#[trigger] title[i])
    &&& forall|q: int| !starts_colons(title, q)
}

/// Passage text that Twee holds without loss: without white space at its
/// end, and without a line that starts with `\::`.
pub open spec fn content_faithful(content: Seq<char>) -> bool {
    trim_end(content) == content && no_escapes(content)
}

/// A passage that Twee holds without loss.  Its name is no reserved name,
/// stands on one line and has no white space around it; its tags are
/// words; its text is faithful; and its metadata, written as JSON, stand
/// on one line that starts with `{` and reads back as the same object.
/// Where it has no metadata, `{}` reads as the empty object.
pub open spec fn passage_faithful(p: PassageView) -> bool {
    &&& name_faithful(p.name)
    &&& p.name != "StoryTitle"@
    &&& p.name != "StoryData"@
    &&& forall|i: int| 0 <= i < p.tags.len() ==> is_word(#[trigger] p.tags[i])
    &&& content_faithful(p.content)
    &&& match meta_text_of(p) {
        Some(m) => meta_line(m) && parsed_json(m) == Some(Json::Object(p.meta)),
        None => parsed_json("{}"@) == Some(Json::Object(Seq::empty())),
    }
}

/// Story metadata that Twee holds without loss: written as indented JSON,
/// no line starts with `::`, and the text reads back as the same object.
pub open spec fn data_faithful(meta: Seq<(Seq<char>, Json)>, more: bool) -> bool {
    &&& forall|q: int| !starts_colons(data_body(meta, more), q)
    &&& parsed_json(unescape(data_body(meta, more))) == Some(Json::Object(meta))
}

/// A story that Twee holds without loss.
pub open spec fn twee_faithful(story: StoryView) -> bool {
    &&& title_faithful(story.title)
    &&& data_faithful(story.meta, story.passages.len() > 0)
    &&& forall|i: int|
        0 <= i < story.passages.len() ==> passage_faithful(#[trigger] story.passages[i])
    &&& forall|i: int, j: int|
        0 <= i < j < story.passages.len() ==> (#[trigger] story.passages[i]).name != (
        #[trigger] story.passages[j]).name
}

/// The record of a faithful passage is clean, and taking it appends the
/// passage.
pub proof fn lemma_take_passage(st: ReadState, p: PassageView, more: bool)
    requires
        passage_faithful(p),
        !has_passage(st.passages, p.name),
    ensures
        record_clean(passage_record(p, more)),
        take_record(st, passage_record(p, more)) == (ReadState {
            passages: st.passages.push(p),
            ..st
        }),
{
    let r = passage_record(p, more);
    let tail = if more {
        seq!['\n', '\n']
    } else {
        seq!['\n']
    };
    let e = escape_content(p.content);
    lemma_unescape_escape(p.content);
    lemma_tail_clean(e, tail);
    lemma_unescape_tail(e, tail, (e.len() + tail.len()) as int);
    assert(tail.take(tail.len() as int) =~= tail);
    assert(unescape(r.body) == p.content + tail);
    assert(is_space('\n'));
    assert(is_blank(tail));
    lemma_trim_end_padding(p.content, tail);
    match meta_text_of(p) {
        Some(m) => {
            lemma_line_header_meta(p.name, p.tags, m);
        },
        None => {
            lemma_line_header_plain(p.name, p.tags);
            assert(p.meta =~= Seq::<(Seq<char>, Json)>::empty());
        },
    }
    let h = line_header(r.line);
    assert(h.name == p.name);
    assert(json_source(h, unescape(r.body)) == h.meta);
}

/// Taking the records of faithful passages appends the passages.
pub proof fn lemma_take_passages(st: ReadState, ps: Seq<PassageView>)
    requires
        forall|i: int| 0 <= i < ps.len() ==> passage_faithful(#[trigger] ps[i]),
        forall|i: int, j: int|
            0 <= i < j < ps.len() ==> (#[trigger] ps[i]).name != (#[trigger] ps[j]).name,
        forall|i: int| 0 <= i < ps.len() ==> !has_passage(st.passages, (#[trigger] ps[i]).name),
    ensures
        forall|i: int|
            0 <= i < passage_records(ps).len() ==> record_clean(#[trigger] passage_records(ps)[i]),
        take_records(st, passage_records(ps)) == (ReadState {
            passages: st.passages + ps,
            ..st
        }),
        passage_records(ps).len() == ps.len(),
    decreases ps.len(),
{
    if ps.len() == 0 {
        assert(st.passages + ps =~= st.passages);
    } else {
        let p = ps[0];
        let rest = ps.drop_first();
        let r = passage_record(p, ps.len() > 1);
        lemma_take_passage(st, p, ps.len() > 1);
        let next = take_record(st, r);
        assert forall|i: int| 0 <= i < rest.len() implies passage_faithful(#[trigger] rest[i]) by {
            assert(rest[i] == ps[i + 1]);
        }
        assert forall|i: int, j: int| 0 <= i < j < rest.len() implies (#[trigger] rest[i]).name != (
        #[trigger] rest[j]).name by {
            assert(rest[i] == ps[i + 1] && rest[j] == ps[j + 1]);
        }
        assert forall|i: int| 0 <= i < rest.len() implies !has_passage(
            next.passages,
            (#[trigger] rest[i]).name,
        ) by {
            assert(rest[i] == ps[i + 1]);
            assert(!has_passage(st.passages, ps[i + 1].name));
            assert(ps[0].name != ps[i + 1].name);
            if has_passage(next.passages, rest[i].name) {
                let k = choose|k: int|
                    0 <= k < next.passages.len() && (#[trigger] next.passages[k]).name
                        == rest[i].name;
                if k < st.passages.len() {
                    assert(st.passages[k] == next.passages[k]);
                }
            }
        }
        lemma_take_passages(next, rest);
        let recs = passage_records(ps);
        assert(recs == seq![r] + passage_records(rest));
        assert(recs[0] == r);
        assert(recs.drop_first() =~= passage_records(rest));
        assert forall|i: int| 0 <= i < recs.len() implies record_clean(#[trigger] recs[i]) by {
            if i > 0 {
                assert(recs[i] == passage_records(rest)[i - 1]);
            }
        }
        assert(st.passages.push(p) + rest =~= st.passages + ps);
    }
}

/// Writing a story as Twee and reading the text gives the story back,
/// with no warning.
pub proof fn lemma_twee_round_trip(story: StoryView)
    requires
        twee_faithful(story),
    ensures
        read_twee(write_twee(story)) == (story, Seq::<WarningView>::empty()),
{
    lemma_reserved_names();
    lemma_write_is_records(story);
    let ps = story.passages;
    let more = ps.len() > 0;
    let t = title_record(story.title);
    let d = data_record(story.meta, more);
    let recs = story_records(story);
    let text = write_twee(story);
    let st0 = read_start();
    // The title.
    lemma_line_header_plain("StoryTitle"@, Seq::empty());
    lemma_escape_plain(story.title);
    assert(no_escapes(story.title)) by {
        assert forall|i: int| !escapes_header(story.title, i) by {
            if 0 <= i < story.title.len() {
                assert(!is_special(story.title[i]));
            }
        }
    }
    let two = seq!['\n', '\n'];
    lemma_tail_clean(story.title, two);
    lemma_unescape_tail(story.title, two, (story.title.len() + 2) as int);
    lemma_unescape_plain(story.title, story.title.len() as int);
    assert(story.title.take(story.title.len() as int) =~= story.title);
    assert(two.take(2) =~= two);
    assert(unescape(t.body) == story.title + two);
    assert(is_space('\n'));
    assert(is_blank(two));
    assert(is_blank(Seq::<char>::empty()));
    assert(Seq::<char>::empty() + story.title + two =~= story.title + two);
    lemma_trim_padded(Seq::empty(), story.title, two);
    assert(record_clean(t));
    let st1 = take_record(st0, t);
    assert(st1 == (ReadState { title: story.title, ..st0 }));
    // The metadata.
    lemma_line_header_plain("StoryData"@, Seq::empty());
    assert(d.body.last() == '\n');
    assert(record_clean(d));
    let st2 = take_record(st1, d);
    assert(st2 == (ReadState { meta: Some(story.meta), ..st1 }));
    // The passages.
    assert forall|i: int| 0 <= i < ps.len() implies !has_passage(
        st2.passages,
        (#[trigger] ps[i]).name,
    ) by {}
    lemma_take_passages(st2, ps);
    let rest = passage_records(ps);
    assert(recs =~= seq![t] + (seq![d] + rest));
    assert(recs[0] == t);
    assert(recs.drop_first() =~= seq![d] + rest);
    assert((seq![d] + rest)[0] == d);
    assert((seq![d] + rest).drop_first() =~= rest);
    assert(take_records(st0, recs) == take_records(st1, seq![d] + rest));
    assert(take_records(st1, seq![d] + rest) == take_records(st2, rest));
    assert forall|i: int| 0 <= i < recs.len() implies record_clean(#[trigger] recs[i]) by {
        if i >= 2 {
            assert(recs[i] == rest[i - 2]);
        }
    }
    lemma_read_records(recs, st0);
    assert(st2.passages + ps =~= ps);
    let done = ReadState {
        title: story.title,
        meta: Some(story.meta),
        passages: ps,
        warnings: Seq::empty(),
    };
    assert(read_from(text, 0, st0) == done);
    assert(text.len() > 0);
    assert(next_header(text, 0) == 0);
    assert(finish(done) == (story, Seq::<WarningView>::empty()));
}

/// The name that a header line is read as never holds a carriage return
/// or a line feed.
pub proof fn lemma_scan_one_line(s: Seq<char>, i: int, st: HeaderScan)
    requires
        one_line(st.name),
    ensures
        one_line(scan_line(s, i, st).name),
    decreases s.len() - i,
{
    if i < 0 || i >= s.len() || s[i] == '\r' || s[i] == '\n' {
    } else if opens_meta(st, s[i]) {
    } else {
        let next = scan_step(st, s[i]);
        assert(one_line(next.name)) by {
            assert forall|j: int| 0 <= j < next.name.len() implies next.name[j] != '\r'
                && next.name[j] != '\n' by {
                if j < st.name.len() {
                    assert(next.name[j] == st.name[j]);
                }
            }
        }
        lemma_scan_one_line(s, i + 1, next);
    }
}

/// Trimming keeps a text on one line.
pub proof fn lemma_trim_one_line(x: Seq<char>)
    requires
        one_line(x),
    ensures
        one_line(trim(x)),
{
    lemma_trim_end_is_take(x);
    let z = trim_end(x);
    lemma_trim_start_is_skip(z);
    let y = trim(x);
    let off = z.len() - y.len();
    assert forall|j: int| 0 <= j < y.len() implies y[j] != '\r' && y[j] != '\n' by {
        assert(y[j] == z.skip(off)[j]);
        assert(z[off + j] == x.take(z.len() as int)[off + j]);
    }
}

/// Every header line is read as a name that stands on one line and has no
/// white space around it.
pub proof fn lemma_header_name(s: Seq<char>, i: int)
    ensures
        trim(header_at(s, i).name) == header_at(s, i).name,
        one_line(header_at(s, i).name),
{
    let st = scan_line(s, i, scan_start());
    lemma_scan_one_line(s, i, scan_start());
    lemma_trim_one_line(st.name);
    lemma_trim_idempotent(st.name);
}

/// What has been unescaped so far ends in the last character that was
/// kept.
proof fn lemma_unescape_last(x: Seq<char>, k: int)
    requires
        0 < k <= x.len(),
        !escapes_header(x, k - 1),
    ensures
        unescape_upto(x, k) == unescape_upto(x, k - 1).push(x[k - 1]),
{
}

/// Unescaped text has no line that starts with `\::`.
pub proof fn lemma_unescape_no_escapes(x: Seq<char>, k: int)
    requires
        0 <= k <= x.len(),
    ensures
        no_escapes(unescape_upto(x, k)),
    decreases k,
{
    let u = unescape_upto(x, k);
    if k == 0 {
        assert forall|i: int| !escapes_header(u, i) by {}
    } else {
        lemma_unescape_no_escapes(x, k - 1);
        let prev = unescape_upto(x, k - 1);
        if escapes_header(x, k - 1) {
        } else {
            assert(u == prev.push(x[k - 1]));
            assert forall|i: int| !escapes_header(u, i) by {
                if escapes_header(u, i) {
                    if i + 2 < prev.len() {
                        assert(u[i] == prev[i] && u[i + 1] == prev[i + 1] && u[i + 2] == prev[i
                            + 2]);
                        if i > 0 {
                            assert(u[i - 1] == prev[i - 1]);
                        }
                        assert(escapes_header(prev, i));
                    } else {
                        // The three characters are the last three that were kept.
                        assert(i + 2 == prev.len());
                        assert(x[k - 1] == ':');
                        assert(prev.len() >= 2);
                        assert(k >= 2);
                        if escapes_header(x, k - 2) {
                            // A backslash was dropped just before: what was kept before it is
                            // the line feed that it followed.
                            assert(prev == unescape_upto(x, k - 2));
                            assert(k - 2 > 0);
                            assert(x[k - 3] == '\n');
                            assert(!escapes_header(x, k - 3));
                            lemma_unescape_last(x, k - 2);
                            assert(prev.last() == '\n');
                            assert(u[i + 1] == prev[i + 1]);
                        } else {
                            lemma_unescape_last(x, k - 1);
                            let before = unescape_upto(x, k - 2);
                            assert(prev == before.push(x[k - 2]));
                            assert(u[i + 1] == prev[i + 1]);
                            assert(x[k - 2] == ':');
                            assert(before.len() >= 1);
                            assert(k >= 3);
                            assert(u[i] == before[i]);
                            if escapes_header(x, k - 3) {
                                assert(before == unescape_upto(x, k - 3));
                                assert(k - 3 > 0);
                                assert(x[k - 4] == '\n');
                                assert(!escapes_header(x, k - 4));
                                lemma_unescape_last(x, k - 3);
                                assert(before.last() == '\n');
                            } else {
                                lemma_unescape_last(x, k - 2);
                                let first = unescape_upto(x, k - 3);
                                assert(before == first.push(x[k - 3]));
                                assert(x[k - 3] == '\\');
                                // The backslash stands at the start of a line of `x`.
                                if first.len() == 0 {
                                    if k - 3 > 0 {
                                        if escapes_header(x, k - 4) {
                                            assert(x[k - 3] == ':');
                                        } else {
                                            lemma_unescape_last(x, k - 3);
                                        }
                                    }
                                    assert(at_line_start(x, k - 3));
                                } else {
                                    assert(u[i - 1] == first[i - 1]);
                                    assert(first.last() == '\n');
                                    assert(k - 3 > 0);
                                    if escapes_header(x, k - 4) {
                                        assert(x[k - 3] == ':');
                                    } else {
                                        lemma_unescape_last(x, k - 3);
                                        assert(x[k - 4] == '\n');
                                    }
                                    assert(at_line_start(x, k - 3));
                                }
                                assert(escapes_header(x, k - 3));
                            }
                        }
                    }
                }
            }
        }
    }
}

/// The start of a text without escapes has no escapes.
pub proof fn lemma_take_no_escapes(x: Seq<char>, n: int)
    requires
        no_escapes(x),
        0 <= n <= x.len(),
    ensures
        no_escapes(x.take(n)),
{
    let t = x.take(n);
    assert forall|i: int| !escapes_header(t, i) by {
        if escapes_header(t, i) {
            assert(t[i] == x[i] && t[i + 1] == x[i + 1] && t[i + 2] == x[i + 2]);
            if i > 0 {
                assert(t[i - 1] == x[i - 1]);
            }
            assert(escapes_header(x, i));
        }
    }
}

/// The text of every passage that is read is faithful.
pub proof fn lemma_content_faithful(x: Seq<char>)
    ensures
        content_faithful(trim_end(unescape(x))),
{
    let u = unescape(x);
    lemma_unescape_no_escapes(x, x.len() as int);
    lemma_trim_end_is_take(u);
    lemma_take_no_escapes(u, trim_end(u).len() as int);
    lemma_trim_idempotent(u);
}

/// What reading keeps of a passage, whatever the text: the part of
/// `passage_faithful` that needs nothing of the tags and the metadata.
pub open spec fn passage_normal(p: PassageView) -> bool {
    &&& name_faithful(p.name)
    &&& p.name != "StoryTitle"@
    &&& p.name != "StoryData"@
    &&& content_faithful(p.content)
}

/// What reading keeps of the story so far, whatever the text.
pub open spec fn read_normal(st: ReadState) -> bool {
    &&& trim(st.title) == st.title
    &&& forall|i: int| 0 <= i < st.passages.len() ==> passage_normal(#[trigger] st.passages[i])
    &&& forall|i: int, j: int|
        0 <= i < j < st.passages.len() ==> (#[trigger] st.passages[i]).name != (
        #[trigger] st.passages[j]).name
}

/// Taking in a passage keeps the story normal.
pub proof fn lemma_record_normal(
    st: ReadState,
    s: Seq<char>,
    i: int,
    body: Seq<char>,
    parsed: Option<Json>,
)
    requires
        read_normal(st),
    ensures
        read_normal(record(st, header_at(s, i), unescape(body), parsed)),
{
    let h = header_at(s, i);
    let content = unescape(body);
    let after = record(st, h, content, parsed);
    lemma_header_name(s, i);
    lemma_content_faithful(body);
    lemma_trim_idempotent(content);
    if h.name.len() == 0 {
    } else if h.name == "StoryTitle"@ {
    } else if h.name == "StoryData"@ {
    } else if has_passage(st.passages, h.name) {
    } else {
        let p = after.passages.last();
        assert(after.passages == st.passages.push(p));
        assert(passage_normal(p));
        assert forall|k: int| 0 <= k < after.passages.len() implies passage_normal(
            #[trigger] after.passages[k],
        ) by {
            if k < st.passages.len() {
                assert(after.passages[k] == st.passages[k]);
            }
        }
        assert forall|a: int, b: int| 0 <= a < b < after.passages.len() implies (
        #[trigger] after.passages[a]).name != (#[trigger] after.passages[b]).name by {
            assert(after.passages[a] == st.passages[a]);
            if b < st.passages.len() {
                assert(after.passages[b] == st.passages[b]);
            } else {
                assert(st.passages[a].name != h.name);
            }
        }
    }
}

/// Reading on from a header keeps the story normal.
pub proof fn lemma_read_from_normal(s: Seq<char>, pos: int, st: ReadState)
    requires
        read_normal(st),
    ensures
        read_normal(read_from(s, pos, st)),
    decreases s.len() - pos,
{
    if pos < 0 || pos + 2 > s.len() {
    } else {
        let body = line_end(s, pos + 2) + 1;
        let next = next_header(s, body);
        let h = header_at(s, pos + 2);
        let content = unescape(s.subrange(body, next));
        let parsed = parsed_json(json_source(h, content));
        lemma_record_normal(st, s, pos + 2, s.subrange(body, next), parsed);
        if pos < next < s.len() {
            lemma_read_from_normal(s, next, record(st, h, content, parsed));
        }
    }
}

/// What Twee cannot be trusted to keep of a story that was read: a title
/// with backslashes, brackets, braces or a line that starts with `::`,
/// tags that are no words, and metadata that do not read back from the
/// JSON they are written as.
pub open spec fn carried_faithful(story: StoryView) -> bool {
    &&& forall|i: int| 0 <= i < story.title.len() ==> !is_special(#[trigger] story.title[i])
    &&& forall|q: int| !starts_colons(story.title, q)
    &&& data_faithful(story.meta, story.passages.len() > 0)
    &&& forall|i: int|
        0 <= i < story.passages.len() ==> {
            let p = #[trigger] story.passages[i];
            &&& forall|j: int| 0 <= j < p.tags.len() ==> is_word(#[trigger] p.tags[j])
            &&& match meta_text_of(p) {
                Some(m) => meta_line(m) && parsed_json(m) == Some(Json::Object(p.meta)),
                None => parsed_json("{}"@) == Some(Json::Object(Seq::empty())),
            }
        }
}

/// A story that was read without a warning, written as Twee and read
/// again, is the same story, again without a warning.
pub proof fn lemma_twee_idempotent(text: Seq<char>)
    requires
        read_twee(text).1 == Seq::<WarningView>::empty(),
        carried_faithful(read_twee(text).0),
    ensures
        read_twee(write_twee(read_twee(text).0)) == (
            read_twee(text).0,
            Seq::<WarningView>::empty(),
        ),
{
    let story = read_twee(text).0;
    let first = next_header(text, 0);
    let st = if first < text.len() {
        read_from(text, first, read_start())
    } else {
        read_start()
    };
    assert(trim(Seq::<char>::empty()) == Seq::<char>::empty());
    assert(read_normal(read_start()));
    lemma_read_from_normal(text, first, read_start());
    assert(read_normal(st));
    assert(read_twee(text) == finish(st));
    if st.title.len() == 0 {
        assert(finish(st).1.len() > 0);
    }
    assert forall|i: int| 0 <= i < story.passages.len() implies passage_faithful(
        #[trigger] story.passages[i],
    ) by {
        assert(passage_normal(st.passages[i]));
    }
    lemma_twee_round_trip(story);
}

} // verus!
