//! The match formatter.
//!
//! Given a revision's title, id and text together with the regex's match
//! spans, the formatter appends colored, line-oriented output to the worker's
//! buffer, behaving like `grep` over the text: a cyan/yellow header line
//! `title@revision-id` before the first match, each matched substring in red
//! inside its enclosing line, and a blank separator line after the block.
//!
//! The functions [`render_record`] and [`render_title_only`] state the exact
//! bytes produced; the executable formatter is proved to append exactly them.

use vstd::prelude::*;

use crate::bytescan::memchr_first;
use crate::bytescan::memrchr_last;
use crate::rx::CompiledRegex;
use crate::rx::regex_match_spans;
use crate::rx::span_pairs;
use crate::rx::spans_of_pairs;
use crate::rx::lemma_spans_roundtrip;
use crate::output::Color;
use crate::output::OutputBuffer;
use crate::output::esc_plain;
use crate::output::esc_set_color;

verus! {

/// A byte-offset interval `[start, end)` of one regex match within a text.
/// Zero-width matches (`start == end`) are permitted.
#[derive(Clone, Copy, PartialEq, Eq, Structural, Debug)]
pub struct MatchSpan {
    pub start: usize,
    pub end: usize,
}

/// The spans lie within a text of length `len`, each starts no later than it
/// ends, and they are non-overlapping in left-to-right order — exactly what a
/// regex engine's successive non-overlapping matches look like.
pub open spec fn valid_spans(ms: Seq<MatchSpan>, len: int) -> bool {
    &&& forall|i: int| 0 <= i < ms.len() ==> (#[trigger] ms[i]).start <= ms[i].end <= len
    &&& forall|i: int| 0 <= i + 1 < ms.len() ==> (#[trigger] ms[i]).end <= ms[i + 1].start
}

/// Some byte of `s` is a newline.
pub open spec fn has_nl(s: Seq<u8>) -> bool {
    exists|k: int| 0 <= k < s.len() && s[k] == 10
}

/// `k` is the position of the first newline of `s`.
pub open spec fn is_first_nl(s: Seq<u8>, k: int) -> bool {
    0 <= k < s.len() && s[k] == 10 && forall|j: int| 0 <= j < k ==> s[j] != 10
}

/// `k` is the position of the last newline of `s`.
pub open spec fn is_last_nl(s: Seq<u8>, k: int) -> bool {
    0 <= k < s.len() && s[k] == 10 && forall|j: int| k < j < s.len() ==> s[j] != 10
}

/// The position of the first newline of `s`.
pub open spec fn first_nl(s: Seq<u8>) -> int {
    choose|k: int| is_first_nl(s, k)
}

/// The position of the last newline of `s`.
pub open spec fn last_nl(s: Seq<u8>) -> int {
    choose|k: int| is_last_nl(s, k)
}

/// A position satisfying [`is_first_nl`] is the unique value of [`first_nl`].
pub proof fn lemma_first_nl_is(s: Seq<u8>, k: int)
    requires
        is_first_nl(s, k),
    ensures
        has_nl(s),
        first_nl(s) == k,
{
    assert(has_nl(s));
    let c = first_nl(s);
    assert(is_first_nl(s, c));
    if c < k {
        assert(s[c] != 10);
    }
    if k < c {
        assert(s[k] != 10);
    }
}

/// A position satisfying [`is_last_nl`] is the unique value of [`last_nl`].
pub proof fn lemma_last_nl_is(s: Seq<u8>, k: int)
    requires
        is_last_nl(s, k),
    ensures
        has_nl(s),
        last_nl(s) == k,
{
    assert(has_nl(s));
    let c = last_nl(s);
    assert(is_last_nl(s, c));
    if c < k {
        assert(s[k] != 10);
    }
    if k < c {
        assert(s[c] != 10);
    }
}

/// Where the red span of a match ends: one before `end` when the match is
/// nonempty and closes with a newline, so that the trailing newline is not
/// colored and the following line is not consumed; `end` itself otherwise.
pub open spec fn spec_actual_end(text: Seq<u8>, m: MatchSpan) -> int {
    if m.start < m.end && text[m.end - 1] == 10 {
        m.end - 1
    } else {
        m.end as int
    }
}

/// The header line written once before a revision's first match:
/// cyan title, plain `@`, yellow revision id, newline, back to plain.
pub open spec fn render_header(title: Seq<u8>, rid: Seq<u8>, color: bool) -> Seq<u8> {
    esc_set_color(Color::Cyan, color) + title + esc_plain(color) + seq![64u8]
        + esc_set_color(Color::Yellow, color) + rid + seq![10u8] + esc_plain(color)
}

/// The plain bytes written between the previous match's colored span (ending
/// at `lme`) and the next match starting at `s`.  On the same line the gap is
/// copied whole.  When the gap crosses newlines, the previous match's line is
/// first finished (unless this is the first match, whose preceding lines are
/// not printed) and then the part of the new line before the match is copied.
pub open spec fn render_gap(text: Seq<u8>, lme: int, s: int, first: bool) -> Seq<u8> {
    let gap = text.subrange(lme, s);
    if !has_nl(gap) {
        gap
    } else {
        (if first {
            Seq::<u8>::empty()
        } else {
            gap.take(first_nl(gap)) + seq![10u8]
        }) + gap.skip(last_nl(gap) + 1)
    }
}

/// After the last match: the rest of its line, a newline, and the blank line
/// separating this revision's block from the next.
pub open spec fn render_tail(text: Seq<u8>, lme: int) -> Seq<u8> {
    let tail = text.skip(lme);
    (if !has_nl(tail) {
        tail
    } else {
        tail.take(first_nl(tail))
    }) + seq![10u8, 10u8]
}

/// The output of the line-oriented formatter from the point where matches
/// `ms` remain, the previous colored span ended at `lme`, and `first` says
/// whether the header is still owed.  Each match contributes the gap before
/// it and its red-colored bytes; after the last match the tail of its line
/// and the blank separator follow — nothing at all is written when there was
/// no match.
pub open spec fn render_from(
    text: Seq<u8>,
    ms: Seq<MatchSpan>,
    lme: int,
    first: bool,
    title: Seq<u8>,
    rid: Seq<u8>,
    color: bool,
) -> Seq<u8>
    decreases ms.len(),
{
    if ms.len() == 0 {
        if first {
            Seq::<u8>::empty()
        } else {
            render_tail(text, lme)
        }
    } else {
        let m = ms[0];
        let ae = spec_actual_end(text, m);
        (if first {
            render_header(title, rid, color)
        } else {
            Seq::<u8>::empty()
        }) + render_gap(text, lme, m.start as int, first) + esc_set_color(Color::Red, color)
            + text.subrange(m.start as int, ae) + esc_plain(color)
            + render_from(text, ms.drop_first(), ae, false, title, rid, color)
    }
}

/// The whole line-oriented output block for one revision.
pub open spec fn render_record(
    title: Seq<u8>,
    rid: Seq<u8>,
    text: Seq<u8>,
    ms: Seq<MatchSpan>,
    color: bool,
) -> Seq<u8> {
    render_from(text, ms, 0, true, title, rid, color)
}

/// The single line written in title-only mode for a revision with a match.
pub open spec fn render_title_only(title: Seq<u8>, rid: Seq<u8>, color: bool) -> Seq<u8> {
    esc_set_color(Color::Cyan, color) + title + esc_plain(color) + seq![64u8]
        + esc_set_color(Color::Yellow, color) + rid + esc_plain(color) + seq![10u8]
}

/// Writes the title-only line `title@revision-id` for a matching revision.
pub fn write_title_only(buffer: &mut OutputBuffer, title: &Vec<u8>, revision_id: &Vec<u8>)
    ensures
        final(buffer).bytes@ == old(buffer).bytes@
            + render_title_only(title@, revision_id@, old(buffer).use_color),
        final(buffer).use_color == old(buffer).use_color,
{
    buffer.set_color(Color::Cyan);
    buffer.write_all(title);
    buffer.set_plain();
    buffer.write_byte(64);
    buffer.set_color(Color::Yellow);
    buffer.write_all(revision_id);
    buffer.set_plain();
    buffer.newline();
}

/// One step of the formatter: with matches `ms` remaining, the output owed
/// is the header (when still owed), the gap, the red span of the first
/// match, and then the output owed from its end on.
proof fn lemma_render_step(
    text: Seq<u8>,
    ms: Seq<MatchSpan>,
    lme: int,
    first: bool,
    title: Seq<u8>,
    rid: Seq<u8>,
    color: bool,
)
    requires
        ms.len() > 0,
    ensures
        render_from(text, ms, lme, first, title, rid, color) == (if first {
            render_header(title, rid, color)
        } else {
            Seq::<u8>::empty()
        }) + render_gap(text, lme, ms[0].start as int, first) + esc_set_color(Color::Red, color)
            + text.subrange(ms[0].start as int, spec_actual_end(text, ms[0])) + esc_plain(color)
            + render_from(
            text,
            ms.drop_first(),
            spec_actual_end(text, ms[0]),
            false,
            title,
            rid,
            color,
        ),
{
}

/// Writes one match's contribution: the header when it is still owed, the
/// plain gap since the previous colored span, and the match's bytes in red.
/// Returns where the red span ended.
#[verifier::rlimit(100)]
fn emit_one_match(
    buffer: &mut OutputBuffer,
    title: &Vec<u8>,
    revision_id: &Vec<u8>,
    text: &Vec<u8>,
    m: MatchSpan,
    lme: usize,
    first: bool,
) -> (ae: usize)
    requires
        lme <= m.start,
        m.start <= m.end <= text@.len(),
    ensures
        m.start <= ae <= m.end,
        ae as int == spec_actual_end(text@, m),
        final(buffer).use_color == old(buffer).use_color,
        final(buffer).bytes@ == old(buffer).bytes@ + ((if first {
            render_header(title@, revision_id@, old(buffer).use_color)
        } else {
            Seq::<u8>::empty()
        }) + render_gap(text@, lme as int, m.start as int, first)
            + esc_set_color(Color::Red, old(buffer).use_color)
            + text@.subrange(m.start as int, spec_actual_end(text@, m))
            + esc_plain(old(buffer).use_color)),
{
    let ghost buf0 = buffer.bytes@;
    let ghost color = buffer.use_color;
    let ghost lme0 = lme as int;
    let s = m.start;
    let e = m.end;
    if first {
        buffer.set_color(Color::Cyan);
        buffer.write_all(title);
        buffer.set_plain();
        buffer.write_byte(64);
        buffer.set_color(Color::Yellow);
        buffer.write_all(revision_id);
        buffer.newline();
        buffer.set_plain();
    }
    let ghost hdr = if first {
        render_header(title@, revision_id@, color)
    } else {
        Seq::<u8>::empty()
    };
    proof {
        assert(buffer.bytes@ =~= buf0 + hdr);
    }
    let ghost buf1 = buffer.bytes@;
    // the plain text between the previous colored span and this match
    let gap_slice = vstd::slice::slice_subrange(text.as_slice(), lme, s);
    let ghost gap = text@.subrange(lme0, s as int);
    match memrchr_last(10, gap_slice) {
        Option::None => {
            buffer.write_range(text, lme, s);
            proof {
                assert(!has_nl(gap));
                assert(buffer.bytes@ =~= buf1 + render_gap(text@, lme0, s as int, first));
            }
        },
        Option::Some(lp) => {
            proof {
                lemma_last_nl_is(gap, lp as int);
            }
            if !first {
                match memchr_first(10, gap_slice) {
                    Option::Some(fp) => {
                        buffer.write_range(text, lme, lme + fp);
                        buffer.newline();
                        proof {
                            lemma_first_nl_is(gap, fp as int);
                            assert(text@.subrange(lme0, lme0 + fp) =~= gap.take(fp as int));
                        }
                    },
                    Option::None => {
                        proof {
                            assert(gap[lp as int] == 10);
                            assert(false);
                        }
                    },
                }
            }
            buffer.write_range(text, lme + lp + 1, s);
            proof {
                assert(text@.subrange(lme0 + lp + 1, s as int) =~= gap.skip(lp + 1));
                assert(buffer.bytes@ =~= buf1 + render_gap(text@, lme0, s as int, first));
            }
        },
    }
    let ghost buf2 = buffer.bytes@;
    // the matched bytes in red; a trailing newline of the match is left
    // uncolored so the following line is not consumed
    let ae = if s < e && text[e - 1] == 10 {
        e - 1
    } else {
        e
    };
    proof {
        assert(ae as int == spec_actual_end(text@, m));
    }
    buffer.set_color(Color::Red);
    buffer.write_range(text, s, ae);
    buffer.set_plain();
    proof {
        assert(buffer.bytes@ =~= buf2 + esc_set_color(Color::Red, color)
            + text@.subrange(s as int, ae as int) + esc_plain(color));
        assert(buffer.bytes@ =~= buf0 + (hdr + render_gap(text@, lme0, s as int, first)
            + esc_set_color(Color::Red, color) + text@.subrange(s as int, ae as int)
            + esc_plain(color)));
    }
    ae
}

/// Appends the line-oriented match output of one revision to the buffer:
/// exactly the bytes of [`render_record`] for the given matches.
#[verifier::rlimit(100)]
fn write_match_lines(
    buffer: &mut OutputBuffer,
    title: &Vec<u8>,
    revision_id: &Vec<u8>,
    text: &Vec<u8>,
    matches: &Vec<MatchSpan>,
)
    requires
        valid_spans(matches@, text@.len() as int),
    ensures
        final(buffer).bytes@ == old(buffer).bytes@
            + render_record(title@, revision_id@, text@, matches@, old(buffer).use_color),
        final(buffer).use_color == old(buffer).use_color,
{
    let ghost base = old(buffer).bytes@;
    let ghost color = old(buffer).use_color;
    let ghost full = render_record(title@, revision_id@, text@, matches@, color);
    let text_len = text.len();
    let n = matches.len();
    let mut lme: usize = 0;
    let mut first: bool = true;
    let mut i: usize = 0;
    proof {
        assert(matches@.skip(0) =~= matches@);
    }
    while i < n
        invariant
            n == matches@.len(),
            text_len == text@.len(),
            0 <= i <= n,
            valid_spans(matches@, text@.len() as int),
            first == (i == 0),
            lme <= text_len,
            i < n ==> lme <= matches@[i as int].start,
            buffer.use_color == color,
            buffer.bytes@ + render_from(
                text@, matches@.skip(i as int), lme as int, first, title@, revision_id@, color,
            ) == base + full,
        decreases n - i,
    {
        let ghost buf0 = buffer.bytes@;
        let ghost lme0 = lme as int;
        let ghost first0 = first;
        let ghost i0 = i as int;
        let m = matches[i];
        proof {
            assert(matches@[i0].start <= matches@[i0].end <= text@.len());
        }
        let ae = emit_one_match(buffer, title, revision_id, text, m, lme, first);
        proof {
            let msi = matches@.skip(i0);
            assert(msi[0] == m);
            lemma_render_step(text@, msi, lme0, first0, title@, revision_id@, color);
            assert(msi.drop_first() =~= matches@.skip(i0 + 1));
            let rest = render_from(
                text@, matches@.skip(i0 + 1), ae as int, false, title@, revision_id@, color,
            );
            assert(buffer.bytes@ + rest =~= buf0 + render_from(
                text@, msi, lme0, first0, title@, revision_id@, color,
            ));
            assert(buffer.bytes@ + rest =~= base + full);
            if i0 + 1 < n {
                assert(matches@[i0].end <= matches@[i0 + 1].start);
            }
        }
        lme = ae;
        first = false;
        i = i + 1;
    }
    // the rest of the last matching line and the blank separator
    if !first {
        let ghost buf3 = buffer.bytes@;
        let ghost tail = text@.skip(lme as int);
        let tail_slice = vstd::slice::slice_subrange(text.as_slice(), lme, text_len);
        match memchr_first(10, tail_slice) {
            Option::None => {
                buffer.write_range(text, lme, text_len);
                proof {
                    assert(!has_nl(tail));
                    assert(text@.subrange(lme as int, text_len as int) =~= tail);
                }
            },
            Option::Some(fp) => {
                buffer.write_range(text, lme, lme + fp);
                proof {
                    lemma_first_nl_is(tail, fp as int);
                    assert(text@.subrange(lme as int, lme + fp) =~= tail.take(fp as int));
                }
            },
        }
        buffer.newline();
        buffer.newline();
        proof {
            assert(buffer.bytes@ =~= buf3 + render_tail(text@, lme as int));
            assert(matches@.skip(n as int) =~= Seq::<MatchSpan>::empty());
            assert(buffer.bytes@ =~= base + full);
        }
    } else {
        proof {
            assert(matches@.skip(0) =~= matches@);
            assert(buffer.bytes@ =~= base + full);
        }
    }
}

/// Scans one revision's text with the compiled regex and appends the
/// line-oriented match output to the buffer: exactly [`render_record`] of
/// the pattern's match spans on this text.
pub fn find_in_text(
    buffer: &mut OutputBuffer,
    title: &Vec<u8>,
    revision_id: &Vec<u8>,
    text: &Vec<u8>,
    re: &CompiledRegex,
)
    ensures
        final(buffer).bytes@ == old(buffer).bytes@ + render_record(
            title@,
            revision_id@,
            text@,
            spans_of_pairs(regex_match_spans(re.spec_pattern(), text@)),
            old(buffer).use_color,
        ),
        final(buffer).use_color == old(buffer).use_color,
{
    let matches = re.find_matches(text);
    proof {
        lemma_spans_roundtrip(matches@);
        assert(spans_of_pairs(regex_match_spans(re.spec_pattern(), text@)) == matches@);
    }
    write_match_lines(buffer, title, revision_id, text, &matches);
}

/// A revision with no match contributes nothing at all in line-oriented
/// mode.
pub proof fn lemma_no_match_renders_nothing(
    title: Seq<u8>,
    rid: Seq<u8>,
    text: Seq<u8>,
    color: bool,
)
    ensures
        render_record(title, rid, text, Seq::empty(), color) == Seq::<u8>::empty(),
{
}

/// A revision with a match contributes a block that begins with exactly one
/// header line: the header stands at the front, and the rest of the block is
/// built by [`render_from`] with the header no longer owed, which never
/// writes another.
pub proof fn lemma_match_renders_header_first(
    title: Seq<u8>,
    rid: Seq<u8>,
    text: Seq<u8>,
    ms: Seq<MatchSpan>,
    color: bool,
)
    requires
        ms.len() > 0,
    ensures
        render_record(title, rid, text, ms, color).len() >= render_header(title, rid, color).len(),
        render_record(title, rid, text, ms, color).take(render_header(title, rid, color).len() as int)
            == render_header(title, rid, color),
{
    let hdr = render_header(title, rid, color);
    let m = ms[0];
    let ae = spec_actual_end(text, m);
    let rest = render_gap(text, 0, m.start as int, true) + esc_set_color(Color::Red, color)
        + text.subrange(m.start as int, ae) + esc_plain(color)
        + render_from(text, ms.drop_first(), ae, false, title, rid, color);
    assert(render_record(title, rid, text, ms, color) =~= hdr + rest);
    assert((hdr + rest).take(hdr.len() as int) =~= hdr);
}

/// For every match of a block, the bytes standing between its set-red and
/// back-to-plain transitions are exactly the match's bytes (with a trailing
/// newline of the match left outside the colored span, as the line rules
/// demand): the block splits as `pre + red + match-bytes + plain + post`.
pub proof fn lemma_match_bytes_colored_exactly(
    title: Seq<u8>,
    rid: Seq<u8>,
    text: Seq<u8>,
    ms: Seq<MatchSpan>,
    color: bool,
    i: int,
)
    requires
        0 <= i < ms.len(),
    ensures
        exists|pre: Seq<u8>, post: Seq<u8>|
            render_record(title, rid, text, ms, color) == pre
                + (esc_set_color(Color::Red, color)
                    + text.subrange(ms[i].start as int, spec_actual_end(text, ms[i]))
                    + esc_plain(color)) + post,
{
    lemma_render_from_match_segment(text, ms, 0, true, title, rid, color, i);
}

proof fn lemma_render_from_match_segment(
    text: Seq<u8>,
    ms: Seq<MatchSpan>,
    lme: int,
    first: bool,
    title: Seq<u8>,
    rid: Seq<u8>,
    color: bool,
    i: int,
)
    requires
        0 <= i < ms.len(),
    ensures
        exists|pre: Seq<u8>, post: Seq<u8>|
            render_from(text, ms, lme, first, title, rid, color) == pre
                + (esc_set_color(Color::Red, color)
                    + text.subrange(ms[i].start as int, spec_actual_end(text, ms[i]))
                    + esc_plain(color)) + post,
    decreases i,
{
    let m = ms[0];
    let ae = spec_actual_end(text, m);
    let hdr = if first {
        render_header(title, rid, color)
    } else {
        Seq::<u8>::empty()
    };
    let seg0 = esc_set_color(Color::Red, color) + text.subrange(m.start as int, ae)
        + esc_plain(color);
    let rest = render_from(text, ms.drop_first(), ae, false, title, rid, color);
    let whole = render_from(text, ms, lme, first, title, rid, color);
    if i == 0 {
        let pre = hdr + render_gap(text, lme, m.start as int, first);
        assert(whole =~= pre + seg0 + rest);
    } else {
        lemma_render_from_match_segment(text, ms.drop_first(), ae, false, title, rid, color, i - 1);
        let seg = esc_set_color(Color::Red, color)
            + text.subrange(ms.drop_first()[i - 1].start as int,
                spec_actual_end(text, ms.drop_first()[i - 1])) + esc_plain(color);
        let (pre0, post0) = choose|pre0: Seq<u8>, post0: Seq<u8>| rest == pre0 + seg + post0;
        assert(ms.drop_first()[i - 1] == ms[i]);
        let pre = hdr + render_gap(text, lme, m.start as int, first) + seg0 + pre0;
        assert(whole =~= pre + seg + post0);
    }
}

/// One piece of a block: plain bytes, or bytes wrapped in a set-color and a
/// back-to-plain transition.
pub enum OutChunk {
    Plain(Seq<u8>),
    Colored(Color, Seq<u8>),
}

/// The bytes of a chunk list: every colored chunk opens with its set-color
/// sequence and closes with the reset before anything else follows.
pub open spec fn chunks_bytes(cs: Seq<OutChunk>, color: bool) -> Seq<u8>
    decreases cs.len(),
{
    if cs.len() == 0 {
        Seq::empty()
    } else {
        (match cs[0] {
            OutChunk::Plain(b) => b,
            OutChunk::Colored(c, b) => esc_set_color(c, color) + b + esc_plain(color),
        }) + chunks_bytes(cs.drop_first(), color)
    }
}

proof fn lemma_chunks_concat(a: Seq<OutChunk>, b: Seq<OutChunk>, color: bool)
    ensures
        chunks_bytes(a + b, color) == chunks_bytes(a, color) + chunks_bytes(b, color),
        cyan_chunks(a + b) == cyan_chunks(a) + cyan_chunks(b),
    decreases a.len(),
{
    if a.len() == 0 {
        assert(a + b =~= b);
        assert(chunks_bytes(a, color) + chunks_bytes(b, color) =~= chunks_bytes(b, color));
    } else {
        assert((a + b).drop_first() =~= a.drop_first() + b);
        lemma_chunks_concat(a.drop_first(), b, color);
        assert((a + b)[0] == a[0]);
        assert(chunks_bytes(a + b, color) =~= chunks_bytes(a, color) + chunks_bytes(b, color));
    }
}

/// How many chunks of a block carry the title's cyan color — how many header
/// lines the block opens.
pub open spec fn cyan_chunks(cs: Seq<OutChunk>) -> int
    decreases cs.len(),
{
    if cs.len() == 0 {
        0
    } else {
        (match cs[0] {
            OutChunk::Colored(c, _) => if c == Color::Cyan {
                1int
            } else {
                0int
            },
            OutChunk::Plain(_) => 0int,
        }) + cyan_chunks(cs.drop_first())
    }
}

/// The chunks of the header line.
pub open spec fn header_chunks(title: Seq<u8>, rid: Seq<u8>) -> Seq<OutChunk> {
    seq![
        OutChunk::Colored(Color::Cyan, title),
        OutChunk::Plain(seq![64u8]),
        OutChunk::Colored(Color::Yellow, rid + seq![10u8]),
    ]
}

proof fn lemma_header_chunks(title: Seq<u8>, rid: Seq<u8>, color: bool)
    ensures
        render_header(title, rid, color) == chunks_bytes(header_chunks(title, rid), color),
{
    let cs = header_chunks(title, rid);
    let cs1 = cs.drop_first();
    let cs2 = cs1.drop_first();
    assert(cs2.drop_first() =~= Seq::<OutChunk>::empty());
    assert(cs2[0] == OutChunk::Colored(Color::Yellow, rid + seq![10u8]));
    assert(chunks_bytes(cs2.drop_first(), color) == Seq::<u8>::empty());
    assert(chunks_bytes(cs2, color) =~= esc_set_color(Color::Yellow, color) + (rid + seq![10u8])
        + esc_plain(color));
    assert(cs1[0] == OutChunk::Plain(seq![64u8]));
    assert(chunks_bytes(cs1, color) =~= seq![64u8] + chunks_bytes(cs2, color));
    assert(cs[0] == OutChunk::Colored(Color::Cyan, title));
    assert(chunks_bytes(cs, color) =~= esc_set_color(Color::Cyan, color) + title
        + esc_plain(color) + chunks_bytes(cs1, color));
    assert(render_header(title, rid, color) =~= chunks_bytes(cs, color));
}

/// Color transitions always come in balanced pairs: every block the
/// formatter writes is the byte image of a chunk list, in which each
/// set-color is closed by a back-to-plain transition before any further
/// bytes follow.  And the cyan title of the header appears in exactly one
/// chunk when there is a match, in none otherwise: one header line per
/// matching revision.
pub proof fn lemma_colors_balanced(
    title: Seq<u8>,
    rid: Seq<u8>,
    text: Seq<u8>,
    ms: Seq<MatchSpan>,
    color: bool,
)
    ensures
        exists|cs: Seq<OutChunk>|
            render_record(title, rid, text, ms, color) == chunks_bytes(cs, color)
                && cyan_chunks(cs) == (if ms.len() > 0 { 1int } else { 0int }),
{
    lemma_render_from_chunks(text, ms, 0, true, title, rid, color);
}

proof fn lemma_render_from_chunks(
    text: Seq<u8>,
    ms: Seq<MatchSpan>,
    lme: int,
    first: bool,
    title: Seq<u8>,
    rid: Seq<u8>,
    color: bool,
)
    ensures
        exists|cs: Seq<OutChunk>|
            render_from(text, ms, lme, first, title, rid, color) == chunks_bytes(cs, color)
                && cyan_chunks(cs) == (if first && ms.len() > 0 { 1int } else { 0int }),
    decreases ms.len(),
{
    let whole = render_from(text, ms, lme, first, title, rid, color);
    if ms.len() == 0 {
        if first {
            let cs = Seq::<OutChunk>::empty();
            assert(whole == chunks_bytes(cs, color) && cyan_chunks(cs) == 0);
        } else {
            let cs = seq![OutChunk::Plain(render_tail(text, lme))];
            assert(cs.drop_first() =~= Seq::<OutChunk>::empty());
            assert(cs[0] == OutChunk::Plain(render_tail(text, lme)));
            assert(chunks_bytes(cs.drop_first(), color) == Seq::<u8>::empty());
            assert(whole =~= chunks_bytes(cs, color));
            assert(cyan_chunks(cs.drop_first()) == 0);
            assert(cyan_chunks(cs) == 0);
        }
    } else {
        let m = ms[0];
        let ae = spec_actual_end(text, m);
        lemma_render_from_chunks(text, ms.drop_first(), ae, false, title, rid, color);
        let rest = render_from(text, ms.drop_first(), ae, false, title, rid, color);
        let cs_rest = choose|cs_rest: Seq<OutChunk>|
            rest == chunks_bytes(cs_rest, color) && cyan_chunks(cs_rest) == 0;
        let hdr_cs = if first {
            header_chunks(title, rid)
        } else {
            Seq::<OutChunk>::empty()
        };
        if first {
            lemma_header_chunks(title, rid, color);
        }
        let mid_cs = seq![
            OutChunk::Plain(render_gap(text, lme, m.start as int, first)),
            OutChunk::Colored(Color::Red, text.subrange(m.start as int, ae)),
        ];
        let cs = hdr_cs + mid_cs + cs_rest;
        lemma_chunks_concat(hdr_cs + mid_cs, cs_rest, color);
        lemma_chunks_concat(hdr_cs, mid_cs, color);
        assert(mid_cs.drop_first().drop_first() =~= Seq::<OutChunk>::empty());
        assert(mid_cs[0] == OutChunk::Plain(render_gap(text, lme, m.start as int, first)));
        assert(mid_cs.drop_first()[0]
            == OutChunk::Colored(Color::Red, text.subrange(m.start as int, ae)));
        assert(chunks_bytes(mid_cs.drop_first().drop_first(), color) == Seq::<u8>::empty());
        assert(chunks_bytes(mid_cs.drop_first(), color) =~= esc_set_color(Color::Red, color)
            + text.subrange(m.start as int, ae) + esc_plain(color));
        assert(chunks_bytes(mid_cs, color) =~= render_gap(text, lme, m.start as int, first)
            + (esc_set_color(Color::Red, color) + text.subrange(m.start as int, ae)
                + esc_plain(color)));
        assert((hdr_cs + mid_cs) + cs_rest =~= cs);
        assert(whole =~= chunks_bytes(cs, color));
        assert(cyan_chunks(mid_cs) == 0) by {
            let m1 = mid_cs.drop_first();
            let m2 = m1.drop_first();
            assert(m2 =~= Seq::<OutChunk>::empty());
            assert(cyan_chunks(m2) == 0);
            assert(m1[0] == OutChunk::Colored(Color::Red, text.subrange(m.start as int, ae)));
            assert(cyan_chunks(m1) == 0);
            assert(mid_cs[0] == OutChunk::Plain(render_gap(text, lme, m.start as int, first)));
        }
        if first {
            assert(cyan_chunks(hdr_cs) == 1) by {
                let h1 = hdr_cs.drop_first();
                let h2 = h1.drop_first();
                let h3 = h2.drop_first();
                assert(h3 =~= Seq::<OutChunk>::empty());
                assert(cyan_chunks(h3) == 0);
                assert(h2[0] == OutChunk::Colored(Color::Yellow, rid + seq![10u8]));
                assert(cyan_chunks(h2) == 0);
                assert(h1[0] == OutChunk::Plain(seq![64u8]));
                assert(cyan_chunks(h1) == 0);
                assert(hdr_cs[0] == OutChunk::Colored(Color::Cyan, title));
            }
        }
        assert(cyan_chunks(cs) == (if first { 1int } else { 0int }));
    }
}


/// After a colored span that ends at a newline, the closing tail prints
/// nothing of the following line: only the bare newline and the blank
/// separator remain.  This holds whatever matches came before.
pub proof fn lemma_tail_after_newline_is_blank(text: Seq<u8>, lme: int)
    requires
        0 <= lme < text.len(),
        text[lme] == 10,
    ensures
        render_tail(text, lme) == seq![10u8, 10u8],
{
    let tail = text.skip(lme);
    assert(tail[0] == text[lme]);
    lemma_first_nl_is(tail, 0);
    assert(tail.take(0) =~= Seq::<u8>::empty());
    assert(render_tail(text, lme) =~= seq![10u8, 10u8]);
}

/// Between a match that ended at a newline and the next match, only the bare
/// newline and the next match's own line prefix are printed: the line that
/// follows the newline is never echoed on the finished match's account.
/// This holds whatever matches came before or follow.
pub proof fn lemma_gap_after_newline_prints_no_stale_line(text: Seq<u8>, lme: int, s: int)
    requires
        0 <= lme < s <= text.len(),
        text[lme] == 10,
    ensures
        render_gap(text, lme, s, false) == seq![10u8]
            + text.subrange(lme, s).skip(last_nl(text.subrange(lme, s)) + 1),
{
    let gap = text.subrange(lme, s);
    assert(gap[0] == text[lme]);
    lemma_first_nl_is(gap, 0);
    assert(gap.take(0) =~= Seq::<u8>::empty());
    assert(render_gap(text, lme, s, false) =~= seq![10u8] + gap.skip(last_nl(gap) + 1));
}

/// A match that closes with a newline keeps the newline out of its red span,
/// and the line that follows is neither printed nor colored: the block of a
/// revision whose one match ends at a newline is exactly the header, the
/// match's line prefix, the red span without the newline, and the bare
/// newline with the blank separator.
pub proof fn lemma_match_ending_at_newline(
    title: Seq<u8>,
    rid: Seq<u8>,
    text: Seq<u8>,
    m: MatchSpan,
    color: bool,
)
    requires
        m.start < m.end <= text.len(),
        text[m.end - 1] == 10,
    ensures
        spec_actual_end(text, m) == m.end - 1,
        render_record(title, rid, text, seq![m], color) == render_header(title, rid, color)
            + render_gap(text, 0, m.start as int, true) + esc_set_color(Color::Red, color)
            + text.subrange(m.start as int, m.end - 1) + esc_plain(color) + seq![10u8, 10u8],
{
    let ms = seq![m];
    let ae = m.end - 1;
    assert(ms[0] == m);
    assert(ms.drop_first() =~= Seq::<MatchSpan>::empty());
    assert(text[ae] == 10);
    lemma_tail_after_newline_is_blank(text, ae);
    assert(render_from(text, ms.drop_first(), ae, false, title, rid, color)
        == render_tail(text, ae));
    assert(render_record(title, rid, text, ms, color) =~= render_header(title, rid, color)
        + render_gap(text, 0, m.start as int, true) + esc_set_color(Color::Red, color)
        + text.subrange(m.start as int, ae) + esc_plain(color) + seq![10u8, 10u8]);
}

/// A zero-width match at position zero produces an empty red span right
/// after the header, followed by the whole first line in plain color.
pub proof fn lemma_zero_width_match_at_start(
    title: Seq<u8>,
    rid: Seq<u8>,
    text: Seq<u8>,
    color: bool,
)
    ensures
        render_record(title, rid, text, seq![MatchSpan { start: 0, end: 0 }], color)
            == render_header(title, rid, color) + esc_set_color(Color::Red, color)
                + esc_plain(color) + render_tail(text, 0),
{
    let m = MatchSpan { start: 0, end: 0 };
    let ms = seq![m];
    assert(ms[0] == m);
    assert(ms.drop_first() =~= Seq::<MatchSpan>::empty());
    assert(spec_actual_end(text, m) == 0);
    let gap = text.subrange(0, 0);
    assert(gap =~= Seq::<u8>::empty());
    assert(!has_nl(gap));
    assert(render_gap(text, 0, 0, true) =~= Seq::<u8>::empty());
    assert(text.subrange(0, 0) =~= Seq::<u8>::empty());
    assert(render_from(text, ms.drop_first(), 0, false, title, rid, color)
        == render_tail(text, 0));
    assert(render_record(title, rid, text, ms, color) =~= render_header(title, rid, color)
        + esc_set_color(Color::Red, color) + esc_plain(color) + render_tail(text, 0));
}

} // verus!
