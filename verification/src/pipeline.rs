//! The search pipeline of one work range.
//!
//! Records extracted from the event stream are scanned with the compiled
//! regex and formatted into per-revision output blocks.  The block of a
//! record is a function of the record, the pattern, the output mode and the
//! color mode alone — [`spec_record_block`] — so the multiset of blocks a
//! search produces depends neither on how the work was split among threads
//! nor on the order workers ran; only the interleaving order on stdout does.

use vstd::prelude::*;

use crate::errors::Error;
use crate::extract::PageRecord;
use crate::extract::RecordView;
use crate::extract::XmlEvent;
use crate::extract::error_matches;
use crate::extract::initial_extractor;
use crate::extract::record_views;
use crate::extract::run_extractor;
use crate::extract::spec_filter_view;
use crate::extract::spec_run;
use crate::extract::zip_events;
use crate::format::MatchSpan;
use crate::format::find_in_text;
use crate::format::render_record;
use crate::format::render_title_only;
use crate::format::write_title_only;
use crate::output::OutputBuffer;
use crate::rx::CompiledRegex;
use crate::rx::regex_match_spans;
use crate::rx::spans_of_pairs;

verus! {

/// The output block one revision contributes: in title-only mode a single
/// `title@revid` line when the pattern matches the text at all, in
/// line-oriented mode the whole colored match block — and nothing, in either
/// mode, when the pattern does not match.
pub open spec fn spec_record_block(
    rec: RecordView,
    pattern: Seq<char>,
    only_title: bool,
    color: bool,
) -> Seq<u8> {
    let spans = regex_match_spans(pattern, rec.text);
    if only_title {
        if spans.len() > 0 {
            render_title_only(rec.title, rec.revision_id, color)
        } else {
            Seq::empty()
        }
    } else {
        render_record(rec.title, rec.revision_id, rec.text, spans_of_pairs(spans), color)
    }
}

/// The blocks of a record list, one per record, in extraction order.
pub open spec fn spec_blocks(
    records: Seq<RecordView>,
    pattern: Seq<char>,
    only_title: bool,
    color: bool,
) -> Seq<Seq<u8>> {
    records.map_values(|r: RecordView| spec_record_block(r, pattern, only_title, color))
}

/// Scans one revision and appends its output block to the buffer: exactly
/// the bytes of [`spec_record_block`].
pub fn format_record(
    buffer: &mut OutputBuffer,
    rec: &PageRecord,
    re: &CompiledRegex,
    only_title: bool,
)
    ensures
        final(buffer).bytes@ == old(buffer).bytes@
            + spec_record_block(rec@, re.spec_pattern(), only_title, old(buffer).use_color),
        final(buffer).use_color == old(buffer).use_color,
{
    if only_title {
        if re.is_match(&rec.text) {
            write_title_only(buffer, &rec.title, &rec.revision_id);
        } else {
            proof {
                assert(buffer.bytes@ =~= buffer.bytes@ + Seq::<u8>::empty());
            }
        }
    } else {
        find_in_text(buffer, &rec.title, &rec.revision_id, &rec.text, re);
    }
}

/// The views of a block list.
pub open spec fn block_views(blocks: Seq<Vec<u8>>) -> Seq<Seq<u8>> {
    blocks.map_values(|b: Vec<u8>| b@)
}

/// Searches one range's event stream: extracts its records and renders one
/// output block per record.  The blocks are exactly [`spec_blocks`] of the
/// records that [`spec_run`] yields; the first extraction error aborts the
/// scan.
pub fn search_events(
    events: &Vec<XmlEvent>,
    positions: &Vec<u64>,
    re: &CompiledRegex,
    end: u64,
    restrict_namespaces: Option<Vec<Vec<u8>>>,
    only_title: bool,
    use_color: bool,
) -> (r: Result<Vec<Vec<u8>>, Error>)
    requires
        events@.len() == positions@.len(),
    ensures
        ({
            let rr = spec_run(
                initial_extractor(end as int, spec_filter_view(restrict_namespaces)),
                zip_events(events@, positions@),
            );
            match r {
                Result::Ok(blocks) => rr.error is None && block_views(blocks@) == spec_blocks(
                    rr.records,
                    re.spec_pattern(),
                    only_title,
                    use_color,
                ),
                Result::Err(e) => rr.error is Some && error_matches(e, rr.error->0),
            }
        }),
{
    let recs = match run_extractor(events, positions, end, restrict_namespaces) {
        Ok(recs) => recs,
        Err(e) => {
            return Err(e);
        },
    };
    let ghost records = record_views(recs@);
    let mut blocks: Vec<Vec<u8>> = Vec::new();
    let n = recs.len();
    let mut i: usize = 0;
    proof {
        assert(block_views(blocks@) =~= spec_blocks(
            records.take(0),
            re.spec_pattern(),
            only_title,
            use_color,
        ));
    }
    while i < n
        invariant
            n == recs@.len(),
            0 <= i <= n,
            records == record_views(recs@),
            block_views(blocks@) == spec_blocks(
                records.take(i as int),
                re.spec_pattern(),
                only_title,
                use_color,
            ),
        decreases n - i,
    {
        let mut buffer = OutputBuffer::new(use_color);
        format_record(&mut buffer, &recs[i], re, only_title);
        proof {
            assert(buffer.bytes@ =~= spec_record_block(
                recs@[i as int]@,
                re.spec_pattern(),
                only_title,
                use_color,
            ));
            assert(records[i as int] == recs@[i as int]@);
        }
        let ghost blocks_before = blocks@;
        let ghost block_bytes = buffer.bytes@;
        blocks.push(buffer.bytes);
        proof {
            let pat = re.spec_pattern();
            let lhs = block_views(blocks@);
            let rhs = spec_blocks(records.take(i + 1), pat, only_title, use_color);
            assert(records.len() == n);
            assert(records.take(i as int).len() == i);
            assert(block_views(blocks_before).len() == blocks_before.len());
            assert(block_views(blocks_before)
                == spec_blocks(records.take(i as int), pat, only_title, use_color));
            assert(spec_blocks(records.take(i as int), pat, only_title, use_color).len() == i);
            assert(blocks_before.len() == i);
            assert(lhs.len() == i + 1 && rhs.len() == i + 1);
            assert forall|j: int| 0 <= j < i + 1 implies lhs[j] == rhs[j] by {
                assert(records.take(i + 1)[j] == records[j]);
                if j < i {
                    assert(blocks@[j] == blocks_before[j]);
                    assert(lhs[j] == block_views(blocks_before)[j]);
                    assert(block_views(blocks_before)[j]
                        == spec_blocks(records.take(i as int), pat, only_title, use_color)[j]);
                    assert(records.take(i as int)[j] == records[j]);
                } else {
                    assert(blocks@[j]@ == block_bytes);
                    assert(block_bytes == spec_record_block(records[j], pat, only_title, use_color));
                }
            }
            assert(lhs =~= rhs);
        }
        i = i + 1;
    }
    proof {
        assert(records.take(n as int) =~= records);
    }
    Ok(blocks)
}

/// The engine is deterministic: two runs over the same events with the same
/// options yield the same block list, because each equals the one value of
/// [`spec_blocks`] over the one value of [`spec_run`].
pub proof fn lemma_search_deterministic(
    r1: Seq<Seq<u8>>,
    r2: Seq<Seq<u8>>,
    records: Seq<RecordView>,
    pattern: Seq<char>,
    only_title: bool,
    color: bool,
)
    requires
        r1 == spec_blocks(records, pattern, only_title, color),
        r2 == spec_blocks(records, pattern, only_title, color),
    ensures
        r1 == r2,
{
}

/// What of the options the per-range engine reads: the namespace filter, the
/// output mode, and the color mode.  The thread count is not among them.
pub open spec fn spec_engine_inputs(o: crate::options::SearchOptions) -> (
    Option<Seq<Seq<u8>>>,
    bool,
    crate::options::ColorChoice,
) {
    (spec_filter_view(o.restrict_namespaces), o.only_print_title, o.color_choice)
}

/// Changing `thread_count` changes nothing the engine reads: two option sets
/// that differ only there drive the extractor and the formatter identically,
/// so the revision blocks they produce are the same; only the scheduling —
/// and with it the output order — can differ.
pub proof fn lemma_thread_count_irrelevant(
    o1: crate::options::SearchOptions,
    o2: crate::options::SearchOptions,
)
    requires
        o2 == (crate::options::SearchOptions { thread_count: o2.thread_count, ..o1 }),
    ensures
        spec_engine_inputs(o1) == spec_engine_inputs(o2),
{
}

/// A revision whose text the pattern does not match writes nothing, in
/// either output mode.
pub proof fn lemma_unmatched_revision_writes_nothing(
    rec: RecordView,
    pattern: Seq<char>,
    only_title: bool,
    color: bool,
)
    requires
        regex_match_spans(pattern, rec.text).len() == 0,
    ensures
        spec_record_block(rec, pattern, only_title, color) == Seq::<u8>::empty(),
{
    assert(spans_of_pairs(regex_match_spans(pattern, rec.text)) =~= Seq::<MatchSpan>::empty());
    crate::format::lemma_no_match_renders_nothing(rec.title, rec.revision_id, rec.text, color);
}

/// A revision whose text the pattern matches writes exactly one header line
/// `title@revid`: in title-only mode the block is that line alone; in
/// line-oriented mode the block opens with the header, and the remainder is
/// rendered with the header no longer owed.
pub proof fn lemma_matched_revision_writes_one_header(
    rec: RecordView,
    pattern: Seq<char>,
    color: bool,
)
    requires
        regex_match_spans(pattern, rec.text).len() > 0,
    ensures
        spec_record_block(rec, pattern, true, color)
            == render_title_only(rec.title, rec.revision_id, color),
        spec_record_block(rec, pattern, false, color).take(
            crate::format::render_header(rec.title, rec.revision_id, color).len() as int,
        ) == crate::format::render_header(rec.title, rec.revision_id, color),
{
    let spans = spans_of_pairs(regex_match_spans(pattern, rec.text));
    assert(spans.len() > 0);
    crate::format::lemma_match_renders_header_first(
        rec.title,
        rec.revision_id,
        rec.text,
        spans,
        color,
    );
}

} // verus!
