//! Unifying a trace: reading its lines, discarding the entries whose
//! program counter is outside the reference set, and renumbering the rest.
//!
//! Each retained entry's identifier is lowered by the number of entries
//! that were discarded before it, so that identifiers which were gap-free
//! in the source are gap-free again in the result.

use vstd::prelude::*;
use crate::entry::{
    id_text, lemma_line_text_bytes, lemma_parse_full_text, line_text, parse_line,
    BasicBlockEntry, Field, SPACE,
};
use crate::lines::{
    ends_lines, lemma_split_lines_joined, lemma_split_one_line, split_first_line, split_lines,
    CARRIAGE_RETURN, LINE_FEED,
};
use crate::reference::ReferenceSet;

verus! {

/// A line that is no record: its index among the lines, counted from zero,
/// and the first of its fields that could not be read.
#[derive(Clone, Copy, Debug, PartialEq, Eq, Structural)]
pub struct ParseError {
    pub line: usize,
    pub field: Field,
}

/// Why a trace could not be unified.
#[derive(Clone, Copy, Debug, PartialEq, Eq, Structural)]
pub enum UnifyError {
    /// A line is no record.
    Parse(ParseError),
    /// The identifier of the retained entry on this line, counted from
    /// zero, is smaller than the number of entries discarded before it.
    IdentifierTooSmall { line: usize },
}

/// A unified trace: the retained entries in their order, renumbered, and
/// the number of entries that were discarded.
#[derive(Debug)]
pub struct UnifiedTrace {
    pub entries: Vec<BasicBlockEntry>,
    pub dropped: usize,
}

/// Whether every line is a record.
pub open spec fn all_parse(lines: Seq<Seq<u8>>) -> bool {
    forall|i: int| 0 <= i < lines.len() ==> parse_line(#[trigger] lines[i]) is Ok
}

/// The records of the lines, where every line is one.
pub open spec fn parsed(lines: Seq<Seq<u8>>) -> Seq<BasicBlockEntry> {
    Seq::new(lines.len(), |i: int| parse_line(lines[i])->Ok_0)
}

/// Whether `e` names the first line that is no record, and the field at
/// which that line fails.
pub open spec fn is_first_fault(lines: Seq<Seq<u8>>, e: ParseError) -> bool {
    &&& e.line < lines.len()
    &&& parse_line(lines[e.line as int]) == Err::<BasicBlockEntry, Field>(e.field)
    &&& forall|j: int| 0 <= j < e.line ==> parse_line(#[trigger] lines[j]) is Ok
}

/// Whether an entry is retained: its program counter is in the set.
pub open spec fn retained(e: BasicBlockEntry, valid: Set<usize>) -> bool {
    valid.contains(e.program_counter)
}

/// The number of entries among the first `n` that are discarded.
pub open spec fn dropped_before(src: Seq<BasicBlockEntry>, valid: Set<usize>, n: int) -> nat
    decreases n,
{
    if n <= 0 {
        0
    } else if retained(src[n - 1], valid) {
        dropped_before(src, valid, n - 1)
    } else {
        dropped_before(src, valid, n - 1) + 1
    }
}

/// The number of entries among the first `n` that are retained.
pub open spec fn retained_before(src: Seq<BasicBlockEntry>, valid: Set<usize>, n: int) -> nat
    decreases n,
{
    if n <= 0 {
        0
    } else if retained(src[n - 1], valid) {
        retained_before(src, valid, n - 1) + 1
    } else {
        retained_before(src, valid, n - 1)
    }
}

/// Whether entry `i` is retained with an identifier smaller than the
/// number of entries discarded before it, so that it cannot be renumbered.
pub open spec fn too_small(src: Seq<BasicBlockEntry>, valid: Set<usize>, i: int) -> bool {
    retained(src[i], valid) && src[i].id < dropped_before(src, valid, i)
}

/// Whether every retained entry can be renumbered.
pub open spec fn compactable(src: Seq<BasicBlockEntry>, valid: Set<usize>) -> bool {
    forall|i: int| 0 <= i < src.len() ==> !too_small(src, valid, i)
}

/// Whether `i` is the first entry that cannot be renumbered.
pub open spec fn is_first_too_small(src: Seq<BasicBlockEntry>, valid: Set<usize>, i: int) -> bool {
    &&& 0 <= i < src.len()
    &&& too_small(src, valid, i)
    &&& forall|j: int| 0 <= j < i ==> !too_small(src, valid, j)
}

/// An entry with its identifier lowered by `dropped`.
pub open spec fn renumbered(e: BasicBlockEntry, dropped: nat) -> BasicBlockEntry {
    BasicBlockEntry {
        id: (e.id - dropped) as usize,
        program_counter: e.program_counter,
        hit_counter: e.hit_counter,
    }
}

/// What unifying the first `n` entries of `src` gives: the retained ones
/// in their order, each lowered by the number discarded before it.
pub open spec fn unified(src: Seq<BasicBlockEntry>, valid: Set<usize>, n: int) -> Seq<
    BasicBlockEntry,
>
    decreases n,
{
    if n <= 0 {
        Seq::empty()
    } else if retained(src[n - 1], valid) {
        unified(src, valid, n - 1).push(
            renumbered(src[n - 1], dropped_before(src, valid, n - 1)),
        )
    } else {
        unified(src, valid, n - 1)
    }
}

/// The text of a trace: the line of each entry, each followed by a line
/// feed.
pub open spec fn trace_text(entries: Seq<BasicBlockEntry>, strip: bool) -> Seq<u8>
    decreases entries.len(),
{
    if entries.len() == 0 {
        Seq::empty()
    } else {
        trace_text(entries.drop_last(), strip) + line_text(entries.last(), strip)
            + seq![LINE_FEED]
    }
}

/// The records of the lines of a text, where every line is one.
pub open spec fn source_entries(text: Seq<u8>) -> Seq<BasicBlockEntry> {
    parsed(split_lines(text))
}

/// Whether the text of a trace file can be unified: every line is a
/// record, and every retained record can be renumbered.
pub open spec fn can_unify(text: Seq<u8>, valid: Set<usize>) -> bool {
    all_parse(split_lines(text)) && compactable(source_entries(text), valid)
}

/// The entries that unifying the text of a trace file gives.
pub open spec fn unified_entries(text: Seq<u8>, valid: Set<usize>) -> Seq<BasicBlockEntry> {
    unified(source_entries(text), valid, source_entries(text).len() as int)
}

/// The number of records that unifying the text of a trace file discards.
pub open spec fn dropped_count(text: Seq<u8>, valid: Set<usize>) -> nat {
    dropped_before(source_entries(text), valid, source_entries(text).len() as int)
}

/// Whether `e` is the error with which unifying the text fails.
///
/// The lines are read first: the first line that is no record fails the
/// whole text. Then the records are filtered and renumbered: the first
/// retained record that cannot be renumbered fails it.
pub open spec fn is_fault(text: Seq<u8>, valid: Set<usize>, e: UnifyError) -> bool {
    match e {
        UnifyError::Parse(p) => is_first_fault(split_lines(text), p),
        UnifyError::IdentifierTooSmall { line } => {
            &&& all_parse(split_lines(text))
            &&& is_first_too_small(source_entries(text), valid, line as int)
        },
    }
}

/// Reads the lines of a trace file into records.
///
/// Succeeds where every line is a record, and then gives one record for
/// each line, in order; an empty text gives no record. Otherwise the
/// error names the first line that is no record.
pub fn parse_trace(text: &[u8]) -> (r: Result<Vec<BasicBlockEntry>, ParseError>)
    ensures
        r is Ok <==> all_parse(split_lines(text@)),
        r is Ok ==> r->Ok_0@ == parsed(split_lines(text@)),
        r is Err ==> is_first_fault(split_lines(text@), r->Err_0),
{
    let mut out: Vec<BasicBlockEntry> = Vec::new();
    let mut rest: &[u8] = text;
    let ghost mut done: Seq<Seq<u8>> = Seq::empty();
    let ghost lines = split_lines(text@);
    while rest.len() > 0
        invariant
            lines == split_lines(text@),
            lines == done + split_lines(rest@),
            out@.len() == done.len(),
            forall|i: int|
                0 <= i < done.len() ==> parse_line(#[trigger] done[i]) == Ok::<
                    BasicBlockEntry,
                    Field,
                >(out@[i]),
        decreases rest@.len(),
    {
        let (line, tail) = split_first_line(rest);
        proof {
            assert(done + (seq![line@] + split_lines(tail@)) =~= done.push(line@) + split_lines(
                tail@,
            ));
            assert(lines[done.len() as int] == line@);
            assert forall|j: int| 0 <= j < done.len() implies parse_line(#[trigger] lines[j])
                is Ok by {
                assert(lines[j] == done[j]);
            }
        }
        match BasicBlockEntry::parse(line) {
            Ok(entry) => {
                out.push(entry);
            },
            Err(field) => {
                return Err(ParseError { line: out.len(), field });
            },
        }
        proof {
            done = done.push(line@);
        }
        rest = tail;
    }
    proof {
        assert(done + split_lines(rest@) =~= done);
        assert(out@ =~= parsed(lines));
    }
    Ok(out)
}

/// Filters and renumbers the entries of a trace.
///
/// Succeeds where every retained entry can be renumbered, which holds in
/// particular where the identifiers count up from the first one without a
/// gap. The result then holds the retained entries in their order, each
/// with its identifier lowered by the number of entries discarded before
/// it, and the number of entries discarded in all. Otherwise the error is
/// the index of the first retained entry whose identifier is too small.
pub fn unify(entries: &[BasicBlockEntry], valid_bb: &ReferenceSet) -> (r: Result<
    UnifiedTrace,
    usize,
>)
    ensures
        r is Ok <==> compactable(entries@, valid_bb@),
        r is Ok ==> {
            &&& r->Ok_0.entries@ == unified(entries@, valid_bb@, entries@.len() as int)
            &&& r->Ok_0.dropped == dropped_before(entries@, valid_bb@, entries@.len() as int)
            &&& r->Ok_0.entries@.len() == retained_before(
                entries@,
                valid_bb@,
                entries@.len() as int,
            )
            &&& r->Ok_0.entries@.len() + r->Ok_0.dropped == entries@.len()
        },
        r is Err ==> is_first_too_small(entries@, valid_bb@, r->Err_0 as int),
{
    let mut out: Vec<BasicBlockEntry> = Vec::new();
    let mut dropped: usize = 0;
    let mut i: usize = 0;
    while i < entries.len()
        invariant
            i <= entries.len(),
            dropped == dropped_before(entries@, valid_bb@, i as int),
            out@ == unified(entries@, valid_bb@, i as int),
            out@.len() + dropped == i,
            forall|j: int| 0 <= j < i ==> !too_small(entries@, valid_bb@, j),
        decreases entries.len() - i,
    {
        let e = entries[i];
        if valid_bb.contains(e.program_counter) {
            if e.id < dropped {
                assert(too_small(entries@, valid_bb@, i as int));
                return Err(i);
            }
            out.push(
                BasicBlockEntry {
                    id: e.id - dropped,
                    program_counter: e.program_counter,
                    hit_counter: e.hit_counter,
                },
            );
        } else {
            dropped += 1;
        }
        i += 1;
    }
    proof {
        lemma_unified_len(entries@, valid_bb@, entries@.len() as int);
    }
    Ok(UnifiedTrace { entries: out, dropped })
}

/// Whether the identifiers of a trace count up from the first one without
/// a gap, as renumbering takes them to do in the source.
pub fn identifiers_gap_free(entries: &[BasicBlockEntry]) -> (r: bool)
    ensures
        r == gap_free(entries@),
{
    let mut i: usize = 0;
    while i < entries.len()
        invariant
            i <= entries.len(),
            forall|j: int| 0 <= j < i ==> (#[trigger] entries@[j]).id == entries@[0].id + j,
        decreases entries.len() - i,
    {
        let first = entries[0].id;
        if entries[i].id < first || entries[i].id - first != i {
            return false;
        }
        i += 1;
    }
    true
}

/// Unifies the text of one trace file against the reference set: reads
/// its lines, discards the records whose program counter is not in the
/// set and renumbers the others.
///
/// The result has one entry for each line whose program counter is in the
/// set. An empty text gives an empty trace.
pub fn parse_bb_trace_file(text: &[u8], valid_bb: &ReferenceSet) -> (r: Result<
    UnifiedTrace,
    UnifyError,
>)
    ensures
        r is Ok <==> can_unify(text@, valid_bb@),
        r is Ok ==> {
            &&& r->Ok_0.entries@ == unified_entries(text@, valid_bb@)
            &&& r->Ok_0.dropped == dropped_count(text@, valid_bb@)
            &&& r->Ok_0.entries@.len() == retained_before(
                source_entries(text@),
                valid_bb@,
                split_lines(text@).len() as int,
            )
            &&& r->Ok_0.entries@.len() + r->Ok_0.dropped == split_lines(text@).len()
        },
        r is Err ==> is_fault(text@, valid_bb@, r->Err_0),
        text@.len() == 0 ==> r is Ok && r->Ok_0.entries@.len() == 0 && r->Ok_0.dropped == 0,
{
    let entries = match parse_trace(text) {
        Ok(entries) => entries,
        Err(e) => {
            return Err(UnifyError::Parse(e));
        },
    };
    proof {
        lemma_unified_len(entries@, valid_bb@, entries@.len() as int);
    }
    match unify(entries.as_slice(), valid_bb) {
        Ok(trace) => Ok(trace),
        Err(line) => Err(UnifyError::IdentifierTooSmall { line }),
    }
}

/// The text of a unified trace, and the number of records that were
/// discarded.
#[derive(Debug)]
pub struct UnifiedText {
    pub text: Vec<u8>,
    pub dropped: usize,
}

/// Unifies the text of one trace file and writes the result as text
/// again, with or without the identifiers.
///
/// An empty text gives an empty text.
pub fn unify_trace_text(text: &[u8], valid_bb: &ReferenceSet, strip: bool) -> (r: Result<
    UnifiedText,
    UnifyError,
>)
    ensures
        r is Ok <==> can_unify(text@, valid_bb@),
        r is Ok ==> {
            &&& r->Ok_0.text@ == trace_text(unified_entries(text@, valid_bb@), strip)
            &&& r->Ok_0.dropped == dropped_count(text@, valid_bb@)
        },
        r is Err ==> is_fault(text@, valid_bb@, r->Err_0),
        text@.len() == 0 ==> r is Ok && r->Ok_0.text@.len() == 0,
{
    match parse_bb_trace_file(text, valid_bb) {
        Ok(trace) => Ok(
            UnifiedText { text: render_trace(trace.entries.as_slice(), strip), dropped: trace.dropped },
        ),
        Err(e) => Err(e),
    }
}

/// Writes a trace as text: one line for each entry, each ended by a line
/// feed; with `strip` the identifiers are left out.
pub fn render_trace(entries: &[BasicBlockEntry], strip: bool) -> (out: Vec<u8>)
    ensures
        out@ == trace_text(entries@, strip),
        entries@.len() == 0 ==> out@.len() == 0,
{
    let mut out: Vec<u8> = Vec::new();
    let mut i: usize = 0;
    while i < entries.len()
        invariant
            i <= entries.len(),
            out@ == trace_text(entries@.subrange(0, i as int), strip),
        decreases entries.len() - i,
    {
        let mut line = entries[i].render(strip);
        proof {
            let through = entries@.subrange(0, i + 1);
            assert(through.drop_last() =~= entries@.subrange(0, i as int));
            assert(through.last() == entries@[i as int]);
        }
        out.append(&mut line);
        out.push(LINE_FEED);
        i += 1;
    }
    assert(entries@.subrange(0, i as int) =~= entries@);
    out
}

/// The test by which entries are retained, as a function of the entry.
pub open spec fn is_retained(valid: Set<usize>) -> spec_fn(BasicBlockEntry) -> bool {
    |e: BasicBlockEntry| retained(e, valid)
}

/// What the first `n` entries unify to are the retained ones among them,
/// in their order, each with its program counter and its hit counter.
pub proof fn lemma_unified_keeps_retained(src: Seq<BasicBlockEntry>, valid: Set<usize>, n: int)
    requires
        0 <= n <= src.len(),
    ensures
        unified(src, valid, n).len() == src.subrange(0, n).filter(is_retained(valid)).len(),
        forall|k: int|
            0 <= k < unified(src, valid, n).len() ==> {
                let kept = src.subrange(0, n).filter(is_retained(valid))[k];
                &&& (#[trigger] unified(src, valid, n)[k]).program_counter == kept.program_counter
                &&& unified(src, valid, n)[k].hit_counter == kept.hit_counter
            },
    decreases n,
{
    reveal(Seq::filter);
    if n > 0 {
        lemma_unified_keeps_retained(src, valid, n - 1);
        assert(src.subrange(0, n).drop_last() =~= src.subrange(0, n - 1));
        assert(src.subrange(0, n).last() == src[n - 1]);
    }
}

/// A unified trace has as many entries as the source has entries whose
/// program counter is in the set, and holds their program counters and
/// hit counters in the same order.
pub proof fn lemma_unified_is_filtered(src: Seq<BasicBlockEntry>, valid: Set<usize>)
    ensures
        unified(src, valid, src.len() as int).len() == src.filter(is_retained(valid)).len(),
        forall|k: int|
            0 <= k < unified(src, valid, src.len() as int).len() ==> {
                let kept = src.filter(is_retained(valid))[k];
                &&& (#[trigger] unified(src, valid, src.len() as int)[k]).program_counter
                    == kept.program_counter
                &&& unified(src, valid, src.len() as int)[k].hit_counter == kept.hit_counter
            },
{
    lemma_unified_keeps_retained(src, valid, src.len() as int);
    assert(src.subrange(0, src.len() as int) =~= src);
}

/// Whether the identifiers count up from the first one without a gap.
pub open spec fn gap_free(src: Seq<BasicBlockEntry>) -> bool {
    forall|i: int| 0 <= i < src.len() ==> (#[trigger] src[i]).id == src[0].id + i
}

/// The unified trace has as many entries as the source has entries whose
/// program counter is in the set; the others are the discarded ones. It
/// is never longer than the source, and as long only where nothing was
/// discarded.
pub proof fn lemma_unified_len(src: Seq<BasicBlockEntry>, valid: Set<usize>, n: int)
    requires
        0 <= n <= src.len(),
    ensures
        unified(src, valid, n).len() == retained_before(src, valid, n),
        retained_before(src, valid, n) + dropped_before(src, valid, n) == n,
        unified(src, valid, n).len() <= n,
        unified(src, valid, n).len() == n <==> dropped_before(src, valid, n) == 0,
    decreases n,
{
    if n > 0 {
        lemma_unified_len(src, valid, n - 1);
    }
}

/// Every entry of a unified trace has its program counter in the set.
pub proof fn lemma_unified_retained(src: Seq<BasicBlockEntry>, valid: Set<usize>, n: int)
    requires
        0 <= n <= src.len(),
    ensures
        forall|k: int|
            0 <= k < unified(src, valid, n).len() ==> retained(
                #[trigger] unified(src, valid, n)[k],
                valid,
            ),
    decreases n,
{
    if n > 0 {
        lemma_unified_retained(src, valid, n - 1);
        let shorter = unified(src, valid, n - 1);
        assert forall|k: int| 0 <= k < unified(src, valid, n).len() implies retained(
            #[trigger] unified(src, valid, n)[k],
            valid,
        ) by {
            if k < shorter.len() {
                assert(unified(src, valid, n)[k] == shorter[k]);
            }
        }
    }
}

/// Where every entry is retained, nothing is discarded and unifying
/// changes nothing.
pub proof fn lemma_unify_all_retained(src: Seq<BasicBlockEntry>, valid: Set<usize>, n: int)
    requires
        0 <= n <= src.len(),
        forall|i: int| 0 <= i < src.len() ==> retained(#[trigger] src[i], valid),
    ensures
        dropped_before(src, valid, n) == 0,
        unified(src, valid, n) == src.subrange(0, n),
    decreases n,
{
    if n > 0 {
        lemma_unify_all_retained(src, valid, n - 1);
        assert(retained(src[n - 1], valid));
        assert(renumbered(src[n - 1], 0) == src[n - 1]);
        assert(src.subrange(0, n - 1).push(src[n - 1]) =~= src.subrange(0, n));
    } else {
        assert(src.subrange(0, n) =~= Seq::<BasicBlockEntry>::empty());
    }
}

/// Unifying a unified trace against the same set gives the same trace:
/// nothing more is discarded and no identifier changes.
pub proof fn lemma_unify_idempotent(src: Seq<BasicBlockEntry>, valid: Set<usize>)
    ensures
        ({
            let once = unified(src, valid, src.len() as int);
            &&& compactable(once, valid)
            &&& dropped_before(once, valid, once.len() as int) == 0
            &&& unified(once, valid, once.len() as int) == once
        }),
{
    let once = unified(src, valid, src.len() as int);
    lemma_unified_retained(src, valid, src.len() as int);
    lemma_unify_all_retained(once, valid, once.len() as int);
    assert(once.subrange(0, once.len() as int) =~= once);
    assert forall|i: int| 0 <= i < once.len() implies !too_small(once, valid, i) by {
        lemma_unify_all_retained(once, valid, i);
    }
}

/// Where the source identifiers count up without a gap, each of the first
/// `n` entries can be renumbered, and the identifiers of what they unify
/// to count up from the first source identifier without a gap.
pub proof fn lemma_unified_ids(src: Seq<BasicBlockEntry>, valid: Set<usize>, n: int)
    requires
        gap_free(src),
        0 <= n <= src.len(),
    ensures
        forall|i: int| 0 <= i < n ==> !too_small(src, valid, i),
        forall|k: int|
            0 <= k < unified(src, valid, n).len() ==> (#[trigger] unified(src, valid, n)[k]).id
                == src[0].id + k,
    decreases n,
{
    if n > 0 {
        lemma_unified_ids(src, valid, n - 1);
        lemma_unified_len(src, valid, n - 1);
        assert(src[n - 1].id == src[0].id + (n - 1));
    }
}

/// Where the source identifiers count up without a gap, the trace can be
/// unified, and the identifiers of the unified trace count up without a
/// gap as well: each is greater by one than the one before it.
pub proof fn lemma_unified_gap_free(src: Seq<BasicBlockEntry>, valid: Set<usize>)
    requires
        gap_free(src),
    ensures
        compactable(src, valid),
        gap_free(unified(src, valid, src.len() as int)),
        forall|k: int|
            0 < k < unified(src, valid, src.len() as int).len() ==> (#[trigger] unified(
                src,
                valid,
                src.len() as int,
            )[k]).id == unified(src, valid, src.len() as int)[k - 1].id + 1,
{
    lemma_unified_ids(src, valid, src.len() as int);
}

/// What the first `n` entries unify to stays in front when more entries
/// follow.
pub proof fn lemma_unified_prefix(src: Seq<BasicBlockEntry>, valid: Set<usize>, m: int, n: int)
    requires
        0 <= m <= n <= src.len(),
    ensures
        unified(src, valid, m).len() <= unified(src, valid, n).len(),
        unified(src, valid, m) == unified(src, valid, n).subrange(
            0,
            unified(src, valid, m).len() as int,
        ),
    decreases n - m,
{
    if m < n {
        lemma_unified_prefix(src, valid, m, n - 1);
        assert(unified(src, valid, m) =~= unified(src, valid, n).subrange(
            0,
            unified(src, valid, m).len() as int,
        ));
    } else {
        assert(unified(src, valid, m) =~= unified(src, valid, n).subrange(
            0,
            unified(src, valid, m).len() as int,
        ));
    }
}

/// The first entry of a unified trace is the first retained entry of the
/// source, its identifier lowered by the number of entries before it, all
/// of which were discarded.
pub proof fn lemma_first_unified(src: Seq<BasicBlockEntry>, valid: Set<usize>, first: int)
    requires
        0 <= first < src.len(),
        retained(src[first], valid),
        forall|j: int| 0 <= j < first ==> !retained(#[trigger] src[j], valid),
    ensures
        dropped_before(src, valid, first) == first,
        unified(src, valid, src.len() as int).len() > 0,
        unified(src, valid, src.len() as int)[0] == renumbered(src[first], first as nat),
        compactable(src, valid) ==> unified(src, valid, src.len() as int)[0].id
            == src[first].id - first,
{
    lemma_nothing_retained(src, valid, first);
    assert(unified(src, valid, first + 1) =~= seq![renumbered(src[first], first as nat)]);
    lemma_unified_prefix(src, valid, first + 1, src.len() as int);
    let whole = unified(src, valid, src.len() as int);
    assert(whole.subrange(0, 1)[0] == whole[0]);
    if compactable(src, valid) {
        assert(!too_small(src, valid, first));
    }
}

/// Where none of the first `n` entries is retained, all of them are
/// discarded and they unify to nothing.
pub proof fn lemma_nothing_retained(src: Seq<BasicBlockEntry>, valid: Set<usize>, n: int)
    requires
        0 <= n <= src.len(),
        forall|j: int| 0 <= j < n ==> !retained(#[trigger] src[j], valid),
    ensures
        dropped_before(src, valid, n) == n,
        unified(src, valid, n).len() == 0,
    decreases n,
{
    if n > 0 {
        lemma_nothing_retained(src, valid, n - 1);
        assert(!retained(src[n - 1], valid));
    }
}

/// The lines of the entries of a trace, in order.
pub open spec fn lines_of(trace: Seq<BasicBlockEntry>, strip: bool) -> Seq<Seq<u8>> {
    Seq::new(trace.len(), |i: int| line_text(trace[i], strip))
}

/// The text of a trace divides into the lines of its entries: one line
/// for each entry, and none for an empty trace.
pub proof fn lemma_lines_of_trace_text(trace: Seq<BasicBlockEntry>, strip: bool)
    ensures
        split_lines(trace_text(trace, strip)) == lines_of(trace, strip),
        ends_lines(trace_text(trace, strip)),
    decreases trace.len(),
{
    if trace.len() > 0 {
        let front = trace_text(trace.drop_last(), strip);
        let line = line_text(trace.last(), strip);
        lemma_lines_of_trace_text(trace.drop_last(), strip);
        lemma_line_text_bytes(trace.last(), strip, LINE_FEED);
        lemma_line_text_bytes(trace.last(), strip, CARRIAGE_RETURN);
        lemma_split_one_line(line);
        lemma_split_lines_joined(front, line + seq![LINE_FEED]);
        assert(trace_text(trace, strip) =~= front + (line + seq![LINE_FEED]));
        assert(lines_of(trace.drop_last(), strip) + seq![line] =~= lines_of(trace, strip));
    } else {
        assert(split_lines(trace_text(trace, strip)) =~= lines_of(trace, strip));
    }
}

/// The full text of a trace reads back as that trace.
pub proof fn lemma_parse_trace_text(trace: Seq<BasicBlockEntry>)
    ensures
        all_parse(split_lines(trace_text(trace, false))),
        parsed(split_lines(trace_text(trace, false))) == trace,
{
    lemma_lines_of_trace_text(trace, false);
    let lines = lines_of(trace, false);
    assert forall|i: int| 0 <= i < lines.len() implies parse_line(#[trigger] lines[i]) == Ok::<
        BasicBlockEntry,
        Field,
    >(trace[i]) by {
        lemma_parse_full_text(trace[i]);
    }
    assert(parsed(lines) =~= trace);
}

/// The stripped text of a trace has a line for each line of its full
/// text, and each full line is the entry's identifier, a space, and the
/// stripped line: the two hold the same program counters and hit counters.
/// Where the identifiers count up from zero, putting the number of each
/// stripped line before it gives the full text's lines back.
pub proof fn lemma_full_lines_from_stripped(trace: Seq<BasicBlockEntry>)
    ensures
        split_lines(trace_text(trace, true)).len() == trace.len(),
        split_lines(trace_text(trace, false)).len() == trace.len(),
        forall|k: int|
            0 <= k < trace.len() ==> #[trigger] split_lines(trace_text(trace, false))[k]
                == id_text(trace[k].id as nat) + seq![SPACE] + split_lines(
                trace_text(trace, true),
            )[k],
        gap_free(trace) && trace.len() > 0 && trace[0].id == 0 ==> forall|k: int|
            0 <= k < trace.len() ==> #[trigger] split_lines(trace_text(trace, false))[k]
                == id_text(k as nat) + seq![SPACE] + split_lines(trace_text(trace, true))[k],
{
    lemma_lines_of_trace_text(trace, true);
    lemma_lines_of_trace_text(trace, false);
}

/// Unifying the full text of a unified trace against the same set gives
/// that trace again: every line is a record, nothing is discarded, and no
/// identifier changes.
pub proof fn lemma_unify_text_idempotent(src: Seq<BasicBlockEntry>, valid: Set<usize>)
    ensures
        ({
            let once = unified(src, valid, src.len() as int);
            let text = trace_text(once, false);
            &&& can_unify(text, valid)
            &&& unified_entries(text, valid) == once
            &&& dropped_count(text, valid) == 0
            &&& trace_text(unified_entries(text, valid), false) == text
        }),
{
    let once = unified(src, valid, src.len() as int);
    lemma_parse_trace_text(once);
    lemma_unify_idempotent(src, valid);
}

} // verus!
