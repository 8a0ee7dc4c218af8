//! Laws of the pipeline that relate several functions: how far the scan
//! runs, and how the number of blocks relates to the number of files.

use vstd::prelude::*;
use vstd::relations::injective_on;
use vstd::set_lib::{lemma_int_range, lemma_map_size, set_int_range};
use crate::assemble::{any_match, audio_idx, block_matches, lemma_first_kind_match, run_ok_upto,
    start_ns, step_ok, text_idx, SrtBlockView};
use crate::digits::prefix_chars;
use crate::discover::{kind_count, kind_index_set, FileEntryView, FileKind};
use crate::serialize::{block_reparsable, caption_wf, lemma_round_trip, lemma_time_chars_line,
    piece, split_on_blank_lines, srt_text};
use crate::timefmt::{is_ws, trim_ws_end};

verus! {

/// The scan stops at the first gap in the numbering: if block number `g`
/// selects no file, a run whose every number below `k` assembles cannot be
/// longer than `g`, even if higher numbers would match again beyond the gap.
pub proof fn lemma_halts_at_first_gap(files: Seq<FileEntryView>, k: int, g: int)
    requires
        run_ok_upto(files, k),
        0 <= g,
        !any_match(files, prefix_chars(g as nat)),
    ensures
        k <= g,
{
    if k > g {
        assert(step_ok(files, g));
    }
}

/// The index of the file of kind `kind` that block number `j` uses.
pub open spec fn kind_witness(files: Seq<FileEntryView>, j: int, kind: FileKind) -> int {
    if kind == FileKind::Audio {
        audio_idx(files, j)
    } else {
        text_idx(files, j)
    }
}

/// On an input set whose files pair up exactly — every scanned number selects
/// at most one file of each kind, every file is selected by exactly one of
/// the `k` scanned numbers, and the scan of all `k` numbers succeeds and then
/// ends at a gap — the number of assembled blocks equals the number of audio
/// files and the number of text files.
pub proof fn lemma_block_count_matches_file_count(files: Seq<FileEntryView>, k: int)
    requires
        0 <= k,
        run_ok_upto(files, k),
        !any_match(files, prefix_chars(k as nat)),
        // at most one file of each kind matches one number
        forall|j: int, i1: int, i2: int|
            0 <= j < k && 0 <= i1 < files.len() && 0 <= i2 < files.len()
                && #[trigger] prefix_chars(j as nat).is_prefix_of(files[i1].name)
                && #[trigger] prefix_chars(j as nat).is_prefix_of(files[i2].name)
                && files[i1].kind == files[i2].kind ==> i1 == i2,
        // every file is selected by some scanned number
        forall|idx: int|
            #![trigger files[idx]]
            0 <= idx < files.len() ==> exists|j: int|
                0 <= j < k && #[trigger] prefix_chars(j as nat).is_prefix_of(files[idx].name),
        // no file is selected by two different numbers
        forall|idx: int, j1: int, j2: int|
            0 <= idx < files.len() && 0 <= j1 < k && 0 <= j2 < k && #[trigger] prefix_chars(
                j1 as nat,
            ).is_prefix_of(files[idx].name) && #[trigger] prefix_chars(j2 as nat).is_prefix_of(
                files[idx].name,
            ) ==> j1 == j2,
    ensures
        kind_count(files, FileKind::Audio) == k,
        kind_count(files, FileKind::Text) == k,
{
    lemma_kind_count_is_run_length(files, k, FileKind::Audio);
    lemma_kind_count_is_run_length(files, k, FileKind::Text);
}

proof fn lemma_kind_count_is_run_length(files: Seq<FileEntryView>, k: int, kind: FileKind)
    requires
        0 <= k,
        run_ok_upto(files, k),
        forall|j: int, i1: int, i2: int|
            0 <= j < k && 0 <= i1 < files.len() && 0 <= i2 < files.len()
                && #[trigger] prefix_chars(j as nat).is_prefix_of(files[i1].name)
                && #[trigger] prefix_chars(j as nat).is_prefix_of(files[i2].name)
                && files[i1].kind == files[i2].kind ==> i1 == i2,
        forall|idx: int|
            #![trigger files[idx]]
            0 <= idx < files.len() ==> exists|j: int|
                0 <= j < k && #[trigger] prefix_chars(j as nat).is_prefix_of(files[idx].name),
        forall|idx: int, j1: int, j2: int|
            0 <= idx < files.len() && 0 <= j1 < k && 0 <= j2 < k && #[trigger] prefix_chars(
                j1 as nat,
            ).is_prefix_of(files[idx].name) && #[trigger] prefix_chars(j2 as nat).is_prefix_of(
                files[idx].name,
            ) ==> j1 == j2,
    ensures
        kind_count(files, kind) == k,
{
    let f = |j: int| kind_witness(files, j, kind);
    let dom = set_int_range(0, k);
    let img = kind_index_set(files, kind);
    // every scanned number has its file of the kind, the least matching one
    assert forall|j: int| 0 <= j < k implies 0 <= #[trigger] f(j) < files.len() && files[f(
        j,
    )].kind == kind && prefix_chars(j as nat).is_prefix_of(files[f(j)].name) by {
        assert(step_ok(files, j));
        lemma_first_kind_match(files, prefix_chars(j as nat), kind);
    }
    assert(injective_on(f, dom)) by {
        assert forall|j1: int, j2: int|
            dom.contains(j1) && dom.contains(j2) && #[trigger] f(j1) == #[trigger] f(
                j2,
            ) implies j1 == j2 by {
            assert(prefix_chars(j1 as nat).is_prefix_of(files[f(j1)].name));
            assert(prefix_chars(j2 as nat).is_prefix_of(files[f(j2)].name));
        }
    }
    assert(dom.map(f) =~= img) by {
        assert forall|idx: int| #[trigger] img.contains(idx) implies dom.map(f).contains(idx) by {
            let j = choose|j: int|
                0 <= j < k && #[trigger] prefix_chars(j as nat).is_prefix_of(files[idx].name);
            assert(prefix_chars(j as nat).is_prefix_of(files[f(j)].name));
            assert(files[f(j)].kind == files[idx].kind);
            assert(f(j) == idx);
            assert(dom.contains(j));
            assert(dom.map(f).contains(f(j)));
        }
        assert forall|idx: int| #[trigger] dom.map(f).contains(idx) implies img.contains(idx) by {
            let j = choose|j: int| dom.contains(j) && #[trigger] f(j) == idx;
            assert(0 <= f(j) < files.len() && files[f(j)].kind == kind);
        }
    }
    lemma_int_range(0, k);
    lemma_map_size(dom, img, f);
}

/// When the last block's caption does not end in whitespace, the one
/// top-level trim removes exactly the final blank line of the rendering: the
/// serialized text is the rendering of every block, each ending in a blank
/// line, with the last blank line removed.
pub proof fn lemma_trim_removes_final_blank_line(s: Seq<char>)
    requires
        s.len() > 0,
        !is_ws(s.last()),
    ensures
        trim_ws_end(s + seq!['\n', '\n']) == s,
{
    let s2 = s + seq!['\n', '\n'];
    let s1 = s + seq!['\n'];
    assert(is_ws('\n'));
    assert(s2.last() == '\n');
    assert(s2.drop_last() =~= s1);
    assert(trim_ws_end(s2) == trim_ws_end(s1));
    assert(s1.last() == '\n');
    assert(s1.drop_last() =~= s);
    assert(trim_ws_end(s1) == trim_ws_end(s));
    assert(trim_ws_end(s) == s);
}

/// The round trip of the serialized format, applied to an assembled run:
/// when every block of a successful assembly carries a well-formed caption
/// and the last caption does not end in whitespace, re-parsing the rendered
/// output by splitting on blank lines yields one piece per block, equal to
/// that block's index line, time-range line and caption.
pub proof fn lemma_assembly_round_trip(files: Seq<FileEntryView>, blocks: Seq<SrtBlockView>)
    requires
        blocks.len() > 0,
        forall|j: int| 0 <= j < blocks.len() ==> block_matches(files, j, #[trigger] blocks[j]),
        forall|j: int| 0 <= j < blocks.len() ==> caption_wf(#[trigger] blocks[j].text),
        !is_ws(blocks.last().text.last()),
    ensures
        split_on_blank_lines(srt_text(blocks)).len() == blocks.len(),
        forall|j: int|
            0 <= j < blocks.len() ==> #[trigger] split_on_blank_lines(srt_text(blocks))[j]
                == piece(blocks[j]),
{
    assert forall|j: int| 0 <= j < blocks.len() implies block_reparsable(
        #[trigger] blocks[j],
    ) by {
        lemma_time_chars_line(start_ns(files, j));
        lemma_time_chars_line(start_ns(files, j + 1));
    }
    lemma_round_trip(blocks);
}

} // verus!
