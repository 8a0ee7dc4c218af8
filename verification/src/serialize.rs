//! Serialization of an assembled block sequence into the subtitle file's
//! textual grammar: for each block its index, its time range and its caption,
//! separated by blank lines, with one top-level trim of trailing whitespace.

use vstd::prelude::*;
use vstd::string::{StrSliceExecFns, StringExecFns};
use crate::assemble::{SrtBlock, SrtBlockView};
use crate::digits::{dec_digits, padded_dec, to_decimal};
use crate::timefmt::{is_ws, time_chars, trim_ws_end, trimmed_end};

verus! {

/// The models of a sequence of blocks.
pub open spec fn block_views(blocks: Seq<SrtBlock>) -> Seq<SrtBlockView> {
    blocks.map_values(|b: SrtBlock| b@)
}

/// One block's rendering without its terminating blank line: the index line,
/// the time-range line, and the caption.
pub open spec fn piece(b: SrtBlockView) -> Seq<char> {
    dec_digits(b.index as nat) + seq!['\n'] + b.start + seq![' ', '-', '-', '>', ' '] + b.end
        + seq!['\n'] + b.text
}

/// One block's rendering: index line, time-range line, caption, blank line.
pub open spec fn render_block(b: SrtBlockView) -> Seq<char> {
    piece(b) + seq!['\n', '\n']
}

/// The renderings of all blocks, in order.
pub open spec fn render_blocks(blocks: Seq<SrtBlockView>) -> Seq<char>
    decreases blocks.len(),
{
    if blocks.len() == 0 {
        Seq::empty()
    } else {
        render_blocks(blocks.drop_last()) + render_block(blocks.last())
    }
}

/// The whole subtitle text: every block's rendering in order, with trailing
/// whitespace trimmed once at the top level.
pub open spec fn srt_text(blocks: Seq<SrtBlockView>) -> Seq<char> {
    trim_ws_end(render_blocks(blocks))
}

/// True when `s` contains no newline at all.
pub open spec fn no_newline(s: Seq<char>) -> bool {
    forall|i: int| 0 <= i < s.len() ==> s[i] != '\n'
}

/// True when `s` contains no blank line: no two consecutive newlines.
pub open spec fn sep_free(s: Seq<char>) -> bool {
    forall|i: int| 0 <= i < s.len() - 1 ==> !(#[trigger] s[i] == '\n' && s[i + 1] == '\n')
}

/// A caption that survives the format unchanged: nonempty, not framed by
/// newlines, and free of blank lines.
pub open spec fn caption_wf(t: Seq<char>) -> bool {
    t.len() > 0 && t[0] != '\n' && t.last() != '\n' && sep_free(t)
}

/// Renders the assembled block sequence as the subtitle file's full text.
pub fn make_srt(blocks: &Vec<SrtBlock>) -> (r: String)
    ensures
        r@ == srt_text(block_views(blocks@)),
{
    let ghost views = block_views(blocks@);
    let mut out = String::new();
    let mut i: usize = 0;
    proof {
        assert(views.subrange(0, 0) =~= Seq::<SrtBlockView>::empty());
    }
    while i < blocks.len()
        invariant
            i <= blocks.len(),
            views == block_views(blocks@),
            views.len() == blocks@.len(),
            forall|j: int| 0 <= j < blocks@.len() ==> views[j] == blocks@[j]@,
            out@ == render_blocks(views.subrange(0, i as int)),
        decreases blocks.len() - i,
    {
        let b = &blocks[i];
        let index_digits = to_decimal(b.index as u128);
        out.append(index_digits.as_str());
        out.append("\n");
        out.append(b.start_time_string.as_str());
        out.append(" --> ");
        out.append(b.end_time_string.as_str());
        out.append("\n");
        out.append(b.text.as_str());
        out.append("\n\n");
        proof {
            reveal_strlit("\n");
            reveal_strlit(" --> ");
            reveal_strlit("\n\n");
            assert("\n"@ =~= seq!['\n']);
            assert(" --> "@ =~= seq![' ', '-', '-', '>', ' ']);
            assert("\n\n"@ =~= seq!['\n', '\n']);
            assert(views.subrange(0, i + 1).drop_last() =~= views.subrange(0, i as int));
            assert(views.subrange(0, i + 1).last() == blocks@[i as int]@);
            assert(out@ =~= render_blocks(views.subrange(0, i + 1)));
        }
        i = i + 1;
    }
    proof {
        assert(views.subrange(0, blocks@.len() as int) =~= views);
    }
    trimmed_end(&out)
}

/// Decimal digit sequences contain no newline and are never empty.
pub proof fn lemma_dec_digits_line(n: nat)
    ensures
        no_newline(dec_digits(n)),
        dec_digits(n).len() > 0,
    decreases n,
{
    if n >= 10 {
        lemma_dec_digits_line(n / 10);
    }
}

/// Zero-padded decimals contain no newline and are never empty.
pub proof fn lemma_padded_dec_line(n: nat, w: nat)
    ensures
        no_newline(padded_dec(n, w)),
        padded_dec(n, w).len() > 0,
{
    lemma_dec_digits_line(n);
}

/// Timestamps contain no newline and are never empty.
pub proof fn lemma_time_chars_line(ns: int)
    ensures
        no_newline(time_chars(ns)),
        time_chars(ns).len() > 0,
{
    let secs = ns / 1_000_000_000;
    let millis = (ns % 1_000_000_000) / 1_000_000;
    lemma_padded_dec_line((secs / 3600) as nat, 2);
    lemma_padded_dec_line(((secs % 3600) / 60) as nat, 2);
    lemma_padded_dec_line((secs % 60) as nat, 2);
    lemma_padded_dec_line(millis as nat, 3);
}

/// Gluing two blank-line-free texts keeps them blank-line-free when no blank
/// line forms at the boundary.
proof fn lemma_sep_free_concat(s: Seq<char>, t: Seq<char>)
    requires
        sep_free(s),
        sep_free(t),
        s.len() > 0 && t.len() > 0 ==> !(s.last() == '\n' && t[0] == '\n'),
    ensures
        sep_free(s + t),
{
    assert forall|i: int| 0 <= i < (s + t).len() - 1 implies !(#[trigger] (s + t)[i] == '\n' && (s
        + t)[i + 1] == '\n') by {
        if i < s.len() - 1 {
            assert((s + t)[i] == s[i] && (s + t)[i + 1] == s[i + 1]);
        } else if i == s.len() - 1 {
            assert((s + t)[i] == s.last() && (s + t)[i + 1] == t[0]);
        } else {
            assert((s + t)[i] == t[i - s.len()] && (s + t)[i + 1] == t[i + 1 - s.len()]);
        }
    }
}

/// A well-formed block's piece holds no blank line and ends with its
/// caption's last character, which is no newline.
pub proof fn lemma_piece_wf(b: SrtBlockView)
    requires
        no_newline(b.start),
        b.start.len() > 0,
        no_newline(b.end),
        b.end.len() > 0,
        caption_wf(b.text),
    ensures
        sep_free(piece(b)),
        piece(b).len() > 0,
        piece(b).last() == b.text.last(),
        piece(b).last() != '\n',
{
    lemma_dec_digits_line(b.index as nat);
    let d = dec_digits(b.index as nat);
    let nl = seq!['\n'];
    let arrow = seq![' ', '-', '-', '>', ' '];
    let p1 = d + nl;
    let p2 = p1 + b.start;
    let p3 = p2 + arrow;
    let p4 = p3 + b.end;
    let p5 = p4 + nl;
    assert(sep_free(d) && sep_free(b.start) && sep_free(b.end) && sep_free(nl) && sep_free(arrow));
    lemma_sep_free_concat(d, nl);
    assert(p1.last() == '\n');
    lemma_sep_free_concat(p1, b.start);
    assert(p2.last() == b.start.last());
    lemma_sep_free_concat(p2, arrow);
    assert(p3.last() == ' ');
    lemma_sep_free_concat(p3, b.end);
    assert(p4.last() == b.end.last());
    lemma_sep_free_concat(p4, nl);
    assert(p5.last() == '\n');
    lemma_sep_free_concat(p5, b.text);
    assert(piece(b) == p5 + b.text);
    assert(piece(b).last() == b.text.last());
}

/// The position of the first blank line in `s`, or `-1` when there is none.
pub open spec fn first_sep(s: Seq<char>) -> int
    decreases s.len(),
{
    if s.len() < 2 {
        -1
    } else if s[0] == '\n' && s[1] == '\n' {
        0
    } else {
        let r = first_sep(s.drop_first());
        if r < 0 {
            -1
        } else {
            r + 1
        }
    }
}

/// What [`first_sep`] returns: the least position of two consecutive
/// newlines, or `-1` when the text is free of blank lines.
pub proof fn lemma_first_sep(s: Seq<char>)
    ensures
        ({
            let r = first_sep(s);
            &&& r >= 0 ==> 0 <= r < s.len() - 1 && s[r] == '\n' && s[r + 1] == '\n' && (forall|
                j: int,
            |
                0 <= j < r ==> !(#[trigger] s[j] == '\n' && s[j + 1] == '\n'))
            &&& r < 0 ==> sep_free(s)
        }),
    decreases s.len(),
{
    if s.len() >= 2 && !(s[0] == '\n' && s[1] == '\n') {
        let rest = s.drop_first();
        lemma_first_sep(rest);
        let r0 = first_sep(rest);
        assert(forall|j: int| 0 <= j < rest.len() ==> rest[j] == #[trigger] s[j + 1]);
        if r0 >= 0 {
            assert forall|j: int| 0 <= j < r0 + 1 implies !(#[trigger] s[j] == '\n' && s[j + 1]
                == '\n') by {
                if j > 0 {
                    assert(rest[j - 1] == s[j] && rest[j] == s[j + 1]);
                }
            }
        } else {
            assert forall|j: int| 0 <= j < s.len() - 1 implies !(#[trigger] s[j] == '\n' && s[j
                + 1] == '\n') by {
                if j > 0 {
                    assert(rest[j - 1] == s[j] && rest[j] == s[j + 1]);
                }
            }
        }
    }
}

#[via_fn]
proof fn split_on_blank_lines_decreases(s: Seq<char>)
{
    lemma_first_sep(s);
}

/// `s` split on blank lines: what a consumer that re-parses the serialized
/// text sees, one piece per blank-line-separated run.
pub open spec fn split_on_blank_lines(s: Seq<char>) -> Seq<Seq<char>>
    decreases s.len(),
    via split_on_blank_lines_decreases
{
    let r = first_sep(s);
    if r < 0 {
        seq![s]
    } else {
        seq![s.take(r)] + split_on_blank_lines(s.skip(r + 2))
    }
}

/// The pieces of all blocks joined by blank lines, with no blank line at the
/// end.
pub open spec fn joined_pieces(blocks: Seq<SrtBlockView>) -> Seq<char>
    decreases blocks.len(),
{
    if blocks.len() == 0 {
        Seq::empty()
    } else if blocks.len() == 1 {
        piece(blocks[0])
    } else {
        joined_pieces(blocks.drop_last()) + seq!['\n', '\n'] + piece(blocks.last())
    }
}

/// The rendering of a nonempty block sequence is its joined pieces followed
/// by one final blank line.
pub proof fn lemma_render_is_joined(blocks: Seq<SrtBlockView>)
    requires
        blocks.len() > 0,
    ensures
        render_blocks(blocks) == joined_pieces(blocks) + seq!['\n', '\n'],
    decreases blocks.len(),
{
    if blocks.len() == 1 {
        assert(render_blocks(blocks.drop_last()) =~= Seq::<char>::empty());
        assert(render_blocks(blocks) =~= joined_pieces(blocks) + seq!['\n', '\n']);
    } else {
        lemma_render_is_joined(blocks.drop_last());
        assert(render_blocks(blocks) =~= joined_pieces(blocks) + seq!['\n', '\n']);
    }
}

/// Joined pieces can also be peeled from the front: the first piece, a blank
/// line, then the rest.
proof fn lemma_joined_pieces_front(blocks: Seq<SrtBlockView>)
    requires
        blocks.len() >= 2,
    ensures
        joined_pieces(blocks) == piece(blocks[0]) + seq!['\n', '\n'] + joined_pieces(
            blocks.drop_first(),
        ),
    decreases blocks.len(),
{
    if blocks.len() == 2 {
        let dl = blocks.drop_last();
        let bdf = blocks.drop_first();
        assert(dl.len() == 1 && bdf.len() == 1);
        assert(dl[0] == blocks[0] && bdf[0] == blocks[1]);
        assert(joined_pieces(dl) == piece(blocks[0]));
        assert(joined_pieces(bdf) == piece(blocks[1]));
        assert(blocks.last() == blocks[1]);
        assert(joined_pieces(blocks) == joined_pieces(dl) + seq!['\n', '\n'] + piece(blocks[1]));
        assert(joined_pieces(blocks) =~= piece(blocks[0]) + seq!['\n', '\n'] + joined_pieces(bdf));
    } else {
        let dl = blocks.drop_last();
        let bdf = blocks.drop_first();
        lemma_joined_pieces_front(dl);
        assert(dl.drop_first() =~= bdf.drop_last());
        assert(dl[0] == blocks[0]);
        assert(bdf.last() == blocks.last());
        assert(bdf.len() >= 2);
        assert(joined_pieces(bdf) == joined_pieces(bdf.drop_last()) + seq!['\n', '\n'] + piece(
            bdf.last(),
        ));
        assert(joined_pieces(blocks) == joined_pieces(dl) + seq!['\n', '\n'] + piece(
            blocks.last(),
        ));
        assert(joined_pieces(dl) == piece(blocks[0]) + seq!['\n', '\n'] + joined_pieces(
            dl.drop_first(),
        ));
        assert(joined_pieces(blocks) =~= piece(blocks[0]) + seq!['\n', '\n'] + joined_pieces(bdf));
    }
}

/// True of a block whose rendered lines survive re-parsing: its time strings
/// are single nonempty lines and its caption is well formed.
pub open spec fn block_reparsable(b: SrtBlockView) -> bool {
    &&& no_newline(b.start)
    &&& b.start.len() > 0
    &&& no_newline(b.end)
    &&& b.end.len() > 0
    &&& caption_wf(b.text)
}

/// Splitting the joined pieces on blank lines recovers exactly the pieces.
proof fn lemma_split_joined(blocks: Seq<SrtBlockView>)
    requires
        blocks.len() > 0,
        forall|j: int| 0 <= j < blocks.len() ==> block_reparsable(#[trigger] blocks[j]),
    ensures
        split_on_blank_lines(joined_pieces(blocks)).len() == blocks.len(),
        forall|j: int|
            0 <= j < blocks.len() ==> #[trigger] split_on_blank_lines(joined_pieces(blocks))[j]
                == piece(blocks[j]),
    decreases blocks.len(),
{
    let s = joined_pieces(blocks);
    lemma_first_sep(s);
    lemma_piece_wf(blocks[0]);
    if blocks.len() == 1 {
        assert(first_sep(s) < 0) by {
            if first_sep(s) >= 0 {
                let r = first_sep(s);
                assert(s[r] == '\n' && s[r + 1] == '\n');
            }
        }
        assert(split_on_blank_lines(s) == seq![s]);
    } else {
        let rest = blocks.drop_first();
        lemma_joined_pieces_front(blocks);
        let p = piece(blocks[0]);
        let tail = joined_pieces(rest);
        assert(s == p + seq!['\n', '\n'] + tail);
        let pl = p.len() as int;
        assert(s[pl] == '\n' && s[pl + 1] == '\n');
        assert forall|j: int| 0 <= j < pl implies !(#[trigger] s[j] == '\n' && s[j + 1]
            == '\n') by {
            if j < pl - 1 {
                assert(s[j] == p[j] && s[j + 1] == p[j + 1]);
            } else {
                assert(s[j] == p.last());
            }
        }
        let r = first_sep(s);
        assert(r >= 0) by {
            if r < 0 {
                assert(sep_free(s));
            }
        }
        assert(r == pl);
        assert(s.take(pl) =~= p);
        assert(s.skip(pl + 2) =~= tail);
        lemma_split_joined(rest);
        assert(split_on_blank_lines(s) == seq![p] + split_on_blank_lines(tail));
        assert forall|j: int| 0 <= j < blocks.len() implies #[trigger] split_on_blank_lines(
            joined_pieces(blocks),
        )[j] == piece(blocks[j]) by {
            if j > 0 {
                assert(split_on_blank_lines(s)[j] == split_on_blank_lines(tail)[j - 1]);
                assert(rest[j - 1] == blocks[j]);
            }
        }
    }
}

/// The serialized output, re-parsed by splitting on blank lines, yields one
/// piece per assembled block, and that piece is exactly the block's index
/// line, time-range line and caption. This holds whenever every caption is
/// nonempty, free of blank lines and not framed by newlines, and the last
/// caption does not end in whitespace (a final whitespace run would fall to
/// the top-level trim).
pub proof fn lemma_round_trip(blocks: Seq<SrtBlockView>)
    requires
        blocks.len() > 0,
        forall|j: int| 0 <= j < blocks.len() ==> block_reparsable(#[trigger] blocks[j]),
        !is_ws(blocks.last().text.last()),
    ensures
        split_on_blank_lines(srt_text(blocks)).len() == blocks.len(),
        forall|j: int|
            0 <= j < blocks.len() ==> #[trigger] split_on_blank_lines(srt_text(blocks))[j]
                == piece(blocks[j]),
{
    lemma_render_is_joined(blocks);
    let joined = joined_pieces(blocks);
    lemma_piece_wf(blocks.last());
    assert(joined.last() == piece(blocks.last()).last() && joined.len() > 0) by {
        if blocks.len() >= 2 {
            assert(joined == joined_pieces(blocks.drop_last()) + seq!['\n', '\n'] + piece(
                blocks.last(),
            ));
        } else {
            assert(blocks[0] == blocks.last());
        }
    }
    crate::laws::lemma_trim_removes_final_blank_line(joined);
    assert(srt_text(blocks) == joined);
    lemma_split_joined(blocks);
}

} // verus!
