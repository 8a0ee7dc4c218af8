//! Block assembly: the core of the pipeline. Starting from block number 0 and
//! a clock at zero, each zero-padded block number selects the files whose
//! names start with it; the first matching audio file supplies a clip
//! duration, the first matching text file the caption, and the clock advances
//! by the clip duration. The scan ends at the first number that selects no
//! file at all.

use vstd::prelude::*;
use vstd::string::StrSliceExecFns;
use vstd::utf8::{decode_utf8, valid_utf8};
use crate::digits::prefix_chars;
use crate::digits::to_padded_decimal;
use crate::timefmt::{format_time, time_chars};
use crate::discover::{entry_views, FileEntry, FileEntryView, FileKind};
use crate::error::SrtError;

verus! {

/// The scan stops after this many blocks even if every number keeps matching;
/// it bounds the block index and the running clock.
pub const MAX_BLOCKS: usize = 0xFFFF_FFFF;

/// One caption entry of the subtitle file.
#[derive(Debug, PartialEq)]
pub struct SrtBlock {
    /// 1-based sequence number: dense, no gaps, strictly increasing.
    pub index: usize,
    /// Where the block starts on the timeline, as `HH:MM:SS,mmm`.
    pub start_time_string: String,
    /// Where the block ends on the timeline, as `HH:MM:SS,mmm`.
    pub end_time_string: String,
    /// The caption text, exactly as read from the paired text file.
    pub text: String,
}

/// The mathematical model of an [`SrtBlock`].
pub ghost struct SrtBlockView {
    pub index: int,
    pub start: Seq<char>,
    pub end: Seq<char>,
    pub text: Seq<char>,
}

impl View for SrtBlock {
    type V = SrtBlockView;

    open spec fn view(&self) -> SrtBlockView {
        SrtBlockView {
            index: self.index as int,
            start: self.start_time_string@,
            end: self.end_time_string@,
            text: self.text@,
        }
    }
}

/// What the audio parser extracts from a clip: its sampling rate in hertz and
/// its number of 16-bit samples. The value is a function of the clip's bytes
/// alone.
pub uninterp spec fn wav_info_of(bytes: Seq<u8>) -> Option<(u32, u64)>;

/// The little-endian 32-bit value stored at `pos`.
pub open spec fn le32(bytes: Seq<u8>, pos: int) -> int {
    bytes[pos] + 256 * bytes[pos + 1] + 65536 * bytes[pos + 2] + 16777216 * bytes[pos + 3]
}

/// True when bytes 8..12 spell `WAVE`, the form type that makes the parser
/// walk the chunk list.
pub open spec fn is_wave_form(bytes: Seq<u8>) -> bool {
    bytes[8] == 87 && bytes[9] == 65 && bytes[10] == 86 && bytes[11] == 69
}

/// True when the chunk list from `cur` up to the declared end `end` can be
/// walked without harm: each chunk header that the walk visits lies within
/// the data and carries a UTF-8 id. The walk steps over each chunk's declared
/// length, padded to two bytes.
pub open spec fn chunk_walk_ok(bytes: Seq<u8>, cur: int, end: int) -> bool
    decreases end - cur,
{
    if cur >= end {
        true
    } else {
        &&& cur + 8 <= bytes.len()
        &&& valid_utf8(bytes.subrange(cur, cur + 4))
        &&& {
            let next = cur + 8 + le32(bytes, cur + 4) + le32(bytes, cur + 4) % 2;
            next >= end || chunk_walk_ok(bytes, next, end)
        }
    }
}

/// True when the audio parser can scan the bytes without aborting: the form
/// type is UTF-8, and when it spells `WAVE` the chunk list inside the
/// declared outer length walks cleanly. Data too short for a form type is
/// refused by the parser before any walk.
pub open spec fn riff_scan_ok(bytes: Seq<u8>) -> bool {
    bytes.len() < 12 || {
        &&& valid_utf8(bytes.subrange(8, 12))
        &&& (is_wave_form(bytes) ==> chunk_walk_ok(bytes, 12, 4 + le32(bytes, 4)))
    }
}

/// Relies on `wav::read` of the `wav` crate: it parses the RIFF/WAVE header
/// and data chunk out of the given bytes and nothing else, so its outcome is
/// a function of the bytes; a 16-bit-PCM data chunk yields one sample per two
/// bytes of input, so the sample count cannot exceed the input length. Any
/// clip that is not 16-bit PCM is reported as unparsable, as the assembler
/// accepts only that layout. The call aborts on two malformed families — a
/// chunk header declared beyond the data, and a chunk or form id that is not
/// UTF-8 — so `riff_scan_ok`, checked by [`check_riff_layout`] before the
/// call, is required here.
#[verifier::external_body]
fn parse_wav_bytes(bytes: &Vec<u8>) -> (r: Option<(u32, u64)>)
    requires
        riff_scan_ok(bytes@),
    ensures
        r == wav_info_of(bytes@),
        r matches Some(info) ==> info.1 <= bytes@.len(),
{
    let mut cursor = std::io::Cursor::new(bytes.as_slice());
    match wav::read(&mut cursor) {
        Ok((header, data)) => match data {
            wav::BitDepth::Sixteen(samples) => Some((header.sampling_rate, samples.len() as u64)),
            _ => None,
        },
        Err(_) => None,
    }
}

/// Relies on `String::from_utf8`: it succeeds exactly on valid UTF-8 and
/// returns the decoded characters.
#[verifier::external_body]
fn decode_text_bytes(bytes: &Vec<u8>) -> (r: Option<String>)
    ensures
        r is Some <==> valid_utf8(bytes@),
        r matches Some(s) ==> s@ == decode_utf8(bytes@),
{
    match String::from_utf8(bytes.clone()) {
        Ok(s) => Some(s),
        Err(_) => None,
    }
}

fn is_utf8_quad(bytes: &Vec<u8>, p: usize) -> (r: bool)
    requires
        p + 4 <= bytes@.len(),
        bytes@.len() <= usize::MAX,
    ensures
        r == valid_utf8(bytes@.subrange(p as int, p as int + 4)),
{
    let mut quad: Vec<u8> = Vec::new();
    quad.push(bytes[p]);
    quad.push(bytes[p + 1]);
    quad.push(bytes[p + 2]);
    quad.push(bytes[p + 3]);
    proof {
        assert(quad@ =~= bytes@.subrange(p as int, p as int + 4));
    }
    decode_text_bytes(&quad).is_some()
}

fn le32_at(bytes: &Vec<u8>, p: usize) -> (r: u32)
    requires
        p + 4 <= bytes@.len(),
        bytes@.len() <= usize::MAX,
    ensures
        r as int == le32(bytes@, p as int),
{
    (bytes[p] as u32) + 256 * (bytes[p + 1] as u32) + 65536 * (bytes[p + 2] as u32) + 16777216 * (
    bytes[p + 3] as u32)
}

/// Decides [`riff_scan_ok`]: walks the declared chunk list exactly as the
/// audio parser would, and reports whether that walk stays within the data
/// with UTF-8 ids throughout.
pub fn check_riff_layout(bytes: &Vec<u8>) -> (r: bool)
    ensures
        r == riff_scan_ok(bytes@),
{
    let n = bytes.len();
    if n < 12 {
        return true;
    }
    if !is_utf8_quad(bytes, 8) {
        return false;
    }
    if !(bytes[8] == 87 && bytes[9] == 65 && bytes[10] == 86 && bytes[11] == 69) {
        return true;
    }
    let end: u64 = 4 + le32_at(bytes, 4) as u64;
    let mut cur: u64 = 12;
    loop
        invariant
            12 <= cur,
            cur <= 0x2_0000_0010u64,
            end <= 0x1_0000_0003u64,
            n == bytes@.len(),
            n >= 12,
            end as int == 4 + le32(bytes@, 4),
            valid_utf8(bytes@.subrange(8, 12)),
            is_wave_form(bytes@),
            chunk_walk_ok(bytes@, 12, end as int) == chunk_walk_ok(bytes@, cur as int, end as int),
        ensures
            cur >= end,
            chunk_walk_ok(bytes@, 12, end as int) == chunk_walk_ok(bytes@, cur as int, end as int),
        decreases end - cur,
    {
        if cur >= end {
            break ;
        }
        if cur + 8 > n as u64 {
            proof {
                assert(!chunk_walk_ok(bytes@, cur as int, end as int));
            }
            return false;
        }
        if !is_utf8_quad(bytes, cur as usize) {
            proof {
                assert(!chunk_walk_ok(bytes@, cur as int, end as int));
            }
            return false;
        }
        let l = le32_at(bytes, (cur as usize) + 4);
        let next: u64 = cur + 8 + (l as u64) + ((l % 2) as u64);
        proof {
            assert(chunk_walk_ok(bytes@, cur as int, end as int) == (next as int >= end as int
                || chunk_walk_ok(bytes@, next as int, end as int)));
        }
        cur = next;
        if cur >= end {
            break ;
        }
    }
    proof {
        assert(chunk_walk_ok(bytes@, cur as int, end as int));
    }
    true
}

/// True when some file's name starts with the prefix `p`.
pub open spec fn any_match(files: Seq<FileEntryView>, p: Seq<char>) -> bool {
    exists|k: int| 0 <= k < files.len() && p.is_prefix_of(files[k].name)
}

/// The least index of a file of kind `kind` whose name starts with `p`, or
/// `-1` when there is none.
pub open spec fn first_kind_match(files: Seq<FileEntryView>, p: Seq<char>, kind: FileKind) -> int
    decreases files.len(),
{
    if files.len() == 0 {
        -1
    } else if p.is_prefix_of(files[0].name) && files[0].kind == kind {
        0
    } else {
        let r = first_kind_match(files.drop_first(), p, kind);
        if r < 0 {
            -1
        } else {
            r + 1
        }
    }
}

/// What [`first_kind_match`] returns: the least matching index of the kind,
/// or `-1` when no file of the kind matches.
pub proof fn lemma_first_kind_match(files: Seq<FileEntryView>, p: Seq<char>, kind: FileKind)
    ensures
        ({
            let r = first_kind_match(files, p, kind);
            &&& r >= 0 ==> 0 <= r < files.len() && p.is_prefix_of(files[r].name) && files[r].kind
                == kind && (forall|j: int|
                0 <= j < r ==> !(p.is_prefix_of(files[j].name) && files[j].kind == kind))
            &&& r < 0 ==> (forall|j: int|
                0 <= j < files.len() ==> !(p.is_prefix_of(files[j].name) && files[j].kind == kind))
        }),
    decreases files.len(),
{
    if files.len() > 0 {
        if !(p.is_prefix_of(files[0].name) && files[0].kind == kind) {
            let rest = files.drop_first();
            lemma_first_kind_match(rest, p, kind);
            let r0 = first_kind_match(rest, p, kind);
            let r = first_kind_match(files, p, kind);
            assert(forall|j: int| 0 <= j < rest.len() ==> rest[j] == #[trigger] files[j + 1]);
            if r0 >= 0 {
                assert(files[r] == rest[r0]);
                assert forall|j: int| 0 <= j < r implies !(p.is_prefix_of(files[j].name)
                    && files[j].kind == kind) by {
                    if j > 0 {
                        assert(files[j] == rest[j - 1]);
                    }
                }
            } else {
                assert forall|j: int| 0 <= j < files.len() implies !(p.is_prefix_of(files[j].name)
                    && files[j].kind == kind) by {
                    if j > 0 {
                        assert(files[j] == rest[j - 1]);
                    }
                }
            }
        }
    }
}

/// The index of the audio file that block number `i` uses.
pub open spec fn audio_idx(files: Seq<FileEntryView>, i: int) -> int {
    first_kind_match(files, prefix_chars(i as nat), FileKind::Audio)
}

/// The index of the text file that block number `i` uses.
pub open spec fn text_idx(files: Seq<FileEntryView>, i: int) -> int {
    first_kind_match(files, prefix_chars(i as nat), FileKind::Text)
}

/// A clip's duration in nanoseconds: samples over sampling rate, in whole
/// nanoseconds rounded toward zero.
pub open spec fn clip_nanos(info: (u32, u64)) -> int {
    (info.1 as int) * 1_000_000_000 / (info.0 as int)
}

/// The duration of block number `i`, taken from its audio file.
pub open spec fn block_dur_ns(files: Seq<FileEntryView>, i: int) -> int {
    match wav_info_of(files[audio_idx(files, i)].data) {
        Some(info) => clip_nanos(info),
        None => 0,
    }
}

/// Where block number `i` starts: the sum of the durations of the blocks
/// before it (the running clock).
pub open spec fn start_ns(files: Seq<FileEntryView>, i: int) -> int
    decreases i,
{
    if i <= 0 {
        0
    } else {
        start_ns(files, i - 1) + block_dur_ns(files, i - 1)
    }
}

/// True when block number `i`'s audio file parses: its bytes can be scanned
/// without harm and decode to 16-bit samples with a nonzero sampling rate.
pub open spec fn audio_decodes(files: Seq<FileEntryView>, i: int) -> bool {
    &&& riff_scan_ok(files[audio_idx(files, i)].data)
    &&& match wav_info_of(files[audio_idx(files, i)].data) {
        Some(info) => info.0 > 0,
        None => false,
    }
}

/// True when block number `i` can be assembled: some file matches its prefix,
/// a matching audio file and a matching text file both exist, the audio
/// decodes to 16-bit samples with a nonzero sampling rate, and the text holds
/// valid UTF-8.
pub open spec fn step_ok(files: Seq<FileEntryView>, i: int) -> bool {
    let p = prefix_chars(i as nat);
    &&& any_match(files, p)
    &&& first_kind_match(files, p, FileKind::Audio) >= 0
    &&& first_kind_match(files, p, FileKind::Text) >= 0
    &&& audio_decodes(files, i)
    &&& valid_utf8(files[text_idx(files, i)].data)
}

/// The failure that block number `i` runs into, checked in assembly order —
/// pairing of both kinds first, then the audio decode, then the text read;
/// `None` when the block assembles or when nothing matches (the normal end of
/// the scan).
pub open spec fn step_fail(files: Seq<FileEntryView>, i: int) -> Option<SrtError> {
    let p = prefix_chars(i as nat);
    if !any_match(files, p) {
        None
    } else if first_kind_match(files, p, FileKind::Audio) < 0 {
        Some(SrtError::UnpairedBlock)
    } else if first_kind_match(files, p, FileKind::Text) < 0 {
        Some(SrtError::UnpairedBlock)
    } else if !audio_decodes(files, i) {
        Some(SrtError::AudioDecodeError)
    } else if !valid_utf8(files[text_idx(files, i)].data) {
        Some(SrtError::TextReadError)
    } else {
        None
    }
}

/// True when every block number below `i` assembles.
pub open spec fn run_ok_upto(files: Seq<FileEntryView>, i: int) -> bool {
    forall|j: int| 0 <= j < i ==> step_ok(files, j)
}

/// The block that stands at position `i` of a correct assembly: its 1-based
/// index, its rendered time range on the running clock, and its caption.
pub open spec fn block_matches(files: Seq<FileEntryView>, i: int, b: SrtBlockView) -> bool {
    &&& b.index == i + 1
    &&& b.start == time_chars(start_ns(files, i))
    &&& b.end == time_chars(start_ns(files, i + 1))
    &&& b.text == decode_utf8(files[text_idx(files, i)].data)
}

fn name_starts_with(name: &String, prefix: &String) -> (r: bool)
    ensures
        r == prefix@.is_prefix_of(name@),
{
    let nl = name.as_str().unicode_len();
    let pl = prefix.as_str().unicode_len();
    if pl > nl {
        return false;
    }
    let mut j: usize = 0;
    while j < pl
        invariant
            0 <= j <= pl,
            pl <= nl,
            nl == name@.len(),
            pl == prefix@.len(),
            forall|jj: int| 0 <= jj < j ==> prefix@[jj] == name@[jj],
        decreases pl - j,
    {
        if name.as_str().get_char(j) != prefix.as_str().get_char(j) {
            proof {
                assert(!prefix@.is_prefix_of(name@)) by {
                    if prefix@.is_prefix_of(name@) {
                        assert(prefix@[j as int] == name@.subrange(0, pl as int)[j as int]);
                    }
                }
            }
            return false;
        }
        j = j + 1;
    }
    proof {
        assert(prefix@ =~= name@.subrange(0, pl as int));
    }
    true
}

fn find_first_kind(files: &Vec<FileEntry>, prefix: &String, kind: FileKind) -> (r: Option<usize>)
    ensures
        ({
            let m = first_kind_match(entry_views(files@), prefix@, kind);
            &&& r matches Some(k) ==> 0 <= k < files@.len() && m == k
            &&& r is None ==> m == -1
        }),
{
    let ghost fs = entry_views(files@);
    proof {
        assert(forall|j: int| 0 <= j < files@.len() ==> fs[j] == files@[j]@);
        lemma_first_kind_match(fs, prefix@, kind);
    }
    let mut k: usize = 0;
    while k < files.len()
        invariant
            k <= files.len(),
            fs == entry_views(files@),
            fs.len() == files@.len(),
            forall|j: int| 0 <= j < files@.len() ==> fs[j] == files@[j]@,
            forall|j: int| 0 <= j < k ==> !(prefix@.is_prefix_of(fs[j].name) && fs[j].kind
                == kind),
        decreases files.len() - k,
    {
        if name_starts_with(&files[k].name, prefix) && files[k].kind == kind {
            proof {
                lemma_first_kind_match(fs, prefix@, kind);
                let m = first_kind_match(fs, prefix@, kind);
                assert(prefix@.is_prefix_of(fs[k as int].name) && fs[k as int].kind == kind);
                if m < 0 {
                    assert(!(prefix@.is_prefix_of(fs[k as int].name) && fs[k as int].kind
                        == kind));
                } else if m < k {
                    assert(!(prefix@.is_prefix_of(fs[m].name) && fs[m].kind == kind));
                } else if m > k {
                    assert(!(prefix@.is_prefix_of(fs[k as int].name) && fs[k as int].kind
                        == kind));
                }
            }
            return Some(k);
        }
        k = k + 1;
    }
    proof {
        lemma_first_kind_match(fs, prefix@, kind);
        let m = first_kind_match(fs, prefix@, kind);
        if m >= 0 {
            assert(!(prefix@.is_prefix_of(fs[m].name) && fs[m].kind == kind));
        }
    }
    None
}

/// Assembles the ordered block sequence from the validated file set.
///
/// Block numbers are scanned from 0 upward; the scan ends at the first number
/// whose zero-padded prefix selects no file (or after [`MAX_BLOCKS`] blocks).
/// Each scanned number must select at least one audio and one text file, the
/// audio must decode, and the text must be UTF-8; the first failure aborts
/// the run with the matching error.
#[verifier::rlimit(100)]
pub fn make_srt_blocks(files: Vec<FileEntry>) -> (r: Result<Vec<SrtBlock>, SrtError>)
    ensures
        ({
            let fs = entry_views(files@);
            &&& (r matches Ok(v) ==> {
                let k = v@.len() as int;
                &&& k <= MAX_BLOCKS
                &&& run_ok_upto(fs, k)
                &&& (k == MAX_BLOCKS || !any_match(fs, prefix_chars(k as nat)))
                &&& (forall|j: int| 0 <= j < k ==> block_matches(fs, j, v@[j]@))
                &&& (forall|j: int|
                    1 <= j < k ==> v@[j].start_time_string@ == v@[j - 1].end_time_string@)
                &&& (k > 0 ==> v@[0].start_time_string@ == time_chars(0))
            })
            &&& (r matches Err(e) ==> exists|j: int|
                0 <= j < MAX_BLOCKS && run_ok_upto(fs, j) && #[trigger] step_fail(fs, j) == Some(
                    e,
                ))
            &&& (forall|j: int|
                0 <= j < MAX_BLOCKS && run_ok_upto(fs, j) && (#[trigger] step_fail(fs, j)) is Some
                    ==> r == Err::<Vec<SrtBlock>, SrtError>(step_fail(fs, j)->Some_0))
        }),
{
    let ghost fs = entry_views(files@);
    proof {
        assert(forall|j: int| 0 <= j < files@.len() ==> fs[j] == files@[j]@);
    }
    let mut blocks: Vec<SrtBlock> = Vec::new();
    let mut total_ns: u128 = 0;
    let mut i: usize = 0;
    loop
        invariant
            i == blocks@.len(),
            i <= MAX_BLOCKS,
            fs == entry_views(files@),
            fs.len() == files@.len(),
            forall|j: int| 0 <= j < files@.len() ==> fs[j] == files@[j]@,
            run_ok_upto(fs, i as int),
            total_ns as int == start_ns(fs, i as int),
            total_ns as int <= (i as int) * (18446744073709551615int * 1_000_000_000),
            forall|j: int| 0 <= j < i ==> block_matches(fs, j, #[trigger] blocks@[j]@),
            forall|j: int|
                1 <= j < i ==> blocks@[j].start_time_string@ == blocks@[j - 1].end_time_string@,
            i > 0 ==> blocks@[0].start_time_string@ == time_chars(0),
        ensures
            i == blocks@.len(),
            i <= MAX_BLOCKS,
            run_ok_upto(fs, i as int),
            i == MAX_BLOCKS || !any_match(fs, prefix_chars(i as nat)),
            forall|j: int| 0 <= j < i ==> block_matches(fs, j, #[trigger] blocks@[j]@),
            forall|j: int|
                1 <= j < i ==> blocks@[j].start_time_string@ == blocks@[j - 1].end_time_string@,
            i > 0 ==> blocks@[0].start_time_string@ == time_chars(0),
        decreases MAX_BLOCKS - i,
    {
        if i == MAX_BLOCKS {
            break ;
        }
        let prefix = to_padded_decimal(i as u128, 3);
        let ghost p = prefix_chars(i as nat);
        proof {
            assert(prefix@ == p);
        }
        let found_audio = find_first_kind(&files, &prefix, FileKind::Audio);
        let found_text = find_first_kind(&files, &prefix, FileKind::Text);
        proof {
            lemma_first_kind_match(fs, p, FileKind::Audio);
            lemma_first_kind_match(fs, p, FileKind::Text);
        }
        if found_audio.is_none() && found_text.is_none() {
            proof {
                assert(!any_match(fs, p)) by {
                    if any_match(fs, p) {
                        let k = choose|k: int|
                            0 <= k < fs.len() && p.is_prefix_of(fs[k].name);
                        assert(fs[k].kind == FileKind::Audio || fs[k].kind == FileKind::Text);
                    }
                }
            }
            break ;
        }
        let ghost witness_any: int = if found_audio is Some {
            audio_idx(fs, i as int)
        } else {
            text_idx(fs, i as int)
        };
        proof {
            assert(any_match(fs, p)) by {
                assert(0 <= witness_any < fs.len() && p.is_prefix_of(fs[witness_any].name));
            }
        }
        let ai = match found_audio {
            Some(ai) => ai,
            None => {
                proof {
                    assert(step_fail(fs, i as int) == Some(SrtError::UnpairedBlock));
                    lemma_run_error_unique(fs, i as int, SrtError::UnpairedBlock);
                }
                return Err(SrtError::UnpairedBlock);
            },
        };
        let ti = match found_text {
            Some(ti) => ti,
            None => {
                proof {
                    assert(step_fail(fs, i as int) == Some(SrtError::UnpairedBlock));
                    lemma_run_error_unique(fs, i as int, SrtError::UnpairedBlock);
                }
                return Err(SrtError::UnpairedBlock);
            },
        };
        if !check_riff_layout(&files[ai].data) {
            proof {
                assert(step_fail(fs, i as int) == Some(SrtError::AudioDecodeError));
                lemma_run_error_unique(fs, i as int, SrtError::AudioDecodeError);
            }
            return Err(SrtError::AudioDecodeError);
        }
        let info = parse_wav_bytes(&files[ai].data);
        let (rate, count) = match info {
            Some(pair) => pair,
            None => {
                proof {
                    assert(step_fail(fs, i as int) == Some(SrtError::AudioDecodeError));
                    lemma_run_error_unique(fs, i as int, SrtError::AudioDecodeError);
                }
                return Err(SrtError::AudioDecodeError);
            },
        };
        if rate == 0 {
            proof {
                assert(step_fail(fs, i as int) == Some(SrtError::AudioDecodeError));
                lemma_run_error_unique(fs, i as int, SrtError::AudioDecodeError);
            }
            return Err(SrtError::AudioDecodeError);
        }
        let text = match decode_text_bytes(&files[ti].data) {
            Some(text) => text,
            None => {
                proof {
                    assert(step_fail(fs, i as int) == Some(SrtError::TextReadError));
                    lemma_run_error_unique(fs, i as int, SrtError::TextReadError);
                }
                return Err(SrtError::TextReadError);
            },
        };
        let clip: u128 = (count as u128) * 1_000_000_000 / (rate as u128);
        proof {
            assert(clip as int == block_dur_ns(fs, i as int));
            assert(clip as int <= 18446744073709551615int * 1_000_000_000) by {
                vstd::arithmetic::div_mod::lemma_div_basics_5(
                    (count as u128 * 1_000_000_000) as int,
                    rate as int,
                );
            }
        }
        let start_time_string = format_time(total_ns);
        let end_ns: u128 = total_ns + clip;
        let end_time_string = format_time(end_ns);
        let block = SrtBlock { index: i + 1, start_time_string, end_time_string, text };
        proof {
            assert(step_ok(fs, i as int));
            assert(start_ns(fs, i as int + 1) == start_ns(fs, i as int) + block_dur_ns(
                fs,
                i as int,
            ));
            assert(block_matches(fs, i as int, block@));
        }
        blocks.push(block);
        proof {
            if i > 0 {
                assert(block_matches(fs, i as int - 1, blocks@[i as int - 1]@));
                assert(blocks@[i as int - 1].end_time_string@ == time_chars(
                    start_ns(fs, i as int),
                ));
            }
            assert(blocks@[i as int].start_time_string@ == time_chars(start_ns(fs, i as int)));
        }
        total_ns = end_ns;
        i = i + 1;
    }
    proof {
        assert forall|j: int|
            0 <= j < MAX_BLOCKS && run_ok_upto(fs, j) && (#[trigger] step_fail(
                fs,
                j,
            )) is Some implies false by {
            if j < i {
                assert(step_ok(fs, j));
                lemma_step_ok_no_fail(fs, j);
            } else {
                assert(i < MAX_BLOCKS);
                assert(!any_match(fs, prefix_chars(i as nat)));
                if j == i {
                    assert(step_fail(fs, i as int) is None);
                } else {
                    assert(step_ok(fs, i as int));
                }
            }
        }
    }
    Ok(blocks)
}

/// A block that assembles runs into no failure.
proof fn lemma_step_ok_no_fail(files: Seq<FileEntryView>, i: int)
    requires
        step_ok(files, i),
    ensures
        step_fail(files, i) is None,
{
}

/// If block number `i` fails while all blocks before it assemble, the run's
/// outcome is settled: any other failing point is `i` itself.
proof fn lemma_run_error_unique(files: Seq<FileEntryView>, i: int, e: SrtError)
    requires
        0 <= i,
        run_ok_upto(files, i),
        step_fail(files, i) == Some(e),
    ensures
        forall|j: int|
            0 <= j && run_ok_upto(files, j) && (#[trigger] step_fail(files, j)) is Some ==> j == i
                && step_fail(files, j) == Some(e),
{
    assert forall|j: int|
        0 <= j && run_ok_upto(files, j) && (#[trigger] step_fail(files, j)) is Some implies j == i
        && step_fail(files, j) == Some(e) by {
        if j < i {
            assert(step_ok(files, j));
            lemma_step_ok_no_fail(files, j);
        } else if j > i {
            assert(step_ok(files, i));
            lemma_step_ok_no_fail(files, i);
        }
    }
}

} // verus!
