//! Pair discovery: classifying the files found in the input directory by
//! their extension and validating the mix before assembly.

use vstd::prelude::*;
use vstd::set_lib::{lemma_len_subset, set_int_range, lemma_int_range};
use vstd::string::{StrSliceExecFns, StringExecFns};
use crate::error::SrtError;

verus! {

/// The two kinds of file that discovery recognises.
#[derive(Clone, Copy, Debug, PartialEq, Eq, Structural)]
pub enum FileKind {
    /// An uncompressed waveform-audio clip (`.wav`).
    Audio,
    /// A plain-text transcript (`.txt`).
    Text,
}

/// A file handed to discovery: its bare name (no directory part) and its raw
/// contents.
pub struct SourceFile {
    /// The file's name within the input directory.
    pub name: String,
    /// The file's raw bytes.
    pub data: Vec<u8>,
}

/// The mathematical model of a [`SourceFile`].
pub ghost struct SourceFileView {
    pub name: Seq<char>,
    pub data: Seq<u8>,
}

impl View for SourceFile {
    type V = SourceFileView;

    open spec fn view(&self) -> SourceFileView {
        SourceFileView { name: self.name@, data: self.data@ }
    }
}

/// A discovered file of a recognised kind. Not mutated after discovery.
#[derive(Debug)]
pub struct FileEntry {
    /// The file's name within the input directory.
    pub name: String,
    /// The kind inferred from the name's extension.
    pub kind: FileKind,
    /// The file's raw bytes.
    pub data: Vec<u8>,
}

/// The mathematical model of a [`FileEntry`].
pub ghost struct FileEntryView {
    pub name: Seq<char>,
    pub kind: FileKind,
    pub data: Seq<u8>,
}

impl View for FileEntry {
    type V = FileEntryView;

    open spec fn view(&self) -> FileEntryView {
        FileEntryView { name: self.name@, kind: self.kind, data: self.data@ }
    }
}

/// The models of a sequence of source files.
pub open spec fn source_views(files: Seq<SourceFile>) -> Seq<SourceFileView> {
    files.map_values(|f: SourceFile| f@)
}

/// The models of a sequence of entries.
pub open spec fn entry_views(entries: Seq<FileEntry>) -> Seq<FileEntryView> {
    entries.map_values(|e: FileEntry| e@)
}

/// True when `name` ends in a dot followed by `ext`, with at least one
/// character before the dot (a name that is all extension, such as a dotfile,
/// has no extension). Case-sensitive.
pub open spec fn has_ext(name: Seq<char>, ext: Seq<char>) -> bool {
    name.len() > ext.len() + 1 && name.subrange(
        name.len() - ext.len() - 1,
        name.len() as int,
    ) == seq!['.'] + ext
}

/// The kind a file name denotes: `.wav` is audio, `.txt` is text, anything
/// else is unrecognised and ignored by discovery.
pub open spec fn spec_kind_of(name: Seq<char>) -> Option<FileKind> {
    if has_ext(name, seq!['w', 'a', 'v']) {
        Some(FileKind::Audio)
    } else if has_ext(name, seq!['t', 'x', 't']) {
        Some(FileKind::Text)
    } else {
        None
    }
}

/// Decides [`spec_kind_of`] for a file name.
pub fn kind_of_name(name: &str) -> (r: Option<FileKind>)
    ensures
        r == spec_kind_of(name@),
{
    let len = name.unicode_len();
    if len < 5 {
        proof {
            assert(!has_ext(name@, seq!['w', 'a', 'v']));
            assert(!has_ext(name@, seq!['t', 'x', 't']));
        }
        return None;
    }
    let dot = name.get_char(len - 4);
    let c1 = name.get_char(len - 3);
    let c2 = name.get_char(len - 2);
    let c3 = name.get_char(len - 1);
    proof {
        assert(name@.subrange(len - 4, len as int) =~= seq![
            name@[len - 4],
            name@[len - 3],
            name@[len - 2],
            name@[len - 1],
        ]);
        assert(seq!['.'] + seq!['w', 'a', 'v'] =~= seq!['.', 'w', 'a', 'v']);
        assert(seq!['.'] + seq!['t', 'x', 't'] =~= seq!['.', 't', 'x', 't']);
    }
    if dot == '.' && c1 == 'w' && c2 == 'a' && c3 == 'v' {
        Some(FileKind::Audio)
    } else if dot == '.' && c1 == 't' && c2 == 'x' && c3 == 't' {
        Some(FileKind::Text)
    } else {
        proof {
            if has_ext(name@, seq!['w', 'a', 'v']) {
                assert(name@.subrange(len - 4, len as int) == seq!['.', 'w', 'a', 'v']);
            }
            if has_ext(name@, seq!['t', 'x', 't']) {
                assert(name@.subrange(len - 4, len as int) == seq!['.', 't', 'x', 't']);
            }
        }
        None
    }
}

/// The entries that discovery keeps from `files`: the recognised files, in
/// their original order, with their inferred kinds.
pub open spec fn classified(files: Seq<SourceFileView>) -> Seq<FileEntryView>
    decreases files.len(),
{
    if files.len() == 0 {
        Seq::empty()
    } else {
        classified(files.drop_last()) + match spec_kind_of(files.last().name) {
            Some(k) => seq![
                FileEntryView { name: files.last().name, kind: k, data: files.last().data },
            ],
            None => Seq::empty(),
        }
    }
}

/// The indices of `entries` that hold a file of kind `kind`.
pub open spec fn kind_index_set(entries: Seq<FileEntryView>, kind: FileKind) -> Set<int> {
    Set::new(|i: int| 0 <= i < entries.len() && entries[i].kind == kind)
}

/// How many entries hold a file of kind `kind`.
pub open spec fn kind_count(entries: Seq<FileEntryView>, kind: FileKind) -> nat {
    kind_index_set(entries, kind).len()
}

/// The set of indices of one kind is finite and no larger than the sequence.
pub proof fn lemma_kind_set_finite(entries: Seq<FileEntryView>, kind: FileKind)
    ensures
        kind_index_set(entries, kind).finite(),
        kind_count(entries, kind) <= entries.len(),
{
    lemma_int_range(0, entries.len() as int);
    lemma_len_subset(kind_index_set(entries, kind), set_int_range(0, entries.len() as int));
}

/// Appending one entry raises the count of its kind by one and leaves the
/// other kind's count unchanged.
pub proof fn lemma_kind_count_push(entries: Seq<FileEntryView>, e: FileEntryView, kind: FileKind)
    ensures
        kind_count(entries.push(e), kind) == kind_count(entries, kind) + if e.kind == kind {
            1int
        } else {
            0int
        },
{
    lemma_kind_set_finite(entries, kind);
    let s = kind_index_set(entries, kind);
    let t = kind_index_set(entries.push(e), kind);
    if e.kind == kind {
        assert(t =~= s.insert(entries.len() as int));
        assert(!s.contains(entries.len() as int));
    } else {
        assert(t =~= s);
    }
}

fn clone_bytes(v: &Vec<u8>) -> (r: Vec<u8>)
    ensures
        r@ == v@,
{
    let mut r: Vec<u8> = Vec::new();
    let mut i: usize = 0;
    while i < v.len()
        invariant
            i <= v.len(),
            r@ =~= v@.subrange(0, i as int),
        decreases v.len() - i,
    {
        r.push(v[i]);
        i = i + 1;
    }
    proof {
        assert(r@ =~= v@);
    }
    r
}

/// Validates the mix of files found in the input directory and returns the
/// recognised ones, classified, in their original order.
///
/// The checks run in a fixed order, and each failure aborts the whole run:
/// no audio file at all, then no text file at all, then unequal counts.
/// Pairing of prefixes is not checked here; that is assembly's task.
pub fn extract_wav_and_txt(files: Vec<SourceFile>) -> (r: Result<Vec<FileEntry>, SrtError>)
    ensures
        ({
            let cs = classified(source_views(files@));
            let na = kind_count(cs, FileKind::Audio);
            let nt = kind_count(cs, FileKind::Text);
            &&& (r matches Err(e) ==> (e == SrtError::MissingAudio || e == SrtError::MissingText
                || e == SrtError::CountMismatch))
            &&& (r matches Err(e) && e == SrtError::MissingAudio <==> na == 0)
            &&& (r matches Err(e) && e == SrtError::MissingText <==> na > 0 && nt == 0)
            &&& (r matches Err(e) && e == SrtError::CountMismatch <==> na > 0 && nt > 0 && na
                != nt)
            &&& (r matches Ok(v) <==> na > 0 && nt > 0 && na == nt)
            &&& (r matches Ok(v) ==> entry_views(v@) == cs)
        }),
{
    let ghost all = source_views(files@);
    let mut out: Vec<FileEntry> = Vec::new();
    let mut n_audio: usize = 0;
    let mut n_text: usize = 0;
    let mut i: usize = 0;
    proof {
        assert(all.subrange(0, 0) =~= Seq::<SourceFileView>::empty());
        assert(entry_views(out@) =~= classified(all.subrange(0, 0)));
        assert(kind_index_set(classified(all.subrange(0, 0)), FileKind::Audio)
            =~= Set::<int>::empty());
        assert(kind_index_set(classified(all.subrange(0, 0)), FileKind::Text)
            =~= Set::<int>::empty());
    }
    while i < files.len()
        invariant
            i <= files.len(),
            all == source_views(files@),
            all.len() == files@.len(),
            forall|j: int| 0 <= j < files@.len() ==> all[j] == files@[j]@,
            entry_views(out@) == classified(all.subrange(0, i as int)),
            n_audio == kind_count(classified(all.subrange(0, i as int)), FileKind::Audio),
            n_text == kind_count(classified(all.subrange(0, i as int)), FileKind::Text),
            n_audio + n_text <= i,
        decreases files.len() - i,
    {
        let ghost pre = classified(all.subrange(0, i as int));
        let f = &files[i];
        proof {
            assert(all.subrange(0, i + 1).drop_last() =~= all.subrange(0, i as int));
            assert(all.subrange(0, i + 1).last() == f@);
        }
        match kind_of_name(f.name.as_str()) {
            Some(k) => {
                let entry = FileEntry { name: f.name.clone(), kind: k, data: clone_bytes(&f.data) };
                proof {
                    let ev = FileEntryView { name: f@.name, kind: k, data: f@.data };
                    assert(classified(all.subrange(0, i + 1)) =~= pre.push(ev));
                    lemma_kind_count_push(pre, ev, FileKind::Audio);
                    lemma_kind_count_push(pre, ev, FileKind::Text);
                    assert(entry@ == ev);
                    assert(entry_views(out@.push(entry)) =~= entry_views(out@).push(entry@));
                }
                out.push(entry);
                if matches!(k, FileKind::Audio) {
                    n_audio = n_audio + 1;
                } else {
                    n_text = n_text + 1;
                }
            },
            None => {
                proof {
                    assert(classified(all.subrange(0, i + 1)) =~= pre);
                }
            },
        }
        i = i + 1;
    }
    proof {
        assert(all.subrange(0, files@.len() as int) =~= all);
    }
    if n_audio == 0 {
        Err(SrtError::MissingAudio)
    } else if n_text == 0 {
        Err(SrtError::MissingText)
    } else if n_audio != n_text {
        Err(SrtError::CountMismatch)
    } else {
        Ok(out)
    }
}

} // verus!
