//! The scanner: from the entries of a directory walk to one record for every
//! regular file whose base name passes the filter.

use crate::filter::{pattern_matches, NameFilter};
use crate::tokens::{tokenize, tokens_of, valid_width, TokenSet};
use vstd::prelude::*;

verus! {

/// What the file system says of an entry.
#[derive(Clone, Copy, Debug)]
pub struct FileMeta {
    /// Whether the entry is a regular file: no directory, no symbolic link.
    pub is_file: bool,
    /// The length of the file in bytes.
    pub len: u64,
}

/// One entry met while walking a directory tree.
#[derive(Debug)]
pub struct DirEntry {
    /// The path of the entry.
    pub path: String,
    /// The last component of the path.
    pub file_name: String,
    /// The entry's metadata, or `None` where it could not be read.
    pub metadata: Option<FileMeta>,
}

/// A directory entry, as contracts see it.
pub struct EntryView {
    pub path: Seq<char>,
    pub file_name: Seq<char>,
    pub metadata: Option<FileMeta>,
}

impl View for DirEntry {
    type V = EntryView;

    open spec fn view(&self) -> EntryView {
        EntryView { path: self.path@, file_name: self.file_name@, metadata: self.metadata }
    }
}

impl DeepView for DirEntry {
    type V = EntryView;

    open spec fn deep_view(&self) -> EntryView {
        self@
    }
}

/// One scanned file.
pub struct FileRecord {
    /// The path of the file.
    pub path: String,
    /// The length of the file in bytes when it was scanned.
    pub size: u64,
    /// The features of the file's name.
    pub tokens: TokenSet,
}

/// A scanned file, as contracts see it.
pub struct RecordView {
    pub path: Seq<char>,
    pub size: nat,
    pub tokens: Set<Seq<char>>,
}

impl View for FileRecord {
    type V = RecordView;

    open spec fn view(&self) -> RecordView {
        RecordView { path: self.path@, size: self.size as nat, tokens: self.tokens@ }
    }
}

impl DeepView for FileRecord {
    type V = RecordView;

    open spec fn deep_view(&self) -> RecordView {
        self@
    }
}

impl EntryView {
    /// Whether the entry is scanned under the filter written as `pattern`:
    /// its metadata could be read, it is a regular file, and its base name
    /// matches the pattern.
    pub open spec fn accepted(self, pattern: Seq<char>) -> bool {
        self.metadata matches Some(meta) && meta.is_file && pattern_matches(
            pattern,
            self.file_name,
        )
    }

    /// The record that scanning the entry gives at n-gram width `width`.
    pub open spec fn record(self, width: int) -> RecordView {
        RecordView {
            path: self.path,
            size: match self.metadata {
                Some(meta) => meta.len as nat,
                None => 0,
            },
            tokens: tokens_of(self.file_name, width),
        }
    }
}

/// The test that [`EntryView::accepted`] makes, as a function of the entry.
pub open spec fn accepts(pattern: Seq<char>) -> spec_fn(EntryView) -> bool {
    |entry: EntryView| entry.accepted(pattern)
}

/// The record of [`EntryView::record`], as a function of the entry.
pub open spec fn to_record(width: int) -> spec_fn(EntryView) -> RecordView {
    |entry: EntryView| entry.record(width)
}

/// The records of the accepted entries of `entries`, in the order of the
/// entries.
pub open spec fn scanned(entries: Seq<EntryView>, pattern: Seq<char>, width: int) -> Seq<
    RecordView,
> {
    entries.filter(accepts(pattern)).map_values(to_record(width))
}

/// Scanning one more entry appends its record if the entry is accepted, and
/// changes nothing otherwise.
pub proof fn lemma_scanned_push(
    entries: Seq<EntryView>,
    entry: EntryView,
    pattern: Seq<char>,
    width: int,
)
    ensures
        scanned(entries.push(entry), pattern, width) == if entry.accepted(pattern) {
            scanned(entries, pattern, width).push(entry.record(width))
        } else {
            scanned(entries, pattern, width)
        },
{
    assert(entries.push(entry).drop_last() == entries);
    reveal(Seq::filter);
}

/// Scans one entry: appends its record to `acc` if it is a regular file
/// whose base name matches `filter`, and returns `acc` as it was otherwise.
pub fn process_file(
    acc: Vec<FileRecord>,
    entry: &DirEntry,
    filter: &NameFilter,
    width: usize,
) -> (out: Vec<FileRecord>)
    requires
        valid_width(width as int),
    ensures
        out.deep_view() == if entry@.accepted(filter@) {
            acc.deep_view().push(entry@.record(width as int))
        } else {
            acc.deep_view()
        },
{
    let mut acc = acc;
    if let Some(meta) = entry.metadata {
        if meta.is_file && filter.is_match(entry.file_name.as_str()) {
            let ghost before = acc.deep_view();
            let record = FileRecord {
                path: entry.path.clone(),
                size: meta.len,
                tokens: tokenize(entry.file_name.as_str(), width),
            };
            assert(record@ == entry@.record(width as int));
            acc.push(record);
            assert(acc.deep_view() == before.push(entry@.record(width as int)));
        }
    }
    acc
}

/// Scans the entries of one directory walk, in order.
pub fn scan_dir(entries: &Vec<DirEntry>, filter: &NameFilter, width: usize) -> (out: Vec<
    FileRecord,
>)
    requires
        valid_width(width as int),
    ensures
        out.deep_view() == scanned(entries.deep_view(), filter@, width as int),
{
    let ghost all = entries.deep_view();
    let mut out: Vec<FileRecord> = Vec::new();
    let mut i: usize = 0;
    proof {
        assert(all.take(0) == Seq::<EntryView>::empty());
        assert(scanned(all.take(0), filter@, width as int) == Seq::<RecordView>::empty());
        assert(out.deep_view() == Seq::<RecordView>::empty());
    }
    while i < entries.len()
        invariant
            all == entries.deep_view(),
            valid_width(width as int),
            i <= entries.len(),
            out.deep_view() == scanned(all.take(i as int), filter@, width as int),
        decreases entries.len() - i,
    {
        proof {
            assert(all.take(i + 1) == all.take(i as int).push(entries[i as int]@));
            lemma_scanned_push(all.take(i as int), entries[i as int]@, filter@, width as int);
        }
        out = process_file(out, &entries[i], filter, width);
        i += 1;
    }
    assert(all.take(i as int) == all);
    out
}

} // verus!
