//! Records produced by an analysis, and their mathematical views.

use vstd::prelude::*;
use vstd::string::StringExecFns;
use std::time::Duration;
use vstd::std_specs::cmp::PartialEqSpecImpl;

verus! {

/// A path together with a byte count: the view of a ranked file or folder.
pub struct PathSize {
    pub path: Seq<char>,
    pub size: nat,
}

/// What kind of thing a directory entry is.
#[derive(Debug, Clone, Copy, PartialEq, Eq, Structural)]
pub enum FileType {
    File,
    Dir,
    Sym,
}

/// The lower-case form of a text that `str::to_lowercase` gives.
pub uninterp spec fn lowercase_of(text: Seq<char>) -> Seq<char>;

/// Calls `str::to_lowercase`.
#[verifier::external_body]
fn to_lowercase(text: &str) -> (lower: String)
    ensures
        lower@ == lowercase_of(text@),
{
    text.to_lowercase()
}

/// The kind that a lower-case word names.
pub open spec fn file_type_named(word: Seq<char>) -> Option<FileType> {
    if word == "file"@ {
        Some(FileType::File)
    } else if word == "dir"@ || word == "directory"@ {
        Some(FileType::Dir)
    } else if word == "sym"@ || word == "symlink"@ || word == "link"@ {
        Some(FileType::Sym)
    } else {
        None
    }
}

/// What is said of a word that names no kind.
pub open spec fn invalid_file_type_message(word: Seq<char>) -> Seq<char> {
    "Invalid file type: '"@ + word + "'. Valid values are: file, dir, sym"@
}

/// Whether a text is the given word.
fn is_word(text: &String, word: &str) -> (same: bool)
    ensures
        same == (text@ == word@),
{
    *text == String::from_str(word)
}

/// Reads the name of a kind, in any case of letters: `file`; `dir` or
/// `directory`; `sym`, `symlink` or `link`.
pub fn parse_file_type(s: &str) -> (kind: Result<FileType, String>)
    ensures
        match file_type_named(lowercase_of(s@)) {
            Some(named) => kind is Ok && kind->Ok_0 == named,
            None => kind is Err && kind->Err_0@ == invalid_file_type_message(s@),
        },
{
    let word = to_lowercase(s);
    if is_word(&word, "file") {
        Ok(FileType::File)
    } else if is_word(&word, "dir") || is_word(&word, "directory") {
        Ok(FileType::Dir)
    } else if is_word(&word, "sym") || is_word(&word, "symlink") || is_word(&word, "link") {
        Ok(FileType::Sym)
    } else {
        let mut message = String::from_str("Invalid file type: '");
        message.append(s);
        message.append("'. Valid values are: file, dir, sym");
        Err(message)
    }
}

impl std::str::FromStr for FileType {
    type Err = String;

    /// Reads the name of a kind as `parse_file_type` does.
    fn from_str(s: &str) -> (kind: Result<Self, String>)
        ensures
            match file_type_named(lowercase_of(s@)) {
                Some(named) => kind is Ok && kind->Ok_0 == named,
                None => kind is Err && kind->Err_0@ == invalid_file_type_message(s@),
            },
    {
        parse_file_type(s)
    }
}

/// The view of one entry of a walk.
pub struct EntryView {
    pub path: Seq<char>,
    pub kind: Option<FileType>,
    pub size: nat,
}

/// The view of a size bucket: the files seen with one byte length.
pub struct BucketView {
    pub size: nat,
    pub paths: Seq<Seq<char>>,
}

/// The view of a group of files with one size and one content digest.
pub struct GroupView {
    pub files: Seq<Seq<char>>,
    pub size: nat,
    pub hash: Seq<char>,
}

/// A file of a size bucket with the digest of its content, or with none where
/// the content could not be read.
pub struct HashedFile {
    pub path: Seq<char>,
    pub digest: Option<Seq<char>>,
}

/// The views of a sequence of values, element by element.
pub open spec fn views<T: View>(items: Seq<T>) -> Seq<T::V> {
    Seq::new(items.len(), |i: int| items[i]@)
}

/// The views of a sequence of strings.
pub open spec fn texts(items: Seq<String>) -> Seq<Seq<char>> {
    Seq::new(items.len(), |i: int| items[i]@)
}

/// The views of a sequence of digests, where `None` stands for a failed read.
pub open spec fn digest_texts(digests: Seq<Option<String>>) -> Seq<Option<Seq<char>>> {
    Seq::new(
        digests.len(),
        |i: int|
            match digests[i] {
                Some(digest) => Some(digest@),
                None => None,
            },
    )
}

/// A regular file and its size in bytes at the time it was seen.
#[derive(Debug)]
pub struct FileInfoDirectory {
    path: String,
    size: u64,
}

impl View for FileInfoDirectory {
    type V = PathSize;

    closed spec fn view(&self) -> PathSize {
        PathSize { path: self.path@, size: self.size as nat }
    }
}

impl FileInfoDirectory {
    pub fn new(path: String, size: u64) -> (info: Self)
        ensures
            info@ == (PathSize { path: path@, size: size as nat }),
    {
        FileInfoDirectory { path, size }
    }

    pub fn path(&self) -> (path: &String)
        ensures
            path@ == self@.path,
    {
        &self.path
    }

    pub fn size(&self) -> (size: &u64)
        ensures
            *size as nat == self@.size,
    {
        &self.size
    }
}

impl PartialEq for FileInfoDirectory {
    fn eq(&self, other: &Self) -> (equal: bool) {
        self.path == other.path && self.size == other.size
    }
}

impl PartialEqSpecImpl for FileInfoDirectory {
    open spec fn obeys_eq_spec() -> bool {
        true
    }

    open spec fn eq_spec(&self, other: &Self) -> bool {
        self@ == other@
    }
}

impl Eq for FileInfoDirectory {

}

/// A folder and the cumulative size of the counted files below it.
#[derive(Debug)]
pub struct FolderInfo {
    path: String,
    size: u64,
}

impl View for FolderInfo {
    type V = PathSize;

    closed spec fn view(&self) -> PathSize {
        PathSize { path: self.path@, size: self.size as nat }
    }
}

impl FolderInfo {
    pub fn new(path: String, size: u64) -> (info: Self)
        ensures
            info@ == (PathSize { path: path@, size: size as nat }),
    {
        FolderInfo { path, size }
    }

    pub fn path(&self) -> (path: &String)
        ensures
            path@ == self@.path,
    {
        &self.path
    }

    pub fn size(&self) -> (size: &u64)
        ensures
            *size as nat == self@.size,
    {
        &self.size
    }
}

impl FolderInfo {
    /// Adds `by` bytes to the folder's cumulative size.
    pub(crate) fn grow(&mut self, by: u64)
        requires
            old(self)@.size + by <= u64::MAX,
        ensures
            final(self)@ == (PathSize {
                path: old(self)@.path,
                size: (old(self)@.size + by) as nat,
            }),
    {
        self.size = self.size + by;
    }
}

impl PartialEq for FolderInfo {
    fn eq(&self, other: &Self) -> (equal: bool) {
        self.path == other.path && self.size == other.size
    }
}

impl PartialEqSpecImpl for FolderInfo {
    open spec fn obeys_eq_spec() -> bool {
        true
    }

    open spec fn eq_spec(&self, other: &Self) -> bool {
        self@ == other@
    }
}

impl Eq for FolderInfo {

}

/// One entry of a walk: its path, what kind of thing it is, and its size in
/// bytes. The kind is `None` for what is neither file, folder nor symlink.
#[derive(Debug)]
pub struct ScanEntry {
    path: String,
    kind: Option<FileType>,
    size: u64,
}

impl View for ScanEntry {
    type V = EntryView;

    closed spec fn view(&self) -> EntryView {
        EntryView { path: self.path@, kind: self.kind, size: self.size as nat }
    }
}

impl ScanEntry {
    pub fn new(path: String, kind: Option<FileType>, size: u64) -> (entry: Self)
        ensures
            entry@ == (EntryView { path: path@, kind, size: size as nat }),
    {
        ScanEntry { path, kind, size }
    }

    pub fn path(&self) -> (path: &String)
        ensures
            path@ == self@.path,
    {
        &self.path
    }

    pub fn kind(&self) -> (kind: Option<FileType>)
        ensures
            kind == self@.kind,
    {
        self.kind
    }

    pub fn size(&self) -> (size: u64)
        ensures
            size as nat == self@.size,
    {
        self.size
    }
}

/// The files seen with one byte length, in the order of the walk.
#[derive(Debug)]
pub struct SizeBucket {
    size: u64,
    paths: Vec<String>,
}

impl View for SizeBucket {
    type V = BucketView;

    closed spec fn view(&self) -> BucketView {
        BucketView { size: self.size as nat, paths: texts(self.paths@) }
    }
}

impl SizeBucket {
    pub fn new(size: u64, paths: Vec<String>) -> (bucket: Self)
        ensures
            bucket@ == (BucketView { size: size as nat, paths: texts(paths@) }),
    {
        SizeBucket { size, paths }
    }

    pub fn size(&self) -> (size: u64)
        ensures
            size as nat == self@.size,
    {
        self.size
    }

    pub fn paths(&self) -> (paths: &Vec<String>)
        ensures
            texts(paths@) == self@.paths,
    {
        &self.paths
    }

    /// Adds one more file of this size.
    pub(crate) fn add(&mut self, path: String)
        ensures
            final(self)@ == (BucketView {
                size: old(self)@.size,
                paths: old(self)@.paths.push(path@),
            }),
    {
        self.paths.push(path);
        assert(texts(self.paths@) =~= texts(old(self).paths@).push(path@));
    }
}

/// Files of one size whose contents have one digest.
#[derive(Debug)]
pub struct DuplicateGroup {
    files: Vec<String>,
    size: u64,
    hash: String,
}

impl View for DuplicateGroup {
    type V = GroupView;

    closed spec fn view(&self) -> GroupView {
        GroupView { files: texts(self.files@), size: self.size as nat, hash: self.hash@ }
    }
}

impl DuplicateGroup {
    pub fn new(files: Vec<String>, size: u64, hash: String) -> (group: Self)
        ensures
            group@ == (GroupView { files: texts(files@), size: size as nat, hash: hash@ }),
    {
        DuplicateGroup { files, size, hash }
    }

    pub fn files(&self) -> (files: &Vec<String>)
        ensures
            texts(files@) == self@.files,
    {
        &self.files
    }

    pub fn size(&self) -> (size: &u64)
        ensures
            *size as nat == self@.size,
    {
        &self.size
    }

    pub fn hash(&self) -> (hash: &str)
        ensures
            hash@ == self@.hash,
    {
        self.hash.as_str()
    }

    /// Whether this is the group of the digest `hash`.
    pub(crate) fn has_hash(&self, hash: &String) -> (same: bool)
        ensures
            same == (self@.hash == hash@),
    {
        self.hash == *hash
    }

    /// Adds one more file with this size and digest.
    pub(crate) fn add(&mut self, path: String)
        ensures
            final(self)@ == (GroupView {
                files: old(self)@.files.push(path@),
                size: old(self)@.size,
                hash: old(self)@.hash,
            }),
    {
        self.files.push(path);
        assert(texts(self.files@) =~= texts(old(self).files@).push(path@));
    }
}

/// The view of a summary.
pub struct SummaryView {
    pub total_size: nat,
    pub file_count: nat,
    pub folder_count: nat,
    pub symlink_count: nat,
    pub duration: Duration,
    pub largest_files: Seq<PathSize>,
    pub largest_folders: Seq<PathSize>,
    pub duplicates: Option<Seq<GroupView>>,
}

/// The views of the duplicate groups of a summary, if it has any.
pub open spec fn group_views(duplicates: Option<Vec<DuplicateGroup>>) -> Option<Seq<GroupView>> {
    match duplicates {
        Some(groups) => Some(views(groups@)),
        None => None,
    }
}

/// What one analysis found. The list of duplicates is absent, not empty,
/// where duplicate detection was not asked for.
#[derive(Debug)]
pub struct DirectorySummary {
    total_size: u64,
    file_count: u64,
    folder_count: u64,
    symlink_count: u64,
    duration: Duration,
    largest_files: Vec<FileInfoDirectory>,
    largest_folders: Vec<FolderInfo>,
    duplicates: Option<Vec<DuplicateGroup>>,
}

impl View for DirectorySummary {
    type V = SummaryView;

    closed spec fn view(&self) -> SummaryView {
        SummaryView {
            total_size: self.total_size as nat,
            file_count: self.file_count as nat,
            folder_count: self.folder_count as nat,
            symlink_count: self.symlink_count as nat,
            duration: self.duration,
            largest_files: views(self.largest_files@),
            largest_folders: views(self.largest_folders@),
            duplicates: group_views(self.duplicates),
        }
    }
}

impl DirectorySummary {
    pub fn new(
        total_size: u64,
        file_count: u64,
        folder_count: u64,
        symlink_count: u64,
        duration: Duration,
        largest_files: Vec<FileInfoDirectory>,
        largest_folders: Vec<FolderInfo>,
        duplicates: Option<Vec<DuplicateGroup>>,
    ) -> (summary: Self)
        ensures
            summary@ == (SummaryView {
                total_size: total_size as nat,
                file_count: file_count as nat,
                folder_count: folder_count as nat,
                symlink_count: symlink_count as nat,
                duration,
                largest_files: views(largest_files@),
                largest_folders: views(largest_folders@),
                duplicates: group_views(duplicates),
            }),
    {
        DirectorySummary {
            total_size,
            file_count,
            folder_count,
            symlink_count,
            duration,
            largest_files,
            largest_folders,
            duplicates,
        }
    }

    pub fn total_size(&self) -> (total: &u64)
        ensures
            *total as nat == self@.total_size,
    {
        &self.total_size
    }

    pub fn file_count(&self) -> (count: &u64)
        ensures
            *count as nat == self@.file_count,
    {
        &self.file_count
    }

    pub fn folder_count(&self) -> (count: &u64)
        ensures
            *count as nat == self@.folder_count,
    {
        &self.folder_count
    }

    pub fn symlink_count(&self) -> (count: &u64)
        ensures
            *count as nat == self@.symlink_count,
    {
        &self.symlink_count
    }

    pub fn duration(&self) -> (duration: Duration)
        ensures
            duration == self@.duration,
    {
        self.duration
    }

    pub fn largest_files(&self) -> (files: &Vec<FileInfoDirectory>)
        ensures
            views(files@) == self@.largest_files,
    {
        &self.largest_files
    }

    pub fn largest_folders(&self) -> (folders: &Vec<FolderInfo>)
        ensures
            views(folders@) == self@.largest_folders,
    {
        &self.largest_folders
    }

    /// The list of duplicate groups, to be changed in place.
    pub fn duplicates_mut(&mut self) -> (duplicates: &mut Option<Vec<DuplicateGroup>>)
        ensures
            group_views(*duplicates) == old(self)@.duplicates,
            final(self)@ == (SummaryView {
                duplicates: group_views(*final(duplicates)),
                ..old(self)@
            }),
    {
        &mut self.duplicates
    }

    pub fn duplicates(&self) -> (duplicates: &Option<Vec<DuplicateGroup>>)
        ensures
            group_views(*duplicates) == self@.duplicates,
    {
        &self.duplicates
    }

    pub fn add_to_total_size(&mut self, size: u64)
        requires
            old(self)@.total_size + size <= u64::MAX,
        ensures
            final(self)@ == (SummaryView {
                total_size: (old(self)@.total_size + size) as nat,
                ..old(self)@
            }),
    {
        self.total_size += size;
    }

    pub fn increment_file_count(&mut self)
        requires
            old(self)@.file_count < u64::MAX,
        ensures
            final(self)@ == (SummaryView { file_count: old(self)@.file_count + 1, ..old(self)@ }),
    {
        self.file_count += 1;
    }

    pub fn increment_folder_count(&mut self)
        requires
            old(self)@.folder_count < u64::MAX,
        ensures
            final(self)@ == (SummaryView {
                folder_count: old(self)@.folder_count + 1,
                ..old(self)@
            }),
    {
        self.folder_count += 1;
    }

    pub fn increment_symlink_count(&mut self)
        requires
            old(self)@.symlink_count < u64::MAX,
        ensures
            final(self)@ == (SummaryView {
                symlink_count: old(self)@.symlink_count + 1,
                ..old(self)@
            }),
    {
        self.symlink_count += 1;
    }

    pub fn set_duration(&mut self, duration: Duration)
        ensures
            final(self)@ == (SummaryView { duration, ..old(self)@ }),
    {
        self.duration = duration;
    }

    pub fn set_largest_files(&mut self, files: Vec<FileInfoDirectory>)
        ensures
            final(self)@ == (SummaryView { largest_files: views(files@), ..old(self)@ }),
    {
        self.largest_files = files;
    }

    pub fn set_largest_folders(&mut self, folders: Vec<FolderInfo>)
        ensures
            final(self)@ == (SummaryView { largest_folders: views(folders@), ..old(self)@ }),
    {
        self.largest_folders = folders;
    }
}

} // verus!
