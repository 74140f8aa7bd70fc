//! The search for files by name, content, modification time and size.

use vstd::prelude::*;
use std::time::Duration;
use crate::model::{texts, views};
use crate::pattern::{all_globs_valid, any_glob_matches, check_globs, matches_any, refusal};
use crate::utils::{
    content_exists_in_file, first_match_at, first_matching_line, lemma_first_match, shown,
    some_line_holds,
};

verus! {

/// A point in time: whole seconds since the start of 1970 in UTC, and the
/// nanoseconds beyond them.
#[derive(Debug, Clone, Copy, PartialEq, Eq, Structural)]
pub struct FileTime {
    pub seconds: i64,
    pub nanos: u32,
}

impl FileTime {
    /// The point in time as nanoseconds since the start of 1970.
    pub open spec fn instant(self) -> int {
        self.seconds * 1_000_000_000 + self.nanos
    }

    /// The point in time `nanos` nanoseconds after `seconds` seconds.
    pub fn new(seconds: i64, nanos: u32) -> (time: Self)
        ensures
            time.seconds == seconds,
            time.nanos == nanos,
    {
        FileTime { seconds, nanos }
    }

    /// The point in time that lies `seconds` seconds and `nanos` nanoseconds
    /// after the start of 1970, or as much before it. There is none where
    /// the seconds leave the range of the type or the nanoseconds reach a
    /// full second.
    pub fn from_offset(after: bool, seconds: u64, nanos: u32) -> (time: Option<FileTime>)
        ensures
            time is Some <==> seconds <= i64::MAX && nanos < 1_000_000_000,
            time matches Some(found) ==> found.nanos < 1_000_000_000,
            time matches Some(found) ==> found.instant() == if after {
                seconds * 1_000_000_000 + nanos
            } else {
                -(seconds * 1_000_000_000 + nanos)
            },
    {
        if seconds > (i64::MAX as u64) || nanos >= 1_000_000_000 {
            None
        } else if after {
            Some(FileTime { seconds: seconds as i64, nanos })
        } else if nanos == 0 {
            Some(FileTime { seconds: -(seconds as i64), nanos: 0 })
        } else {
            Some(FileTime { seconds: -(seconds as i64) - 1, nanos: 1_000_000_000 - nanos })
        }
    }

    /// How far the point in time lies from the start of 1970: whether at or
    /// after it, and the seconds and nanoseconds between the two.
    pub fn to_offset(&self) -> (offset: (bool, u64, u32))
        requires
            self.nanos < 1_000_000_000,
        ensures
            offset.2 < 1_000_000_000,
            offset.0 == (self.instant() >= 0),
            self.instant() == if offset.0 {
                offset.1 * 1_000_000_000 + offset.2
            } else {
                -(offset.1 * 1_000_000_000 + offset.2)
            },
    {
        if self.seconds >= 0 {
            (true, self.seconds as u64, self.nanos)
        } else if self.nanos == 0 {
            (false, (-(self.seconds + 1)) as u64 + 1, 0)
        } else {
            (false, (-(self.seconds + 1)) as u64, 1_000_000_000 - self.nanos)
        }
    }

    /// Whether this point in time lies before `other`.
    pub fn is_before(&self, other: &FileTime) -> (before: bool)
        ensures
            before == (self.instant() < other.instant()),
    {
        let mine: i128 = (self.seconds as i128) * 1_000_000_000 + (self.nanos as i128);
        let theirs: i128 = (other.seconds as i128) * 1_000_000_000 + (other.nanos as i128);
        mine < theirs
    }
}

/// The view of a line of a file that matched: its number, counted from one,
/// and what is shown of it.
pub struct LineView {
    pub number: nat,
    pub text: Seq<char>,
}

/// The view of a content match, if there is one.
pub open spec fn line_view(content: Option<(usize, String)>) -> Option<LineView> {
    match content {
        Some((number, text)) => Some(LineView { number: number as nat, text: text@ }),
        None => None,
    }
}

/// The view of the options of a search.
pub struct SearchView {
    pub path: Seq<char>,
    pub name_pattern: Seq<Seq<char>>,
    pub content_pattern: Option<Seq<char>>,
    pub modified_after: Option<FileTime>,
    pub modified_before: Option<FileTime>,
    pub min_size: Option<u64>,
    pub max_size: Option<u64>,
}

/// The view of an optional text.
pub open spec fn text_view(text: Option<String>) -> Option<Seq<char>> {
    match text {
        Some(text) => Some(text@),
        None => None,
    }
}

/// The filter of a search: name patterns of which one has to match, a text
/// the file has to hold, and bounds on modification time and size, all of
/// them exclusive. What is absent does not restrict.
#[derive(Debug)]
pub struct SearchOptions {
    path: String,
    name_pattern: Vec<String>,
    content_pattern: Option<String>,
    modified_after: Option<FileTime>,
    modified_before: Option<FileTime>,
    min_size: Option<u64>,
    max_size: Option<u64>,
}

impl View for SearchOptions {
    type V = SearchView;

    closed spec fn view(&self) -> SearchView {
        SearchView {
            path: self.path@,
            name_pattern: texts(self.name_pattern@),
            content_pattern: text_view(self.content_pattern),
            modified_after: self.modified_after,
            modified_before: self.modified_before,
            min_size: self.min_size,
            max_size: self.max_size,
        }
    }
}

/// Whether the name filter lets the path through: there are no patterns, or
/// one of them matches.
pub open spec fn name_passes(options: SearchView, path: Seq<char>) -> bool {
    options.name_pattern.len() == 0 || any_glob_matches(options.name_pattern, path)
}

/// Whether the content filter lets a file with these lines through: no text
/// is looked for, or one of the lines holds it.
pub open spec fn content_passes(options: SearchView, lines: Seq<Seq<char>>) -> bool {
    match options.content_pattern {
        Some(pattern) => some_line_holds(lines, pattern),
        None => true,
    }
}

/// Whether the time filter lets a file modified at `time` through: strictly
/// after the lower bound and strictly before the upper one.
pub open spec fn date_passes(options: SearchView, time: FileTime) -> bool {
    &&& options.modified_after matches Some(after) ==> after.instant() < time.instant()
    &&& options.modified_before matches Some(before) ==> time.instant() < before.instant()
}

/// Whether the size filter lets a file of `size` bytes through: strictly
/// more than the lower bound and strictly less than the upper one.
pub open spec fn size_passes(options: SearchView, size: u64) -> bool {
    &&& options.min_size matches Some(min) ==> min < size
    &&& options.max_size matches Some(max) ==> size < max
}

impl SearchOptions {
    /// Builds the filter. It is refused if a name pattern does not compile;
    /// the message names the first such pattern and its error.
    pub fn new(
        path: String,
        name_pattern: Vec<String>,
        content_pattern: Option<String>,
        modified_after: Option<FileTime>,
        modified_before: Option<FileTime>,
        min_size: Option<u64>,
        max_size: Option<u64>,
    ) -> (built: Result<Self, String>)
        ensures
            built is Ok <==> all_globs_valid(texts(name_pattern@)),
            built matches Ok(options) ==> options@ == (SearchView {
                path: path@,
                name_pattern: texts(name_pattern@),
                content_pattern: text_view(content_pattern),
                modified_after,
                modified_before,
                min_size,
                max_size,
            }),
            built matches Err(message) ==> message@ == refusal("name"@, texts(name_pattern@)),
    {
        match check_globs(&name_pattern, "name") {
            Ok(()) => Ok(
                SearchOptions {
                    path,
                    name_pattern,
                    content_pattern,
                    modified_after,
                    modified_before,
                    min_size,
                    max_size,
                },
            ),
            Err(message) => Err(message),
        }
    }

    pub fn path(&self) -> (path: &String)
        ensures
            path@ == self@.path,
    {
        &self.path
    }

    pub fn content_pattern(&self) -> (pattern: &Option<String>)
        ensures
            text_view(*pattern) == self@.content_pattern,
    {
        &self.content_pattern
    }

    pub fn name_pattern(&self) -> (patterns: &Vec<String>)
        ensures
            texts(patterns@) == self@.name_pattern,
    {
        &self.name_pattern
    }

    pub fn modified_after(&self) -> (time: &Option<FileTime>)
        ensures
            *time == self@.modified_after,
    {
        &self.modified_after
    }

    pub fn modified_before(&self) -> (time: &Option<FileTime>)
        ensures
            *time == self@.modified_before,
    {
        &self.modified_before
    }

    pub fn min_size(&self) -> (size: &Option<u64>)
        ensures
            *size == self@.min_size,
    {
        &self.min_size
    }

    pub fn max_size(&self) -> (size: &Option<u64>)
        ensures
            *size == self@.max_size,
    {
        &self.max_size
    }

    /// The name filter: with no patterns every path passes, else one of the
    /// patterns has to match the path.
    pub fn match_name_pattern(&self, path: &str) -> (passes: bool)
        ensures
            passes == name_passes(self@, path@),
    {
        if self.name_pattern.len() == 0 {
            assert(texts(self.name_pattern@).len() == 0);
            return true;
        }
        assert(texts(self.name_pattern@).len() != 0);
        matches_any(&self.name_pattern, path)
    }

    /// The content filter, on the lines of a file that could be read, up to
    /// the first that could not: with no text looked for the file passes with
    /// no line to show, else the first line that holds the text decides.
    pub fn match_content_pattern(&self, lines: &Vec<String>) -> (found: (
        bool,
        Option<(usize, String)>,
    ))
        ensures
            found.0 == content_passes(self@, texts(lines@)),
            found.1 is Some <==> self@.content_pattern is Some && found.0,
            found.1 matches Some((number, text)) ==> first_match_at(
                texts(lines@),
                self@.content_pattern.unwrap(),
                number - 1,
            ) && text@ == shown(lines[number - 1]@, self@.content_pattern.unwrap()),
            found.0 ==> line_view(found.1) == reported_line(self@, texts(lines@)),
    {
        match &self.content_pattern {
            Some(pattern) => {
                match content_exists_in_file(lines, pattern.as_str()) {
                    Some(line) => {
                        proof {
                            lemma_first_match(texts(lines@), pattern@, line.0 - 1);
                            assert(texts(lines@)[line.0 - 1] == lines[line.0 - 1]@);
                        }
                        (true, Some(line))
                    },
                    None => (false, None),
                }
            },
            None => (true, None),
        }
    }

    /// The time filter: strictly after the lower bound, strictly before the
    /// upper one.
    pub fn match_modified_date(&self, modified_time: &FileTime) -> (passes: bool)
        ensures
            passes == date_passes(self@, *modified_time),
    {
        match &self.modified_after {
            Some(time) => {
                if !time.is_before(modified_time) {
                    return false;
                }
            },
            None => {},
        }
        match &self.modified_before {
            Some(time) => {
                if !modified_time.is_before(time) {
                    return false;
                }
            },
            None => {},
        }
        true
    }

    /// The size filter: strictly more than the lower bound, strictly less
    /// than the upper one.
    pub fn match_size(&self, size: &u64) -> (passes: bool)
        ensures
            passes == size_passes(self@, *size),
    {
        match &self.min_size {
            Some(min_size) => {
                if !(*min_size < *size) {
                    return false;
                }
            },
            None => {},
        }
        match &self.max_size {
            Some(max_size) => {
                if !(*size < *max_size) {
                    return false;
                }
            },
            None => {},
        }
        true
    }
}

/// The view of a regular file that a search visits.
pub struct VisitedView {
    pub path: Seq<char>,
    pub size: u64,
    pub modified: FileTime,
    pub lines: Seq<Seq<char>>,
}

/// A regular file that a search visits: its path, size and modification
/// time, and the lines of its content as far as they were read. No lines
/// stand for a file that was not or could not be read.
#[derive(Debug)]
pub struct VisitedFile {
    path: String,
    size: u64,
    modified: FileTime,
    lines: Vec<String>,
}

impl View for VisitedFile {
    type V = VisitedView;

    closed spec fn view(&self) -> VisitedView {
        VisitedView {
            path: self.path@,
            size: self.size,
            modified: self.modified,
            lines: texts(self.lines@),
        }
    }
}

impl VisitedFile {
    pub fn new(path: String, size: u64, modified: FileTime, lines: Vec<String>) -> (file: Self)
        ensures
            file@ == (VisitedView { path: path@, size, modified, lines: texts(lines@) }),
    {
        VisitedFile { path, size, modified, lines }
    }
}

/// The view of a file that a search found.
pub struct MatchView {
    pub path: Seq<char>,
    pub size: u64,
    pub content: Option<LineView>,
    pub modified: FileTime,
}

/// A file that a search found, with the line that matched where a text was
/// looked for.
#[derive(Debug)]
pub struct FileInfoSearch {
    path: String,
    size: u64,
    content: Option<(usize, String)>,
    modified_date: FileTime,
}

impl View for FileInfoSearch {
    type V = MatchView;

    closed spec fn view(&self) -> MatchView {
        MatchView {
            path: self.path@,
            size: self.size,
            content: line_view(self.content),
            modified: self.modified_date,
        }
    }
}

impl FileInfoSearch {
    pub fn new(
        path: String,
        size: u64,
        content: Option<(usize, String)>,
        modified_date: FileTime,
    ) -> (info: Self)
        ensures
            info@ == (MatchView {
                path: path@,
                size,
                content: line_view(content),
                modified: modified_date,
            }),
    {
        FileInfoSearch { path, size, content, modified_date }
    }

    pub fn path(&self) -> (path: &String)
        ensures
            path@ == self@.path,
    {
        &self.path
    }

    pub fn size(&self) -> (size: &u64)
        ensures
            *size == self@.size,
    {
        &self.size
    }

    pub fn modified_date(&self) -> (time: &FileTime)
        ensures
            *time == self@.modified,
    {
        &self.modified_date
    }

    pub fn content(&self) -> (content: &Option<(usize, String)>)
        ensures
            line_view(*content) == self@.content,
    {
        &self.content
    }
}

/// The view of the result of a search.
pub struct ResultView {
    pub total_size: nat,
    pub file_searched: nat,
    pub search_time: Duration,
    pub files_result: Seq<MatchView>,
}

/// What a search found: the files, the sum of their sizes, and how many
/// regular files were looked at.
#[derive(Debug)]
pub struct SearchResult {
    total_size: u64,
    file_searched: u64,
    search_time: Duration,
    files_result: Vec<FileInfoSearch>,
}

impl View for SearchResult {
    type V = ResultView;

    closed spec fn view(&self) -> ResultView {
        ResultView {
            total_size: self.total_size as nat,
            file_searched: self.file_searched as nat,
            search_time: self.search_time,
            files_result: views(self.files_result@),
        }
    }
}

impl SearchResult {
    pub fn new(
        total_size: u64,
        file_searched: u64,
        search_time: Duration,
        files_result: Vec<FileInfoSearch>,
    ) -> (result: Self)
        ensures
            result@ == (ResultView {
                total_size: total_size as nat,
                file_searched: file_searched as nat,
                search_time,
                files_result: views(files_result@),
            }),
    {
        SearchResult { total_size, file_searched, search_time, files_result }
    }

    pub fn files_result(&self) -> (files: &Vec<FileInfoSearch>)
        ensures
            views(files@) == self@.files_result,
    {
        &self.files_result
    }

    pub fn total_size(&self) -> (total: &u64)
        ensures
            *total as nat == self@.total_size,
    {
        &self.total_size
    }

    pub fn search_time(&self) -> (time: &Duration)
        ensures
            *time == self@.search_time,
    {
        &self.search_time
    }

    pub fn file_searched(&self) -> (count: &u64)
        ensures
            *count as nat == self@.file_searched,
    {
        &self.file_searched
    }

    pub fn add_to_total_size(&mut self, size: u64)
        requires
            old(self)@.total_size + size <= u64::MAX,
        ensures
            final(self)@ == (ResultView {
                total_size: (old(self)@.total_size + size) as nat,
                ..old(self)@
            }),
    {
        self.total_size += size;
    }

    pub fn increment_file_searched(&mut self)
        requires
            old(self)@.file_searched < u64::MAX,
        ensures
            final(self)@ == (ResultView {
                file_searched: old(self)@.file_searched + 1,
                ..old(self)@
            }),
    {
        self.file_searched += 1;
    }

    pub fn set_files_result(&mut self, files_result: Vec<FileInfoSearch>)
        ensures
            final(self)@ == (ResultView { files_result: views(files_result@), ..old(self)@ }),
    {
        self.files_result = files_result;
    }

    pub fn set_duration(&mut self, duration: Duration)
        ensures
            final(self)@ == (ResultView { search_time: duration, ..old(self)@ }),
    {
        self.search_time = duration;
    }
}

/// Whether a file passes every filter of the search.
pub open spec fn accepts(options: SearchView, file: VisitedView) -> bool {
    &&& name_passes(options, file.path)
    &&& content_passes(options, file.lines)
    &&& date_passes(options, file.modified)
    &&& size_passes(options, file.size)
}

/// The line that is reported for a file that passes: the first that holds
/// the text looked for, and none where no text is looked for.
pub open spec fn reported_line(options: SearchView, lines: Seq<Seq<char>>) -> Option<LineView> {
    match options.content_pattern {
        Some(pattern) => {
            let index = first_matching_line(lines, pattern);
            Some(LineView { number: (index + 1) as nat, text: shown(lines[index], pattern) })
        },
        None => None,
    }
}

/// What is reported of a file that passes.
pub open spec fn match_of(options: SearchView, file: VisitedView) -> MatchView {
    MatchView {
        path: file.path,
        size: file.size,
        content: reported_line(options, file.lines),
        modified: file.modified,
    }
}

/// The files that pass, in the order of the walk.
pub open spec fn found_files(options: SearchView, files: Seq<VisitedView>) -> Seq<MatchView>
    decreases files.len(),
{
    if files.len() == 0 {
        Seq::empty()
    } else if accepts(options, files.last()) {
        found_files(options, files.drop_last()).push(match_of(options, files.last()))
    } else {
        found_files(options, files.drop_last())
    }
}

/// The sum of the sizes of the files that pass.
pub open spec fn found_total(options: SearchView, files: Seq<VisitedView>) -> nat
    decreases files.len(),
{
    if files.len() == 0 {
        0
    } else if accepts(options, files.last()) {
        found_total(options, files.drop_last()) + files.last().size as nat
    } else {
        found_total(options, files.drop_last())
    }
}

/// The result of a search over the regular files of a walk.
pub open spec fn search_of(
    options: SearchView,
    files: Seq<VisitedView>,
    duration: Duration,
) -> ResultView {
    ResultView {
        total_size: found_total(options, files),
        file_searched: files.len(),
        search_time: duration,
        files_result: found_files(options, files),
    }
}

/// The total of a prefix of the walk is no more than the total of the walk.
pub proof fn lemma_found_total_prefix(options: SearchView, files: Seq<VisitedView>, upto: int)
    requires
        0 <= upto <= files.len(),
    ensures
        found_total(options, files.take(upto)) <= found_total(options, files),
    decreases files.len() - upto,
{
    if upto < files.len() {
        lemma_found_total_prefix(options, files, upto + 1);
        assert(files.take(upto + 1).drop_last() =~= files.take(upto));
    } else {
        assert(files.take(upto) =~= files);
    }
}

impl SearchOptions {
    /// Whether the content of the file at `path` has to be read to decide on
    /// it: a text is looked for, and the name filter lets the path through.
    pub fn needs_content(&self, path: &str) -> (needed: bool)
        ensures
            needed == (self@.content_pattern is Some && name_passes(self@, path@)),
    {
        self.content_pattern.is_some() && self.match_name_pattern(path)
    }

    /// Puts a file through the filters, the cheap name filter first and the
    /// content filter before the others, and stops at the first that fails.
    pub fn evaluate(&self, file: &VisitedFile) -> (found: Option<FileInfoSearch>)
        ensures
            found is Some <==> accepts(self@, file@),
            found matches Some(info) ==> info@ == match_of(self@, file@),
    {
        if !self.match_name_pattern(file.path.as_str()) {
            return None;
        }
        let (matched, content) = self.match_content_pattern(&file.lines);
        if !matched {
            return None;
        }
        if !self.match_modified_date(&file.modified) {
            return None;
        }
        if !self.match_size(&file.size) {
            return None;
        }
        Some(FileInfoSearch::new(file.path.clone(), file.size, content, file.modified))
    }
}

/// A search while the walk goes on: the files found so far and the running
/// counts. It does not hold the files it has looked at.
pub struct SearchRun {
    result: SearchResult,
    found: Vec<FileInfoSearch>,
    filter: Ghost<SearchView>,
    seen: Ghost<Seq<VisitedView>>,
}

impl SearchRun {
    /// The regular files looked at so far, in order.
    pub closed spec fn visited(&self) -> Seq<VisitedView> {
        self.seen@
    }

    /// The filter the search was started with.
    pub closed spec fn filter(&self) -> SearchView {
        self.filter@
    }

    /// The running counts.
    pub closed spec fn counts(&self) -> ResultView {
        self.result@
    }

    /// Every part of the state is what the files looked at so far make it.
    pub closed spec fn wf(&self) -> bool {
        &&& self.result@.total_size == found_total(self.filter@, self.seen@)
        &&& self.result@.file_searched == self.seen@.len()
        &&& self.result@.files_result == Seq::<MatchView>::empty()
        &&& views(self.found@) == found_files(self.filter@, self.seen@)
    }

    /// The counts of a well-formed state are those of the files looked at.
    pub proof fn lemma_counts(&self)
        requires
            self.wf(),
        ensures
            self.counts().total_size == found_total(self.filter(), self.visited()),
            self.counts().file_searched == self.visited().len(),
    {
    }

    /// Whether `file` can be looked at without a count leaving the range of `u64`.
    pub open spec fn has_room_for(&self, file: VisitedView) -> bool {
        &&& self.counts().file_searched < u64::MAX
        &&& accepts(self.filter(), file) ==> self.counts().total_size + file.size <= u64::MAX
    }

    /// The state before the first file.
    pub fn new(options: &SearchOptions) -> (run: Self)
        ensures
            run.wf(),
            run.filter() == options@,
            run.visited() == Seq::<VisitedView>::empty(),
    {
        let run = SearchRun {
            result: SearchResult::new(0, 0, Duration::default(), Vec::new()),
            found: Vec::new(),
            filter: Ghost(options@),
            seen: Ghost(Seq::empty()),
        };
        proof {
            assert(run.result@.files_result =~= Seq::<MatchView>::empty());
            assert(views(run.found@) =~= found_files(options@, Seq::empty()));
        }
        run
    }

    /// Counts one more file as searched and, if it was found, takes it in.
    fn record(&mut self, found: Option<FileInfoSearch>, Ghost(file): Ghost<VisitedView>)
        requires
            old(self).wf(),
            old(self).has_room_for(file),
            found is Some <==> accepts(old(self).filter(), file),
            found matches Some(info) ==> info@ == match_of(old(self).filter(), file),
        ensures
            final(self).wf(),
            final(self).filter() == old(self).filter(),
            final(self).visited() == old(self).visited().push(file),
    {
        let ghost front = self.seen@;
        let ghost all = front.push(file);
        proof {
            assert(all.drop_last() =~= front);
            assert(all.last() == file);
        }
        self.result.increment_file_searched();
        match found {
            Some(info) => {
                let ghost before = views(self.found@);
                let size = *info.size();
                self.found.push(info);
                self.result.add_to_total_size(size);
                assert(views(self.found@) =~= before.push(match_of(self.filter@, file)));
            },
            None => {},
        }
        self.seen = Ghost(all);
    }

    /// Looks at the next regular file of the walk: it is counted as searched,
    /// and if it passes every filter it joins the files found and adds its
    /// size to their total.
    pub fn visit(&mut self, options: &SearchOptions, file: &VisitedFile)
        requires
            old(self).wf(),
            options@ == old(self).filter(),
            old(self).has_room_for(file@),
        ensures
            final(self).wf(),
            final(self).filter() == old(self).filter(),
            final(self).visited() == old(self).visited().push(file@),
    {
        let found = options.evaluate(file);
        self.record(found, Ghost(file@));
    }

    /// Looks at the next file if no count would leave the range of `u64`, and
    /// says whether it did; if not, the state is unchanged.
    pub fn try_visit(&mut self, options: &SearchOptions, file: &VisitedFile) -> (taken: bool)
        requires
            old(self).wf(),
            options@ == old(self).filter(),
        ensures
            final(self).wf(),
            final(self).filter() == old(self).filter(),
            taken == old(self).has_room_for(file@),
            taken ==> final(self).visited() == old(self).visited().push(file@),
            !taken ==> final(self).visited() == old(self).visited(),
    {
        if *self.result.file_searched() == u64::MAX {
            return false;
        }
        let found = options.evaluate(file);
        if found.is_some() && file.size > u64::MAX - *self.result.total_size() {
            return false;
        }
        self.record(found, Ghost(file@));
        true
    }

    /// Ends the search and stamps the duration.
    pub fn finish(self, duration: Duration) -> (result: SearchResult)
        requires
            self.wf(),
        ensures
            result@ == search_of(self.filter(), self.visited(), duration),
    {
        let SearchRun { result, found, filter, seen } = self;
        let mut result = result;
        result.set_files_result(found);
        result.set_duration(duration);
        result
    }
}

/// Searches the regular files of a walk: every one is counted as searched,
/// and those that pass the name, content, time and size filters are
/// reported, in the order of the walk, with the sum of their sizes.
pub fn file_finder(option: &SearchOptions, files: &Vec<VisitedFile>, duration: Duration) -> (result:
    SearchResult)
    requires
        files.len() < u64::MAX,
        found_total(option@, views(files@)) <= u64::MAX,
    ensures
        result@ == search_of(option@, views(files@), duration),
{
    let mut run = SearchRun::new(option);
    let ghost all = views(files@);
    let mut i: usize = 0;
    proof {
        assert(all.take(0) =~= Seq::<VisitedView>::empty());
    }
    while i < files.len()
        invariant
            i <= files.len(),
            files.len() < u64::MAX,
            all == views(files@),
            found_total(option@, all) <= u64::MAX,
            run.wf(),
            run.filter() == option@,
            run.visited() == all.take(i as int),
        decreases files.len() - i,
    {
        proof {
            run.lemma_counts();
            lemma_found_total_prefix(option@, all, i + 1);
            assert(all.take(i + 1).drop_last() =~= all.take(i as int));
            assert(all.take(i + 1).last() == files[i as int]@);
            assert(all.take(i + 1) =~= all.take(i as int).push(files[i as int]@));
        }
        run.visit(option, &files[i]);
        i = i + 1;
    }
    proof {
        assert(all.take(i as int) =~= all);
    }
    run.finish(duration)
}

} // verus!
