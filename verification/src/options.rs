//! What an analysis is asked to do.

use vstd::prelude::*;
use vstd::string::StrSliceExecFns;
use crate::model::texts;
use crate::pattern::{all_globs_valid, any_glob_matches, check_globs, matches_any, refusal};

verus! {

/// The view of the options of an analysis.
pub struct AnalyzeView {
    pub path: Seq<char>,
    pub max_depth: Option<usize>,
    pub top_n: usize,
    pub follow_symlinks: bool,
    pub min_size: Option<u64>,
    pub detect_duplicates: bool,
    pub ignore_patterns: Seq<Seq<char>>,
}

/// The options of an analysis: where to start, how deep to go, how many of
/// the largest to report, which files are too small to count, and which paths
/// to leave out.
#[derive(Debug)]
pub struct AnalyzeOptions {
    path: String,
    max_depth: Option<usize>,
    top_n: usize,
    follow_symlinks: bool,
    min_size: Option<u64>,
    detect_duplicates: bool,
    ignore_patterns: Vec<String>,
}

impl View for AnalyzeOptions {
    type V = AnalyzeView;

    closed spec fn view(&self) -> AnalyzeView {
        AnalyzeView {
            path: self.path@,
            max_depth: self.max_depth,
            top_n: self.top_n,
            follow_symlinks: self.follow_symlinks,
            min_size: self.min_size,
            detect_duplicates: self.detect_duplicates,
            ignore_patterns: texts(self.ignore_patterns@),
        }
    }
}

impl AnalyzeOptions {
    /// Builds the options. They are refused if an ignore pattern does not
    /// compile; the message names the first such pattern and its error.
    pub fn new(
        path: String,
        max_depth: Option<usize>,
        top_n: usize,
        follow_symlinks: bool,
        min_size: Option<u64>,
        detect_duplicates: bool,
        ignore_patterns: Vec<String>,
    ) -> (built: Result<AnalyzeOptions, String>)
        ensures
            built is Ok <==> all_globs_valid(texts(ignore_patterns@)),
            built matches Ok(options) ==> options@ == (AnalyzeView {
                path: path@,
                max_depth,
                top_n,
                follow_symlinks,
                min_size,
                detect_duplicates,
                ignore_patterns: texts(ignore_patterns@),
            }),
            built matches Err(message) ==> message@ == refusal("ignore"@, texts(ignore_patterns@)),
    {
        match check_globs(&ignore_patterns, "ignore") {
            Ok(()) => Ok(
                AnalyzeOptions {
                    path,
                    max_depth,
                    top_n,
                    follow_symlinks,
                    min_size,
                    detect_duplicates,
                    ignore_patterns,
                },
            ),
            Err(message) => Err(message),
        }
    }

    pub fn path(&self) -> (path: String)
        ensures
            path@ == self@.path,
    {
        self.path.clone()
    }

    pub fn max_depth(&self) -> (depth: Option<usize>)
        ensures
            depth == self@.max_depth,
    {
        self.max_depth
    }

    pub fn top_n(&self) -> (count: usize)
        ensures
            count == self@.top_n,
    {
        self.top_n
    }

    pub fn follow_symlinks(&self) -> (follow: bool)
        ensures
            follow == self@.follow_symlinks,
    {
        self.follow_symlinks
    }

    pub fn min_size(&self) -> (size: Option<u64>)
        ensures
            size == self@.min_size,
    {
        self.min_size
    }

    pub fn detect_duplicates(&self) -> (detect: bool)
        ensures
            detect == self@.detect_duplicates,
    {
        self.detect_duplicates
    }

    /// Whether the walk leaves this path, and all below it, out: one of the
    /// ignore patterns matches it.
    pub fn should_ignore(&self, path: &str) -> (ignore: bool)
        ensures
            ignore == any_glob_matches(self@.ignore_patterns, path@),
    {
        matches_any(&self.ignore_patterns, path)
    }
}

/// What `str::trim` leaves of a text: the text without the white space at
/// its two ends.
pub uninterp spec fn trimmed_of(text: Seq<char>) -> Seq<char>;

/// What `u64::from_str` reads in a text: the number, or nothing where the
/// text is not a decimal number within the range of `u64`.
pub uninterp spec fn u64_reading_of(text: Seq<char>) -> Option<u64>;

/// Calls `str::trim`: the text without leading and trailing white space.
#[verifier::external_body]
fn trim(text: &str) -> (trimmed: String)
    ensures
        trimmed@ == trimmed_of(text@),
{
    text.trim().to_string()
}

/// Calls `u64::from_str`: the number that the text is, if it is one.
#[verifier::external_body]
fn read_u64(text: &str) -> (reading: Option<u64>)
    ensures
        reading == u64_reading_of(text@),
{
    match std::str::FromStr::from_str(text) {
        Ok(number) => Some(number),
        Err(_) => None,
    }
}

/// How many bytes one unit of a size is, if the text ends in the name of a
/// unit: KB, MB, GB or TB, each 1024 of the one before.
pub open spec fn unit_of(text: Seq<char>) -> Option<u64> {
    if text.len() >= 2 && text[text.len() - 1] == 'B' {
        let letter = text[text.len() - 2];
        if letter == 'K' {
            Some(1024u64)
        } else if letter == 'M' {
            Some(1_048_576u64)
        } else if letter == 'G' {
            Some(1_073_741_824u64)
        } else if letter == 'T' {
            Some(1_099_511_627_776u64)
        } else {
            None
        }
    } else {
        None
    }
}

/// The view of a size as it was written.
pub enum SizeTextView {
    Bytes(u64),
    Scaled { number: Seq<char>, unit: u64 },
    Malformed,
}

/// A size as it was written: a plain number of bytes, a number of units, or
/// neither.
#[derive(Debug)]
pub enum SizeText {
    /// A whole number of bytes.
    Bytes(u64),
    /// A number, possibly with a fraction, of units of `unit` bytes; the
    /// number is still text.
    Scaled { number: String, unit: u64 },
    /// Neither a number nor a number with a unit.
    Malformed,
}

impl View for SizeText {
    type V = SizeTextView;

    open spec fn view(&self) -> SizeTextView {
        match self {
            SizeText::Bytes(bytes) => SizeTextView::Bytes(*bytes),
            SizeText::Scaled { number, unit } => SizeTextView::Scaled {
                number: number@,
                unit: *unit,
            },
            SizeText::Malformed => SizeTextView::Malformed,
        }
    }
}

/// How a written size is read: white space at the ends does not count; a
/// decimal number is a number of bytes; else the last two letters name the
/// unit and what stands before them, again without white space at the ends,
/// is the number of units.
pub open spec fn size_text_of(input: Seq<char>) -> SizeTextView {
    let text = trimmed_of(input);
    match u64_reading_of(text) {
        Some(bytes) => SizeTextView::Bytes(bytes),
        None => match unit_of(text) {
            Some(unit) => SizeTextView::Scaled {
                number: trimmed_of(text.take(text.len() - 2)),
                unit,
            },
            None => SizeTextView::Malformed,
        },
    }
}

/// Reads a written size such as `4096` or `1.5MB` as far as whole numbers go:
/// the number of a scaled size is handed back as text.
pub fn read_size(input: &str) -> (size: SizeText)
    ensures
        size@ == size_text_of(input@),
{
    let text = trim(input);
    match read_u64(text.as_str()) {
        Some(bytes) => SizeText::Bytes(bytes),
        None => {
            let chars = crate::utils::to_chars(text.as_str());
            let length = chars.len();
            if length >= 2 && chars[length - 1] == 'B' {
                let letter = chars[length - 2];
                let unit: u64 = if letter == 'K' {
                    1024
                } else if letter == 'M' {
                    1_048_576
                } else if letter == 'G' {
                    1_073_741_824
                } else if letter == 'T' {
                    1_099_511_627_776
                } else {
                    0
                };
                if unit == 0 {
                    SizeText::Malformed
                } else {
                    let number = trim(text.as_str().substring_char(0, length - 2));
                    assert(text@.subrange(0, length - 2) =~= text@.take(length - 2));
                    SizeText::Scaled { number, unit }
                }
            } else {
                SizeText::Malformed
            }
        },
    }
}

} // verus!
