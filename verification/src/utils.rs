//! Text helpers: finding a substring in the lines of a file, cutting an
//! excerpt around it, and shaping paths and numbers for a report.

use vstd::prelude::*;
use vstd::string::StrSliceExecFns;
use vstd::string::StringExecFns;
use crate::search::FileTime;

verus! {

/// The three dots that mark where text was cut.
pub open spec fn ellipsis() -> Seq<char> {
    seq!['.', '.', '.']
}

/// Whether `pattern` stands in `line` at position `at`.
pub open spec fn occurs_at(line: Seq<char>, pattern: Seq<char>, at: int) -> bool {
    0 <= at && at + pattern.len() <= line.len() && line.subrange(at, at + pattern.len())
        == pattern
}

/// Whether `pattern` stands somewhere in `line`.
pub open spec fn occurs_in(line: Seq<char>, pattern: Seq<char>) -> bool {
    exists|at: int| occurs_at(line, pattern, at)
}

/// The first position at which `pattern` stands in `line`; only meaningful
/// where it occurs.
pub open spec fn first_occurrence(line: Seq<char>, pattern: Seq<char>) -> int {
    choose|at: int|
        occurs_at(line, pattern, at) && forall|earlier: int|
            0 <= earlier < at ==> !occurs_at(line, pattern, earlier)
}

/// The characters of a text.
pub fn to_chars(text: &str) -> (chars: Vec<char>)
    ensures
        chars@ == text@,
{
    let mut chars: Vec<char> = Vec::new();
    for c in it: text.chars()
        invariant
            it.seq() == text@,
            chars@ =~= it.seq().take(it.index() as int),
    {
        chars.push(c);
    }
    chars
}

/// Whether `pattern` stands in `line` at `at`.
fn stands_at(line: &Vec<char>, pattern: &Vec<char>, at: usize) -> (found: bool)
    requires
        at + pattern.len() <= line.len(),
    ensures
        found == occurs_at(line@, pattern@, at as int),
{
    let mut k: usize = 0;
    while k < pattern.len()
        invariant
            k <= pattern.len(),
            at + pattern.len() <= line.len(),
            forall|j: int| 0 <= j < k ==> line[at + j] == pattern[j],
        decreases pattern.len() - k,
    {
        if line[at + k] != pattern[k] {
            assert(line@.subrange(at as int, at + pattern.len())[k as int] != pattern@[k as int]);
            return false;
        }
        k = k + 1;
    }
    assert(line@.subrange(at as int, at + pattern.len()) =~= pattern@);
    true
}

/// The first position at which `pattern` stands in `line`, if it stands
/// anywhere. The empty pattern stands at the start of every line.
pub fn find_first(line: &Vec<char>, pattern: &Vec<char>) -> (found: Option<usize>)
    ensures
        found is Some <==> occurs_in(line@, pattern@),
        found matches Some(at) ==> at == first_occurrence(line@, pattern@) && occurs_at(
            line@,
            pattern@,
            at as int,
        ),
{
    if pattern.len() > line.len() {
        assert(!occurs_in(line@, pattern@));
        return None;
    }
    let last: usize = line.len() - pattern.len();
    let mut at: usize = 0;
    loop
        invariant
            at <= last,
            last == line.len() - pattern.len(),
            forall|earlier: int| 0 <= earlier < at ==> !occurs_at(line@, pattern@, earlier),
        decreases last - at,
    {
        if stands_at(line, pattern, at) {
            proof {
                let first = first_occurrence(line@, pattern@);
                assert(occurs_at(line@, pattern@, first) && forall|earlier: int|
                    0 <= earlier < first ==> !occurs_at(line@, pattern@, earlier));
                assert(first == at);
            }
            return Some(at);
        }
        if at == last {
            assert(!occurs_in(line@, pattern@));
            return None;
        }
        at = at + 1;
    }
}

/// Where the window of an excerpt starts: the match is centred as far as the
/// ends of the line allow. The window is `width` wide, `limit` or the length
/// of the match if that is more.
pub open spec fn window_start(length: int, matched: int, at: int, limit: int) -> int {
    let width = if matched > limit { matched } else { limit };
    let ideal = at - (width - matched) / 2;
    if ideal < 0 {
        0
    } else if ideal > length - width {
        length - width
    } else {
        ideal
    }
}

/// How wide the window of an excerpt is.
pub open spec fn window_width(matched: int, limit: int) -> int {
    if matched > limit {
        matched
    } else {
        limit
    }
}

/// The excerpt of a line around a match of `matched` characters at `at`: the
/// whole line if it has no more than `limit` characters, else a window around
/// the match, with three dots on each side where the line goes on.
pub open spec fn truncated_around(line: Seq<char>, matched: int, at: int, limit: int) -> Seq<
    char,
> {
    if line.len() <= limit {
        line
    } else {
        let start = window_start(line.len() as int, matched, at, limit);
        let end = start + window_width(matched, limit);
        let head = if start > 0 { ellipsis() } else { Seq::<char>::empty() };
        let tail = if end < line.len() { ellipsis() } else { Seq::<char>::empty() };
        head + line.subrange(start, end) + tail
    }
}

/// Cuts an excerpt of at most `max_length` characters, or the length of the
/// match if that is more, out of the line `s` around the match of `sub` at
/// `index`, and marks each cut side with three dots. A line of no more than
/// `max_length` characters is returned whole.
pub fn truncate_around_substring(s: &str, sub: &str, index: usize, max_length: usize) -> (excerpt:
    String)
    requires
        index + sub@.len() <= s@.len(),
    ensures
        excerpt@ == truncated_around(s@, sub@.len() as int, index as int, max_length as int),
{
    let length: usize = s.unicode_len();
    if length <= max_length {
        return String::from_str(s);
    }
    let sub_len: usize = sub.unicode_len();
    let available: usize = if max_length >= sub_len { max_length - sub_len } else { 0 };
    let mut left: usize = available / 2;
    let mut right: usize = available - left;
    if left > index {
        let extra: usize = left - index;
        left = index;
        right = right + extra;
    }
    let right_available: usize = length - (index + sub_len);
    if right > right_available {
        let extra: usize = right - right_available;
        right = right_available;
        left = if extra > index - left { index } else { left + extra };
    }
    let start: usize = index - left;
    let end: usize = index + sub_len + right;
    assert(start == window_start(length as int, sub_len as int, index as int, max_length as int));
    assert(end == start + window_width(sub_len as int, max_length as int));
    let mut excerpt = String::new();
    proof {
        reveal_strlit("...");
        assert("..."@ =~= ellipsis());
    }
    if start > 0 {
        excerpt.append("...");
    }
    excerpt.append(s.substring_char(start, end));
    if end < length {
        excerpt.append("...");
    }
    proof {
        let head = if start > 0 { ellipsis() } else { Seq::<char>::empty() };
        let tail = if end < length { ellipsis() } else { Seq::<char>::empty() };
        assert(excerpt@ =~= head + s@.subrange(start as int, end as int) + tail);
    }
    excerpt
}

/// The longest line that is shown whole where it matches.
pub const SHORT_LINE: usize = 20;

/// The width of the window cut out of a longer line.
pub const EXCERPT_WIDTH: usize = 50;

/// What is shown of a line that holds `pattern`: the line itself if it has no
/// more than twenty characters, else an excerpt of fifty around the first
/// match.
pub open spec fn shown(line: Seq<char>, pattern: Seq<char>) -> Seq<char> {
    if line.len() <= SHORT_LINE {
        line
    } else {
        truncated_around(
            line,
            pattern.len() as int,
            first_occurrence(line, pattern),
            EXCERPT_WIDTH as int,
        )
    }
}

/// Whether the line at `index` is the first of `lines` that holds `pattern`.
pub open spec fn first_match_at(lines: Seq<Seq<char>>, pattern: Seq<char>, index: int) -> bool {
    &&& 0 <= index < lines.len()
    &&& occurs_in(lines[index], pattern)
    &&& forall|earlier: int| 0 <= earlier < index ==> !occurs_in(#[trigger] lines[earlier], pattern)
}

/// The place of the first line that holds `pattern`; only meaningful where
/// some line holds it.
pub open spec fn first_matching_line(lines: Seq<Seq<char>>, pattern: Seq<char>) -> int {
    choose|index: int| first_match_at(lines, pattern, index)
}

/// There is only one first line that holds the pattern.
pub proof fn lemma_first_match(lines: Seq<Seq<char>>, pattern: Seq<char>, index: int)
    requires
        first_match_at(lines, pattern, index),
    ensures
        first_matching_line(lines, pattern) == index,
{
    let chosen = first_matching_line(lines, pattern);
    assert(first_match_at(lines, pattern, chosen));
    if chosen < index {
        assert(!occurs_in(lines[chosen], pattern));
    } else if chosen > index {
        assert(!occurs_in(lines[index], pattern));
    }
}

/// Whether some line holds `pattern`.
pub open spec fn some_line_holds(lines: Seq<Seq<char>>, pattern: Seq<char>) -> bool {
    exists|index: int| 0 <= index < lines.len() && occurs_in(#[trigger] lines[index], pattern)
}

/// What one line gives if it holds the text looked for: what is shown of it.
pub fn match_in_line(line: &str, search_string: &str) -> (found: Option<String>)
    ensures
        found is Some <==> occurs_in(line@, search_string@),
        found matches Some(text) ==> text@ == shown(line@, search_string@),
{
    let chars = to_chars(line);
    let pattern = to_chars(search_string);
    match find_first(&chars, &pattern) {
        Some(at) => {
            if chars.len() <= SHORT_LINE {
                Some(String::from_str(line))
            } else {
                Some(truncate_around_substring(line, search_string, at, EXCERPT_WIDTH))
            }
        },
        None => None,
    }
}

/// Looks for `search_string` in the lines of a file, in order, and stops at
/// the first line that holds it: the result is the number of that line,
/// counted from one, and what is shown of it.
pub fn content_exists_in_file(lines: &Vec<String>, search_string: &str) -> (found: Option<
    (usize, String),
>)
    ensures
        found is Some <==> some_line_holds(crate::model::texts(lines@), search_string@),
        found matches Some((number, text)) ==> first_match_at(
            crate::model::texts(lines@),
            search_string@,
            number - 1,
        ) && text@ == shown(lines[number - 1]@, search_string@),
{
    let ghost all = crate::model::texts(lines@);
    let mut i: usize = 0;
    while i < lines.len()
        invariant
            i <= lines.len(),
            all == crate::model::texts(lines@),
            forall|earlier: int|
                0 <= earlier < i ==> !occurs_in(#[trigger] all[earlier], search_string@),
        decreases lines.len() - i,
    {
        match match_in_line(lines[i].as_str(), search_string) {
            Some(text) => {
                assert(occurs_in(all[i as int], search_string@));
                return Some((i + 1, text));
            },
            None => {},
        }
        i = i + 1;
    }
    None
}

/// The character of a decimal digit.
pub open spec fn digit(d: nat) -> char {
    if d == 0 {
        '0'
    } else if d == 1 {
        '1'
    } else if d == 2 {
        '2'
    } else if d == 3 {
        '3'
    } else if d == 4 {
        '4'
    } else if d == 5 {
        '5'
    } else if d == 6 {
        '6'
    } else if d == 7 {
        '7'
    } else if d == 8 {
        '8'
    } else {
        '9'
    }
}

/// The decimal digits of a number, without leading zeros.
pub open spec fn decimal(n: nat) -> Seq<char>
    decreases n,
{
    if n < 10 {
        seq![digit(n)]
    } else {
        decimal(n / 10).push(digit(n % 10))
    }
}

/// The three decimal digits of a number below a thousand, with leading zeros.
pub open spec fn triple(n: nat) -> Seq<char> {
    seq![digit(n / 100 % 10), digit(n / 10 % 10), digit(n % 10)]
}

/// The decimal digits of a number in groups of three from the right, with a
/// space between the groups.
pub open spec fn grouped(n: nat) -> Seq<char>
    decreases n,
{
    if n < 1000 {
        decimal(n)
    } else {
        grouped(n / 1000) + seq![' '] + triple(n % 1000)
    }
}

/// The text of one decimal digit.
fn digit_text(d: u64) -> (text: &'static str)
    requires
        d < 10,
    ensures
        text@ == seq![digit(d as nat)],
{
    proof {
        reveal_strlit("0");
        reveal_strlit("1");
        reveal_strlit("2");
        reveal_strlit("3");
        reveal_strlit("4");
        reveal_strlit("5");
        reveal_strlit("6");
        reveal_strlit("7");
        reveal_strlit("8");
        reveal_strlit("9");
    }
    let text = if d == 0 {
        "0"
    } else if d == 1 {
        "1"
    } else if d == 2 {
        "2"
    } else if d == 3 {
        "3"
    } else if d == 4 {
        "4"
    } else if d == 5 {
        "5"
    } else if d == 6 {
        "6"
    } else if d == 7 {
        "7"
    } else if d == 8 {
        "8"
    } else {
        "9"
    };
    assert(text@ =~= seq![digit(d as nat)]);
    text
}

/// Writes a number with a space between each group of three digits, counted
/// from the right.
pub fn format_number(num: &u64) -> (text: String)
    ensures
        text@ == grouped(*num as nat),
    decreases *num,
{
    let n: u64 = *num;
    if n < 1000 {
        let mut text = String::new();
        if n >= 100 {
            text.append(digit_text(n / 100));
        }
        if n >= 10 {
            text.append(digit_text(n / 10 % 10));
        }
        text.append(digit_text(n % 10));
        proof {
            let m = n as nat;
            if m >= 100 {
                assert(decimal(m / 10 / 10) =~= seq![digit(m / 100)]);
                assert(decimal(m / 10) =~= seq![digit(m / 100), digit(m / 10 % 10)]);
                assert(text@ =~= decimal(m));
            } else if m >= 10 {
                assert(decimal(m / 10) =~= seq![digit(m / 10)]);
                assert(text@ =~= decimal(m));
            } else {
                assert(text@ =~= decimal(m));
            }
        }
        text
    } else {
        let upper: u64 = n / 1000;
        let lower: u64 = n % 1000;
        let mut text = format_number(&upper);
        proof {
            reveal_strlit(" ");
            assert(" "@ =~= seq![' ']);
        }
        text.append(" ");
        text.append(digit_text(lower / 100 % 10));
        text.append(digit_text(lower / 10 % 10));
        text.append(digit_text(lower % 10));
        assert(text@ =~= grouped(upper as nat) + seq![' '] + triple(lower as nat));
        text
    }
}

/// `count` spaces.
pub open spec fn spaces(count: nat) -> Seq<char> {
    Seq::new(count, |i: int| ' ')
}

/// A path made exactly `width` characters wide: a shorter one is filled up
/// with spaces, a longer one gives up its middle for three dots.
pub open spec fn fitted(path: Seq<char>, width: nat) -> Seq<char> {
    if path.len() <= width {
        path + spaces((width - path.len()) as nat)
    } else {
        let half = (width - 3) / 2;
        path.take(half) + ellipsis() + path.skip(path.len() - (width - half - 3))
    }
}

/// Makes a path `max_length` characters wide for a column of a report. A
/// path that is too long cannot be cut to fewer than three characters.
pub fn truncate_path(path: &str, max_length: usize) -> (text: String)
    requires
        path@.len() > max_length ==> max_length >= 3,
    ensures
        text@ == fitted(path@, max_length as nat),
{
    let length: usize = path.unicode_len();
    if length <= max_length {
        let mut text = String::from_str(path);
        let mut added: usize = 0;
        proof {
            reveal_strlit(" ");
            assert(" "@ =~= seq![' ']);
            assert(text@ =~= path@ + spaces(0));
        }
        while added < max_length - length
            invariant
                length <= max_length,
                added <= max_length - length,
                " "@ == seq![' '],
                text@ == path@ + spaces(added as nat),
            decreases max_length - length - added,
        {
            text.append(" ");
            added = added + 1;
            assert(text@ =~= path@ + spaces(added as nat));
        }
        text
    } else {
        let half: usize = (max_length - 3) / 2;
        let keep: usize = max_length - half - 3;
        let mut text = String::from_str(path.substring_char(0, half));
        proof {
            reveal_strlit("...");
            assert("..."@ =~= ellipsis());
        }
        text.append("...");
        text.append(path.substring_char(length - keep, length));
        assert(text@ =~= fitted(path@, max_length as nat));
        text
    }
}

/// How `chrono::NaiveDate::parse_from_str` reads a text in the form
/// year-month-day: the seconds from the start of 1970 to midnight UTC of that
/// day, or the words of chrono's error where it refuses the text.
pub uninterp spec fn date_reading_of(text: Seq<char>) -> Result<i64, Seq<char>>;

/// Calls `chrono::NaiveDate::parse_from_str` with the format `%Y-%m-%d` and
/// hands back midnight UTC of the day as seconds since the start of 1970, or
/// the words of the error.
#[verifier::external_body]
fn read_day(text: &str) -> (reading: Result<i64, String>)
    ensures
        reading is Ok <==> date_reading_of(text@) is Ok,
        reading matches Ok(seconds) ==> date_reading_of(text@)->Ok_0 == seconds,
        reading matches Err(words) ==> date_reading_of(text@)->Err_0 == words@,
{
    match chrono::NaiveDate::parse_from_str(text, "%Y-%m-%d") {
        Ok(day) => Ok(day.and_time(chrono::NaiveTime::MIN).and_utc().timestamp()),
        Err(error) => Err(error.to_string()),
    }
}

/// What is said of a date that cannot be read.
pub open spec fn invalid_date_message(field: Seq<char>, words: Seq<char>) -> Seq<char> {
    "Invalid "@ + field + " date: "@ + words + ". Expected format: YYYY-MM-DD"@
}

/// Reads an optional date in the form year-month-day as the start of that day
/// in UTC. No date gives no time; a text that is no date is refused with a
/// message that names the field.
pub fn parse_date(input: Option<String>, field: &str) -> (parsed: Result<Option<FileTime>, String>)
    ensures
        input is None ==> parsed is Ok && parsed->Ok_0 is None,
        input matches Some(text) ==> match date_reading_of(text@) {
            Ok(seconds) => parsed is Ok && parsed->Ok_0 == Some(FileTime { seconds, nanos: 0 }),
            Err(words) => parsed is Err && parsed->Err_0@ == invalid_date_message(field@, words),
        },
{
    match input {
        None => Ok(None),
        Some(text) => match read_day(text.as_str()) {
            Ok(seconds) => Ok(Some(FileTime::new(seconds, 0))),
            Err(words) => {
                let mut message = String::from_str("Invalid ");
                message.append(field);
                message.append(" date: ");
                message.append(words.as_str());
                message.append(". Expected format: YYYY-MM-DD");
                assert(message@ =~= invalid_date_message(field@, words@));
                Err(message)
            },
        },
    }
}

} // verus!
