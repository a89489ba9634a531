//! Article metadata: the slug from the file name, and the title and date
//! read from the markdown text.

use vstd::prelude::*;
use crate::text::{trim_ws, trimmed_range, string_of_range, chars_of, last_index};
use chrono::Datelike;

verus! {

/// What the index and the feed know of one article.
pub struct ArticleMeta {
    pub title: String,
    pub date: String,
    pub slug: String,
}

/// Index of the first `'\n'` at or after `i`, or the length of `s`.
pub open spec fn line_end(s: Seq<char>, i: int) -> int
    decreases s.len() - i,
{
    if i >= s.len() {
        s.len() as int
    } else if s[i] == '\n' {
        i
    } else {
        line_end(s, i + 1)
    }
}

pub proof fn lemma_line_end_bounds(s: Seq<char>, i: int)
    requires
        0 <= i <= s.len(),
    ensures
        i <= line_end(s, i) <= s.len(),
        line_end(s, i) < s.len() ==> s[line_end(s, i)] == '\n',
    decreases s.len() - i,
{
    if i < s.len() && s[i] != '\n' {
        lemma_line_end_bounds(s, i + 1);
    }
}

/// The line that starts at `i`, without its `'\n'`.
pub open spec fn line_at(s: Seq<char>, i: int) -> Seq<char> {
    s.subrange(i, line_end(s, i))
}

/// `s` without its leading `'#'` characters.
pub open spec fn trim_start_hashes(s: Seq<char>) -> Seq<char>
    decreases s.len(),
{
    if s.len() > 0 && s[0] == '#' {
        trim_start_hashes(s.drop_first())
    } else {
        s
    }
}

pub open spec fn is_heading(line: Seq<char>) -> bool {
    line.len() > 0 && line[0] == '#'
}

/// The title a heading line gives: heading markers and surrounding white space removed.
pub open spec fn heading_text(line: Seq<char>) -> Seq<char> {
    trim_ws(trim_start_hashes(line))
}

/// The line begins with `date:`, in any mix of ASCII case.
pub open spec fn has_date_label(line: Seq<char>) -> bool {
    &&& line.len() >= 5
    &&& (line[0] == 'd' || line[0] == 'D')
    &&& (line[1] == 'a' || line[1] == 'A')
    &&& (line[2] == 't' || line[2] == 'T')
    &&& (line[3] == 'e' || line[3] == 'E')
    &&& line[4] == ':'
}

/// The date a labelled line gives: what follows the first colon, trimmed.
pub open spec fn date_text(line: Seq<char>) -> Seq<char> {
    trim_ws(line.subrange(5, line.len() as int))
}

/// The title of the text from line start `i` on: the text of the first
/// heading line, or the empty sequence where there is none.
pub open spec fn title_from(s: Seq<char>, i: nat) -> Seq<char>
    decreases s.len() + 1 - i,
{
    if i >= s.len() {
        Seq::empty()
    } else if is_heading(line_at(s, i as int)) {
        heading_text(line_at(s, i as int))
    } else {
        proof {
            lemma_line_end_bounds(s, i as int);
        }
        title_from(s, (line_end(s, i as int) + 1) as nat)
    }
}

/// The explicit date of the text from line start `i` on: that of the first
/// line labelled `date:`, if there is one.
pub open spec fn date_from(s: Seq<char>, i: nat) -> Option<Seq<char>>
    decreases s.len() + 1 - i,
{
    if i >= s.len() {
        None
    } else if has_date_label(line_at(s, i as int)) {
        Some(date_text(line_at(s, i as int)))
    } else {
        proof {
            lemma_line_end_bounds(s, i as int);
        }
        date_from(s, (line_end(s, i as int) + 1) as nat)
    }
}

/// The title of a markdown text.
pub open spec fn title_of(s: Seq<char>) -> Seq<char> {
    title_from(s, 0)
}

/// The explicit date of a markdown text, if it has one.
pub open spec fn explicit_date_of(s: Seq<char>) -> Option<Seq<char>> {
    date_from(s, 0)
}

pub open spec fn opt_view(o: Option<String>) -> Option<Seq<char>> {
    match o {
        Some(t) => Some(t@),
        None => None,
    }
}

fn find_line_end(v: &Vec<char>, i: usize) -> (e: usize)
    requires
        i <= v.len(),
    ensures
        e == line_end(v@, i as int),
{
    let mut e: usize = i;
    while e < v.len() && v[e] != '\n'
        invariant
            i <= e <= v.len(),
            line_end(v@, i as int) == line_end(v@, e as int),
        decreases v.len() - e,
    {
        e = e + 1;
    }
    e
}

fn is_date_label(v: &Vec<char>, i: usize, e: usize) -> (r: bool)
    requires
        i <= e <= v.len(),
    ensures
        r == has_date_label(v@.subrange(i as int, e as int)),
{
    e - i >= 5 && (v[i] == 'd' || v[i] == 'D') && (v[i + 1] == 'a' || v[i + 1] == 'A') && (v[i
        + 2] == 't' || v[i + 2] == 'T') && (v[i + 3] == 'e' || v[i + 3] == 'E') && v[i + 4] == ':'
}

/// Finds the title and the explicit date of a markdown text, scanning its
/// lines until both are found.
pub fn extract_title_date(markdown: &str) -> (r: (String, Option<String>))
    ensures
        r.0@ == title_of(markdown@),
        opt_view(r.1) == explicit_date_of(markdown@),
{
    let v = chars_of(markdown);
    let n = v.len();
    let mut title: Option<String> = None;
    let mut date: Option<String> = None;
    let mut i: usize = 0;
    while i < n
        invariant
            n == v.len(),
            v@ == markdown@,
            i <= n,
            match title {
                Some(t) => t@ == title_of(v@),
                None => title_of(v@) == title_from(v@, i as nat),
            },
            match date {
                Some(d) => explicit_date_of(v@) == Some(d@),
                None => explicit_date_of(v@) == date_from(v@, i as nat),
            },
        ensures
            i == n || (title is Some && date is Some),
        decreases n - i,
    {
        let e = find_line_end(&v, i);
        proof {
            lemma_line_end_bounds(v@, i as int);
        }
        let ghost line = v@.subrange(i as int, e as int);
        assert(line == line_at(v@, i as int));
        assert(title_from(v@, i as nat) == if is_heading(line) {
            heading_text(line)
        } else {
            title_from(v@, (e + 1) as nat)
        });
        assert(date_from(v@, i as nat) == if has_date_label(line) {
            Some(date_text(line))
        } else {
            date_from(v@, (e + 1) as nat)
        });
        if title.is_none() && e > i && v[i] == '#' {
            let mut h: usize = i;
            while h < e && v[h] == '#'
                invariant
                    i <= h <= e,
                    e <= v.len(),
                    trim_start_hashes(line) == trim_start_hashes(v@.subrange(h as int, e as int)),
                decreases e - h,
            {
                assert(v@.subrange(h as int, e as int).drop_first() =~= v@.subrange(
                    h + 1,
                    e as int,
                ));
                h = h + 1;
            }
            let (a, b) = trimmed_range(&v, h, e);
            assert(heading_text(line) == v@.subrange(a as int, b as int));
            title = Some(string_of_range(&v, a, b));
        }
        if date.is_none() && is_date_label(&v, i, e) {
            let (a, b) = trimmed_range(&v, i + 5, e);
            assert(line.subrange(5, line.len() as int) =~= v@.subrange(i + 5, e as int));
            date = Some(string_of_range(&v, a, b));
        }
        if title.is_some() && date.is_some() {
            break ;
        }
        if e < n {
            i = e + 1;
        } else {
            assert(title_from(v@, (e + 1) as nat) == Seq::<char>::empty());
            assert(date_from(v@, (e + 1) as nat) == None::<Seq<char>>);
            i = n;
        }
    }
    assert(title_from(v@, n as nat) == Seq::<char>::empty());
    assert(date_from(v@, n as nat) == None::<Seq<char>>);
    let t = match title {
        Some(t) => t,
        None => String::new(),
    };
    (t, date)
}


/// The slug of a markdown file: its name without the `.md` extension, where
/// the name has that extension (a leading dot starts no extension).
pub open spec fn markdown_slug(name: Seq<char>) -> Option<Seq<char>> {
    let k = last_index(name, name.len() as int, '.');
    if k > 0 && k + 3 == name.len() && name[k + 1] == 'm' && name[k + 2] == 'd' {
        Some(name.subrange(0, k))
    } else {
        None
    }
}

/// The slug of an article file, or `None` when the file is not markdown.
pub fn slug_from_file_name(name: &str) -> (r: Option<String>)
    ensures
        opt_view(r) == markdown_slug(name@),
{
    let v = chars_of(name);
    let mut k: usize = v.len();
    while k > 0 && v[k - 1] != '.'
        invariant
            k <= v.len(),
            last_index(v@, v.len() as int, '.') == last_index(v@, k as int, '.'),
        decreases k,
    {
        k = k - 1;
    }
    if k >= 2 && v.len() - k == 2 && v[k] == 'm' && v[k + 1] == 'd' {
        Some(string_of_range(&v, 0, k - 1))
    } else {
        None
    }
}

/// The decimal digit `d`.
pub open spec fn digit(d: int) -> char {
    ((d + 48) as u8) as char
}

/// `YYYY-MM-DD`, each part zero-padded.
pub open spec fn ymd_text(y: int, m: int, d: int) -> Seq<char> {
    seq![
        digit(y / 1000),
        digit(y / 100 % 10),
        digit(y / 10 % 10),
        digit(y % 10),
        '-',
        digit(m / 10),
        digit(m % 10),
        '-',
        digit(d / 10),
        digit(d % 10),
    ]
}

/// The proleptic Gregorian (year, month, day) of a day counted from 1970-01-01.
pub open spec fn civil_from_days(days: int) -> (int, int, int) {
    let z = days + 719468;
    let era = z / 146097;
    let doe = z - era * 146097;
    let yoe = (doe - doe / 1460 + doe / 36524 - doe / 146096) / 365;
    let doy = doe - (365 * yoe + yoe / 4 - yoe / 100);
    let mp = (5 * doy + 2) / 153;
    let d = doy - (153 * mp + 2) / 5 + 1;
    let m = if mp < 10 {
        mp + 3
    } else {
        mp - 9
    };
    let y = yoe + era * 400;
    (if m <= 2 {
        y + 1
    } else {
        y
    }, m, d)
}

/// The UTC calendar date of a Unix timestamp in seconds.
pub open spec fn utc_civil_date(secs: i64) -> (int, int, int) {
    civil_from_days(secs as int / 86400)
}

/// Relies on chrono's `DateTime::from_timestamp` and its `Datelike` accessors:
/// where the timestamp is in chrono's range (which holds every year from 0
/// to 9999), its UTC date in the proleptic Gregorian calendar, with a month
/// in 1..=12 and a day in 1..=31.
#[verifier::external_body]
fn utc_date_parts(secs: i64) -> (r: Option<(i32, u32, u32)>)
    ensures
        r matches Some(t) ==> (t.0 as int, t.1 as int, t.2 as int) == utc_civil_date(secs),
        r matches Some(t) ==> 1 <= t.1 <= 12 && 1 <= t.2 <= 31,
        0 <= utc_civil_date(secs).0 <= 9999 ==> r is Some,
{
    chrono::DateTime::from_timestamp(secs, 0).map(|d| (d.year(), d.month(), d.day()))
}

fn digit_char(d: u32) -> (c: char)
    requires
        d < 10,
    ensures
        c == digit(d as int),
{
    (d as u8 + 48) as char
}

/// Formats a calendar date as `YYYY-MM-DD`.
pub fn format_ymd(year: i32, month: u32, day: u32) -> (r: String)
    requires
        0 <= year <= 9999,
        1 <= month <= 12,
        1 <= day <= 31,
    ensures
        r@ == ymd_text(year as int, month as int, day as int),
{
    let y = year as u32;
    let mut out = String::new();
    out.push(digit_char(y / 1000));
    out.push(digit_char(y / 100 % 10));
    out.push(digit_char(y / 10 % 10));
    out.push(digit_char(y % 10));
    out.push('-');
    out.push(digit_char(month / 10));
    out.push(digit_char(month % 10));
    out.push('-');
    out.push(digit_char(day / 10));
    out.push(digit_char(day % 10));
    assert(out@ =~= ymd_text(year as int, month as int, day as int));
    out
}

/// The `YYYY-MM-DD` text of a timestamp's UTC date, where its year has four digits.
pub open spec fn timestamp_date_text(secs: i64) -> Option<Seq<char>> {
    let t = utc_civil_date(secs);
    if 0 <= t.0 <= 9999 {
        Some(ymd_text(t.0, t.1, t.2))
    } else {
        None
    }
}

/// The date of a file last modified at `secs` (seconds since the Unix epoch),
/// as `YYYY-MM-DD` in UTC.
pub fn date_from_timestamp(secs: i64) -> (r: Option<String>)
    ensures
        opt_view(r) == timestamp_date_text(secs),
{
    match utc_date_parts(secs) {
        Some((y, m, d)) => if 0 <= y && y <= 9999 {
            Some(format_ymd(y, m, d))
        } else {
            None
        },
        None => None,
    }
}

} // verus!
