//! Page metadata and the header block that declares it.
use vstd::prelude::*;
use crate::text::{append_range, chars_of, is_space, is_space_char, skip_ws, skip_ws_exec};
use crate::directives::{find_char, find_char_exec, lemma_find_char, vec_eq};
use chrono::Datelike;

verus! {

// ----- dates -----

/// A calendar date.
#[derive(Clone, Copy, Debug, PartialEq, Eq, Structural)]
pub struct Date {
    pub year: i32,
    pub month: u32,
    pub day: u32,
}

pub open spec fn is_leap(y: int) -> bool {
    (y % 4 == 0 && y % 100 != 0) || y % 400 == 0
}

pub open spec fn days_in_month(y: int, m: int) -> int {
    if m == 2 {
        if is_leap(y) { 29 } else { 28 }
    } else if m == 4 || m == 6 || m == 9 || m == 11 {
        30
    } else {
        31
    }
}

/// A day that exists, within the years that the date library handles.
pub open spec fn valid_ymd(y: int, m: int, d: int) -> bool {
    -262143 <= y <= 262142 && 1 <= m <= 12 && 1 <= d <= days_in_month(y, m)
}

impl Date {
    pub open spec fn valid(self) -> bool {
        valid_ymd(self.year as int, self.month as int, self.day as int)
    }

    pub open spec fn triple(self) -> (int, int, int) {
        (self.year as int, self.month as int, self.day as int)
    }
}

/// What `NaiveDate::parse_from_str(s, "%Y-%m-%d")` accepts, as year, month and day.
pub uninterp spec fn parsed_date(s: Seq<char>) -> Option<(int, int, int)>;

/// Relies on chrono's `NaiveDate::parse_from_str` with `%Y-%m-%d`: the outcome
/// depends on the text alone, and a parsed date exists.
#[verifier::external_body]
fn parse_iso_date(s: &str) -> (r: Option<Date>)
    ensures
        r matches Some(d) ==> parsed_date(s@) == Some(d.triple()) && d.valid(),
        r is None ==> parsed_date(s@) is None,
{
    chrono::NaiveDate::parse_from_str(s, "%Y-%m-%d").ok().map(
        |d| Date { year: d.year(), month: d.month(), day: d.day() },
    )
}

pub open spec fn digit(n: int) -> char {
    ((48 + n) as u8) as char
}

/// `n` in decimal.
pub open spec fn decimal(n: nat) -> Seq<char>
    decreases n,
{
    if n < 10 {
        seq![digit(n as int)]
    } else {
        decimal(n / 10) + seq![digit((n % 10) as int)]
    }
}

/// `s` with zeros in front, to at least `w` characters.
pub open spec fn zero_padded(s: Seq<char>, w: nat) -> Seq<char> {
    if s.len() >= w {
        s
    } else {
        Seq::new((w - s.len()) as nat, |i: int| '0') + s
    }
}

/// A year as `%Y` writes it: four digits from 0 to 9999, else a sign and at
/// least four digits.
pub open spec fn year_text(y: int) -> Seq<char> {
    if 0 <= y <= 9999 {
        zero_padded(decimal(y as nat), 4)
    } else if y < 0 {
        seq!['-'] + zero_padded(decimal((-y) as nat), 4)
    } else {
        seq!['+'] + zero_padded(decimal(y as nat), 4)
    }
}

/// What chrono writes for a date with `%Y-%m-%d`.
pub open spec fn date_text(y: int, m: int, d: int) -> Seq<char> {
    year_text(y) + seq!['-', digit(m / 10), digit(m % 10), '-', digit(d / 10), digit(d % 10)]
}

/// Relies on chrono's `NaiveDate::format` with `%Y-%m-%d` (its `write_year` and
/// `write_n`, and two-digit month and day).
#[verifier::external_body]
fn format_iso_date(d: Date) -> (r: String)
    requires
        d.valid(),
    ensures
        r@ == date_text(d.year as int, d.month as int, d.day as int),
{
    chrono::NaiveDate::from_ymd_opt(d.year, d.month, d.day).unwrap().format("%Y-%m-%d").to_string()
}

/// The date written as `YYYY-MM-DD`.
pub fn date_string(d: Date) -> (r: String)
    requires
        d.valid(),
    ensures
        r@ == date_text(d.year as int, d.month as int, d.day as int),
{
    format_iso_date(d)
}

/// Dates in calendar order, an absent date before every date.
pub open spec fn date_le(a: Option<Date>, b: Option<Date>) -> bool {
    match (a, b) {
        (None, _) => true,
        (Some(_), None) => false,
        (Some(x), Some(y)) => x.year < y.year || (x.year == y.year && (x.month < y.month || (
        x.month == y.month && x.day <= y.day))),
    }
}

pub fn date_le_exec(a: &Option<Date>, b: &Option<Date>) -> (r: bool)
    ensures
        r == date_le(*a, *b),
{
    match (a, b) {
        (None, _) => true,
        (Some(_), None) => false,
        (Some(x), Some(y)) => x.year < y.year || (x.year == y.year && (x.month < y.month || (
        x.month == y.month && x.day <= y.day))),
    }
}

// ----- metadata -----

/// What a page declares about itself, and where it is published.
#[derive(Clone, Debug)]
pub struct Metadata {
    pub title: String,
    pub group: Option<String>,
    pub tags: Option<Vec<String>>,
    pub date: Option<Date>,
    pub author: String,
    /// Path of the output file from the site root, starting with `/`.
    pub path: String,
}

/// The declared fields of a header block.
pub struct Header {
    pub title: Seq<char>,
    pub group: Option<Seq<char>>,
    pub tags: Option<Seq<Seq<char>>>,
    pub date: Option<(int, int, int)>,
    pub author: Seq<char>,
}

pub open spec fn empty_header() -> Header {
    Header { title: seq![], group: None, tags: None, date: None, author: seq![] }
}

pub open spec fn strings_view(v: Seq<String>) -> Seq<Seq<char>> {
    v.map_values(|s: String| s@)
}

pub open spec fn opt_string_view(o: Option<String>) -> Option<Seq<char>> {
    match o {
        Some(s) => Some(s@),
        None => None,
    }
}

pub open spec fn opt_strings_view(o: Option<Vec<String>>) -> Option<Seq<Seq<char>>> {
    match o {
        Some(v) => Some(strings_view(v@)),
        None => None,
    }
}

pub open spec fn opt_date_view(o: Option<Date>) -> Option<(int, int, int)> {
    match o {
        Some(d) => Some(d.triple()),
        None => None,
    }
}

impl Metadata {
    /// The declared fields.
    pub open spec fn header(&self) -> Header {
        Header {
            title: self.title@,
            group: opt_string_view(self.group),
            tags: opt_strings_view(self.tags),
            date: opt_date_view(self.date),
            author: self.author@,
        }
    }

    pub open spec fn wf(&self) -> bool {
        self.date matches Some(d) ==> d.valid()
    }

    /// A copy of this metadata.
    pub fn snapshot(&self) -> (r: Metadata)
        ensures
            r.header() == self.header(),
            r.path@ == self.path@,
            r.date == self.date,
            r.wf() == self.wf(),
    {
        let tags = match &self.tags {
            Some(v) => {
                let mut out: Vec<String> = Vec::new();
                let mut k: usize = 0;
                while k < v.len()
                    invariant
                        k <= v@.len(),
                        strings_view(out@) == strings_view(v@).subrange(0, k as int),
                    decreases v@.len() - k,
                {
                    let c = v[k].clone();
                    let ghost before = strings_view(out@);
                    out.push(c);
                    assert(strings_view(out@) =~= before + seq![c@]);
                    assert(strings_view(v@).subrange(0, k + 1) =~= strings_view(v@).subrange(0, k as int) + seq![v@[k as int]@]);
                    k += 1;
                    assert(strings_view(out@) =~= strings_view(v@).subrange(0, k as int));
                }
                assert(strings_view(v@).subrange(0, v@.len() as int) =~= strings_view(v@));
                Some(out)
            },
            None => None,
        };
        let group = match &self.group {
            Some(g) => Some(g.clone()),
            None => None,
        };
        Metadata {
            title: self.title.clone(),
            group,
            tags,
            date: self.date,
            author: self.author.clone(),
            path: self.path.clone(),
        }
    }

    /// Metadata with nothing declared, for the page published at `path`.
    pub fn new(path: &str) -> (r: Metadata)
        ensures
            r.header() == empty_header(),
            r.path@ == path@,
            r.wf(),
    {
        Metadata {
            title: String::new(),
            group: None,
            tags: None,
            date: None,
            author: String::new(),
            path: path.to_string(),
        }
    }
}

// ----- header lines -----

/// Where the line that starts at `i` ends, past its `\n`.
pub open spec fn next_line(t: Seq<char>, i: int) -> int {
    let k = find_char(t, i, '\n');
    if k < t.len() {
        k + 1
    } else {
        t.len() as int
    }
}

/// An empty line.
pub open spec fn is_blank(l: Seq<char>) -> bool {
    l == seq!['\n'] || l == seq!['\r', '\n']
}

/// A line without its line break.
pub open spec fn line_text(l: Seq<char>) -> Seq<char> {
    if l.len() >= 2 && l[l.len() - 2] == '\r' && l[l.len() - 1] == '\n' {
        l.subrange(0, l.len() - 2)
    } else if l.len() >= 1 && l[l.len() - 1] == '\n' {
        l.subrange(0, l.len() - 1)
    } else {
        l
    }
}

/// A line of two or more dashes: it opens or closes the header.
pub open spec fn is_delimiter(l: Seq<char>) -> bool {
    let c = line_text(l);
    c.len() >= 2 && forall|k: int| 0 <= k < c.len() ==> #[trigger] c[k] == '-'
}

/// The last index past a non-whitespace character, up to `k`.
pub open spec fn trim_end(s: Seq<char>, k: int) -> int
    decreases k,
{
    if k <= 0 || k > s.len() {
        if k <= 0 { 0 } else { s.len() as int }
    } else if is_space(s[k - 1]) {
        trim_end(s, k - 1)
    } else {
        k
    }
}

/// `s` without leading and trailing whitespace.
pub open spec fn trim(s: Seq<char>) -> Seq<char> {
    let a = skip_ws(s, 0);
    let b = trim_end(s, s.len() as int);
    if a < b {
        s.subrange(a, b)
    } else {
        seq![]
    }
}

/// The comma-separated parts of `s`, each trimmed.
pub open spec fn split_tags(s: Seq<char>) -> Seq<Seq<char>>
    decreases s.len(),
{
    let k = find_char(s, 0, ',');
    if k < 0 || k >= s.len() {
        seq![trim(s)]
    } else {
        seq![trim(s.subrange(0, k))] + split_tags(s.subrange(k + 1, s.len() as int))
    }
}

/// The header with one `key: value` line applied; a bad date is the error.
pub open spec fn apply_entry(h: Header, key: Seq<char>, val: Seq<char>) -> Result<Header, Seq<char>> {
    if key == "title"@ {
        Ok(Header { title: val, ..h })
    } else if key == "group"@ {
        Ok(Header { group: Some(val), ..h })
    } else if key == "tags"@ {
        Ok(Header { tags: Some(split_tags(val)), ..h })
    } else if key == "date"@ {
        match parsed_date(val) {
            Some(d) => Ok(Header { date: Some(d), ..h }),
            None => Err(val),
        }
    } else if key == "author"@ {
        Ok(Header { author: val, ..h })
    } else {
        Ok(h)
    }
}

/// The header with one line of the header block applied.
pub open spec fn apply_line(h: Header, l: Seq<char>) -> Result<Header, Seq<char>> {
    let k = find_char(l, 0, ':');
    if k < l.len() {
        apply_entry(h, trim(l.subrange(0, k)), trim(l.subrange(k + 1, l.len() as int)))
    } else {
        Ok(h)
    }
}

/// Reads the header from the line at `i` on: the declared fields and where the
/// body starts, or the text of a date that does not parse.
pub open spec fn header_from(t: Seq<char>, i: int, inside: bool, h: Header) -> Result<
    (Header, int),
    Seq<char>,
>
    decreases t.len() - i,
{
    if i < 0 || i >= t.len() {
        Ok((h, t.len() as int))
    } else {
        let n = next_line(t, i);
        let l = t.subrange(i, n);
        if n <= i {
            Ok((h, t.len() as int))
        } else if is_blank(l) {
            header_from(t, n, inside, h)
        } else if is_delimiter(l) {
            header_from(t, n, !inside, h)
        } else if !inside {
            Ok((h, i))
        } else {
            match apply_line(h, l) {
                Ok(h2) => header_from(t, n, inside, h2),
                Err(e) => Err(e),
            }
        }
    }
}

/// What parsing a template gives: the declared fields and the body.
pub open spec fn parse_header_spec(t: Seq<char>) -> Result<(Header, Seq<char>), Seq<char>> {
    match header_from(t, 0, false, empty_header()) {
        Ok((h, b)) => Ok((h, t.subrange(b, t.len() as int))),
        Err(e) => Err(e),
    }
}

pub proof fn lemma_trim_end(s: Seq<char>, k: int)
    requires
        0 <= k <= s.len(),
    ensures
        0 <= trim_end(s, k) <= k,
    decreases k,
{
    if k > 0 && is_space(s[k - 1]) {
        lemma_trim_end(s, k - 1);
    }
}

fn trim_exec(s: &Vec<char>) -> (r: Vec<char>)
    ensures
        r@ == trim(s@),
{
    let a = skip_ws_exec(s, 0);
    let mut b: usize = s.len();
    proof {
        lemma_trim_end(s@, s@.len() as int);
    }
    while b > 0 && is_space_char(s[b - 1])
        invariant
            b <= s@.len(),
            trim_end(s@, b as int) == trim_end(s@, s@.len() as int),
        decreases b,
    {
        b -= 1;
    }
    let mut r: Vec<char> = Vec::new();
    if a < b {
        append_range(&mut r, s, a, b);
    }
    r
}

fn slice_of(s: &Vec<char>, from: usize, to: usize) -> (r: Vec<char>)
    requires
        from <= to <= s@.len(),
    ensures
        r@ == s@.subrange(from as int, to as int),
{
    let mut r: Vec<char> = Vec::new();
    append_range(&mut r, s, from, to);
    r
}

fn split_tags_exec(s: &Vec<char>) -> (r: Vec<String>)
    ensures
        strings_view(r@) == split_tags(s@),
{
    let mut out: Vec<String> = Vec::new();
    let mut rest: Vec<char> = s.clone();
    loop
        invariant
            strings_view(out@) + split_tags(rest@) == split_tags(s@),
        decreases rest@.len(),
    {
        let k = find_char_exec(&rest, 0, ',');
        let part = trim_exec(&slice_of(&rest, 0, k));
        let ghost before = strings_view(out@);
        out.push(crate::text::string_of(&part));
        assert(strings_view(out@) =~= before + seq![part@]);
        if k >= rest.len() {
            assert(rest@.subrange(0, k as int) =~= rest@);
            assert(strings_view(out@) =~= before + split_tags(rest@));
            return out;
        }
        let tail = slice_of(&rest, k + 1, rest.len());
        assert(strings_view(out@) + split_tags(tail@) =~= before + split_tags(rest@));
        rest = tail;
    }
}

fn is_blank_exec(l: &Vec<char>) -> (r: bool)
    ensures
        r == is_blank(l@),
{
    let r = (l.len() == 1 && l[0] == '\n') || (l.len() == 2 && l[0] == '\r' && l[1] == '\n');
    proof {
        if l@.len() == 1 && l@[0] == '\n' {
            assert(l@ =~= seq!['\n']);
        }
        if l@.len() == 2 && l@[0] == '\r' && l@[1] == '\n' {
            assert(l@ =~= seq!['\r', '\n']);
        }
    }
    r
}

fn is_delimiter_exec(l: &Vec<char>) -> (r: bool)
    ensures
        r == is_delimiter(l@),
{
    let n = l.len();
    let end = if n >= 2 && l[n - 2] == '\r' && l[n - 1] == '\n' {
        n - 2
    } else if n >= 1 && l[n - 1] == '\n' {
        n - 1
    } else {
        n
    };
    let ghost c = line_text(l@);
    assert(c =~= l@.subrange(0, end as int));
    if end < 2 {
        return false;
    }
    let mut k: usize = 0;
    while k < end
        invariant
            k <= end <= l@.len(),
            c == line_text(l@),
            c =~= l@.subrange(0, end as int),
            forall|j: int| 0 <= j < k ==> c[j] == '-',
        decreases end - k,
    {
        if l[k] != '-' {
            assert(c[k as int] != '-');
            return false;
        }
        k += 1;
    }
    true
}

/// The error of a header that cannot be read.
#[derive(Debug)]
pub enum MetadataError {
    /// The value of `date` is not a `YYYY-MM-DD` date.
    InvalidDate(String),
}

/// Applies a `key: value` line of the header block to `meta`.
fn apply_line_exec(meta: &mut Metadata, l: &Vec<char>) -> (r: Result<(), String>)
    requires
        old(meta).wf(),
    ensures
        final(meta).wf(),
        final(meta).path == old(meta).path,
        match apply_line(old(meta).header(), l@) {
            Ok(h) => r is Ok && final(meta).header() == h,
            Err(e) => r matches Err(x) && x@ == e,
        },
{
    let k = find_char_exec(l, 0, ':');
    if k >= l.len() {
        return Ok(());
    }
    let key = trim_exec(&slice_of(l, 0, k));
    let val = trim_exec(&slice_of(l, k + 1, l.len()));
    if vec_eq(&key, &chars_of("title")) {
        meta.title = crate::text::string_of(&val);
    } else if vec_eq(&key, &chars_of("group")) {
        meta.group = Some(crate::text::string_of(&val));
    } else if vec_eq(&key, &chars_of("tags")) {
        meta.tags = Some(split_tags_exec(&val));
    } else if vec_eq(&key, &chars_of("date")) {
        let vs = crate::text::string_of(&val);
        match parse_iso_date(vs.as_str()) {
            Some(d) => {
                meta.date = Some(d);
            },
            None => {
                return Err(vs);
            },
        }
    } else if vec_eq(&key, &chars_of("author")) {
        meta.author = crate::text::string_of(&val);
    }
    Ok(())
}

/// Reads the header block at the start of `text`: the metadata of the page
/// published at `path`, and the body that follows the header.
pub fn parse_header(text: &str, path: &str) -> (r: Result<(Metadata, String), MetadataError>)
    ensures
        match parse_header_spec(text@) {
            Ok((h, b)) => r matches Ok((m, body)) && m.header() == h && body@ == b && m.path@
                == path@ && m.wf(),
            Err(e) => r matches Err(MetadataError::InvalidDate(x)) && x@ == e,
        },
{
    let t = chars_of(text);
    let mut meta = Metadata::new(path);
    let mut inside = false;
    let mut i: usize = 0;
    while i < t.len()
        invariant
            i <= t@.len(),
            t@ == text@,
            meta.wf(),
            meta.path@ == path@,
            header_from(t@, i as int, inside, meta.header()) == header_from(
                t@,
                0,
                false,
                empty_header(),
            ),
        decreases t@.len() - i,
    {
        proof {
            lemma_find_char(t@, i as int, '\n');
        }
        let k = find_char_exec(&t, i, '\n');
        let n = if k < t.len() {
            k + 1
        } else {
            t.len()
        };
        let l = slice_of(&t, i, n);
        assert(next_line(t@, i as int) == n as int);
        if is_blank_exec(&l) {
        } else if is_delimiter_exec(&l) {
            inside = !inside;
        } else if !inside {
            let body = crate::text::string_of(&slice_of(&t, i, t.len()));
            assert(header_from(t@, i as int, inside, meta.header()) == Ok::<(Header, int), Seq<char>>((meta.header(), i as int)));
            assert(parse_header_spec(text@) == Ok::<(Header, Seq<char>), Seq<char>>((meta.header(), body@)));
            return Ok((meta, body));
        } else {
            let ghost h0 = meta.header();
            match apply_line_exec(&mut meta, &l) {
                Ok(()) => {},
                Err(e) => {
                    assert(header_from(t@, i as int, inside, h0) == Err::<(Header, int), Seq<char>>(e@));
                    assert(parse_header_spec(text@) == Err::<(Header, Seq<char>), Seq<char>>(e@));
                    return Err(MetadataError::InvalidDate(e));
                },
            }
        }
        i = n;
    }
    let body = String::new();
    proof {
        assert(t@.subrange(t@.len() as int, t@.len() as int) =~= seq![]);
    }
    Ok((meta, body))
}

// ----- writing a header back -----

/// A value that reads back as itself: on one line, without surrounding whitespace.
pub open spec fn clean(v: Seq<char>) -> bool {
    &&& forall|k: int| 0 <= k < v.len() ==> #[trigger] v[k] != '\n'
    &&& v.len() > 0 ==> !is_space(v[0]) && !is_space(v[v.len() - 1])
}

/// A tag that reads back as itself from a tag list.
pub open spec fn clean_tag(v: Seq<char>) -> bool {
    &&& clean(v)
    &&& v.len() > 0
    &&& forall|k: int| 0 <= k < v.len() ==> #[trigger] v[k] != ','
}

/// `key: value` on a line of its own.
pub open spec fn entry_line(key: Seq<char>, val: Seq<char>) -> Seq<char> {
    key + seq![':', ' '] + val + seq!['\n']
}

/// Tags separated by `", "`.
pub open spec fn join_tags(t: Seq<Seq<char>>) -> Seq<char>
    decreases t.len(),
{
    if t.len() == 0 {
        seq![]
    } else if t.len() == 1 {
        t[0]
    } else {
        t[0] + seq![',', ' '] + join_tags(t.drop_first())
    }
}

pub open spec fn delimiter_line() -> Seq<char> {
    seq!['-', '-', '\n']
}

/// A header block that declares title, group, tags, date (as text) and author.
pub open spec fn header_text(
    title: Seq<char>,
    group: Seq<char>,
    tags: Seq<Seq<char>>,
    date: Seq<char>,
    author: Seq<char>,
) -> Seq<char> {
    delimiter_line() + entry_line("title"@, title) + entry_line("group"@, group) + entry_line(
        "tags"@,
        join_tags(tags),
    ) + entry_line("date"@, date) + entry_line("author"@, author) + delimiter_line()
}

/// A body that the header reader does not take for part of the header.
pub open spec fn plain_body(b: Seq<char>) -> bool {
    b.len() == 0 || {
        let l = b.subrange(0, next_line(b, 0));
        !is_blank(l) && !is_delimiter(l)
    }
}

pub proof fn lemma_find_char_at(t: Seq<char>, i: int, j: int, c: char)
    requires
        0 <= i <= j < t.len(),
        t[j] == c,
        forall|k: int| i <= k < j ==> #[trigger] t[k] != c,
    ensures
        find_char(t, i, c) == j,
    decreases j - i,
{
    if i < j {
        lemma_find_char_at(t, i + 1, j, c);
    }
}

pub proof fn lemma_trim_clean(v: Seq<char>, lead: bool)
    requires
        clean(v),
    ensures
        trim(if lead { seq![' '] + v + seq!['\n'] } else { v + seq!['\n'] }) == v,
        trim(if lead { seq![' '] + v } else { v }) == v,
{
    let p: Seq<char> = if lead { seq![' '] } else { seq![] };
    let s1 = p + v + seq!['\n'];
    let s2 = p + v;
    assert(s1 == (if lead { seq![' '] + v + seq!['\n'] } else { v + seq!['\n'] }));
    assert(s2 == (if lead { seq![' '] + v } else { v }));
    // leading side
    if lead {
        assert(is_space(s1[0]));
        assert(is_space(s2[0]));
    }
    assert(skip_ws(s1, p.len() as int) == (if v.len() > 0 { p.len() as int } else { s1.len() as int })) by {
        if v.len() == 0 {
            assert(is_space(s1[p.len() as int]));
            assert(skip_ws(s1, p.len() + 1int) == s1.len());
        }
    }
    assert(skip_ws(s1, 0) == skip_ws(s1, p.len() as int));
    assert(skip_ws(s2, p.len() as int) == p.len());
    assert(skip_ws(s2, 0) == skip_ws(s2, p.len() as int));
    // trailing side
    assert(is_space(s1[s1.len() - 1]));
    if v.len() > 0 {
        assert(trim_end(s1, s1.len() as int) == trim_end(s1, s1.len() - 1));
        assert(s1[s1.len() - 2] == v[v.len() - 1]);
        assert(trim_end(s1, s1.len() - 1) == s1.len() - 1);
        assert(s2[s2.len() - 1] == v[v.len() - 1]);
        assert(trim_end(s2, s2.len() as int) == s2.len());
        assert(s1.subrange(p.len() as int, s1.len() - 1) =~= v);
        assert(s2.subrange(p.len() as int, s2.len() as int) =~= v);
    } else {
        lemma_trim_end(s1, s1.len() as int);
        lemma_trim_end(s2, s2.len() as int);
    }
}

pub proof fn lemma_split_join(t: Seq<Seq<char>>, lead: bool)
    requires
        t.len() >= 1,
        forall|k: int| 0 <= k < t.len() ==> clean_tag(#[trigger] t[k]),
    ensures
        split_tags(if lead { seq![' '] + join_tags(t) } else { join_tags(t) }) == t,
    decreases t.len(),
{
    let p: Seq<char> = if lead { seq![' '] } else { seq![] };
    let s = p + join_tags(t);
    assert(s == (if lead { seq![' '] + join_tags(t) } else { join_tags(t) }));
    assert(clean_tag(t[0]));
    lemma_trim_clean(t[0], lead);
    if t.len() == 1 {
        assert(forall|k: int| 0 <= k < s.len() ==> #[trigger] s[k] != ',') by {
            assert forall|k: int| 0 <= k < s.len() implies #[trigger] s[k] != ',' by {
                if k >= p.len() {
                    assert(s[k] == t[0][k - p.len()]);
                }
            }
        }
        crate::directives::lemma_find_char(s, 0, ',');
        assert(s =~= (if lead { seq![' '] + t[0] } else { t[0] }));
        assert(t =~= seq![t[0]]);
    } else {
        let rest = t.drop_first();
        let j: int = (p.len() + t[0].len()) as int;
        assert(s =~= p + t[0] + seq![',', ' '] + join_tags(rest));
        assert forall|k: int| 0 <= k < j implies #[trigger] s[k] != ',' by {
            if k >= p.len() {
                assert(s[k] == t[0][k - p.len()]);
            }
        }
        lemma_find_char_at(s, 0, j, ',');
        assert(s.subrange(0, j) =~= (if lead { seq![' '] + t[0] } else { t[0] }));
        assert(s.subrange(j + 1, s.len() as int) =~= seq![' '] + join_tags(rest));
        lemma_split_join(rest, true);
        assert(t =~= seq![t[0]] + rest);
    }
}

pub proof fn lemma_find_char_shift(pre: Seq<char>, b: Seq<char>, i: int, c: char)
    requires
        0 <= i <= b.len(),
    ensures
        find_char(pre + b, pre.len() + i, c) == pre.len() + find_char(b, i, c),
    decreases b.len() - i,
{
    let t = pre + b;
    if i < b.len() {
        assert(t[pre.len() + i] == b[i]);
        if b[i] != c {
            lemma_find_char_shift(pre, b, i + 1, c);
        }
    }
}

/// The line of `t` at `i` is `l`.
pub proof fn lemma_line(t: Seq<char>, i: int, l: Seq<char>)
    requires
        0 <= i,
        i + l.len() <= t.len(),
        t.subrange(i, i + l.len()) == l,
        l.len() >= 1,
        l[l.len() - 1] == '\n',
        forall|k: int| 0 <= k < l.len() - 1 ==> #[trigger] l[k] != '\n',
    ensures
        next_line(t, i) == i + l.len(),
        t.subrange(i, next_line(t, i)) == l,
{
    assert forall|k: int| i <= k < i + l.len() - 1 implies #[trigger] t[k] != '\n' by {
        assert(t[k] == l[k - i]);
    }
    assert(t[i + l.len() - 1] == l[l.len() - 1]);
    lemma_find_char_at(t, i, i + l.len() - 1, '\n');
}

/// A key that reads back as itself.
pub open spec fn plain_key(k: Seq<char>) -> bool {
    &&& clean(k)
    &&& k.len() > 0
    &&& k[0] != '-'
    &&& forall|j: int| 0 <= j < k.len() ==> #[trigger] k[j] != ':'
}

pub proof fn lemma_entry_line(h: Header, key: Seq<char>, val: Seq<char>)
    requires
        plain_key(key),
        clean(val),
    ensures
        apply_line(h, entry_line(key, val)) == apply_entry(h, key, val),
        !is_blank(entry_line(key, val)),
        !is_delimiter(entry_line(key, val)),
        entry_line(key, val).len() >= 1,
        entry_line(key, val)[entry_line(key, val).len() - 1] == '\n',
        forall|k: int|
            0 <= k < entry_line(key, val).len() - 1 ==> #[trigger] entry_line(key, val)[k] != '\n',
{
    let l = entry_line(key, val);
    assert forall|j: int| 0 <= j < key.len() implies #[trigger] l[j] != ':' by {
        assert(l[j] == key[j]);
    }
    assert(l[key.len() as int] == ':');
    lemma_find_char_at(l, 0, key.len() as int, ':');
    assert(l.subrange(0, key.len() as int) =~= key);
    assert(l.subrange(key.len() + 1int, l.len() as int) =~= seq![' '] + val + seq!['\n']);
    lemma_trim_clean(key, false);
    lemma_trim_clean(val, true);
    assert(l[0] == key[0]);
    assert(line_text(l) =~= key + seq![':', ' '] + val);
    assert(line_text(l)[0] != '-');
    assert forall|k: int| 0 <= k < l.len() - 1 implies #[trigger] l[k] != '\n' by {
        if k < key.len() {
            assert(l[k] == key[k]);
        } else if k >= key.len() + 2 {
            assert(l[k] == val[k - key.len() - 2]);
        }
    }
}

/// Reading an entry line inside the header block.
pub proof fn lemma_entry_step(t: Seq<char>, i: int, h: Header, key: Seq<char>, val: Seq<char>)
    requires
        0 <= i,
        i + entry_line(key, val).len() <= t.len(),
        t.subrange(i, i + entry_line(key, val).len()) == entry_line(key, val),
        plain_key(key),
        clean(val),
    ensures
        header_from(t, i, true, h) == match apply_entry(h, key, val) {
            Ok(h2) => header_from(t, i + entry_line(key, val).len(), true, h2),
            Err(e) => Err(e),
        },
{
    lemma_entry_line(h, key, val);
    lemma_line(t, i, entry_line(key, val));
}

/// Reading a delimiter line.
pub proof fn lemma_delimiter_step(t: Seq<char>, i: int, inside: bool, h: Header)
    requires
        0 <= i,
        i + 3 <= t.len(),
        t.subrange(i, i + 3) == delimiter_line(),
    ensures
        header_from(t, i, inside, h) == header_from(t, i + 3, !inside, h),
{
    let l0 = delimiter_line();
    assert(line_text(l0) =~= seq!['-', '-']);
    assert(is_delimiter(l0));
    assert(!is_blank(l0));
    lemma_line(t, i, l0);
}

pub proof fn lemma_literal_keys()
    ensures
        plain_key("title"@),
        plain_key("group"@),
        plain_key("tags"@),
        plain_key("date"@),
        plain_key("author"@),
        "group"@ != "title"@,
        "tags"@ != "title"@ && "tags"@ != "group"@,
        "date"@ != "title"@ && "date"@ != "group"@ && "date"@ != "tags"@,
        "author"@ != "title"@ && "author"@ != "group"@ && "author"@ != "tags"@ && "author"@ != "date"@,
{
    reveal_strlit("title");
    reveal_strlit("group");
    reveal_strlit("tags");
    reveal_strlit("date");
    reveal_strlit("author");
    assert("group"@[0] != "title"@[0]);
    assert("tags"@[1] != "title"@[1] && "tags"@[0] != "group"@[0]);
    assert("date"@[0] != "title"@[0] && "date"@[0] != "group"@[0] && "date"@[0] != "tags"@[0]);
    assert("author"@[0] != "title"@[0] && "author"@[0] != "group"@[0] && "author"@[0] != "tags"@[0]
        && "author"@[0] != "date"@[0]);
}

/// A header block written from declared values reads back as those values:
/// title, group, tags and author as written, the date as the date library parses
/// its text (a date it rejects is the error), and the body after the block intact.
pub proof fn lemma_header_round_trip(
    title: Seq<char>,
    group: Seq<char>,
    tags: Seq<Seq<char>>,
    date: Seq<char>,
    author: Seq<char>,
    body: Seq<char>,
)
    requires
        clean(title),
        clean(group),
        clean(date),
        clean(author),
        tags.len() >= 1,
        forall|k: int| 0 <= k < tags.len() ==> clean_tag(#[trigger] tags[k]),
        plain_body(body),
    ensures
        parse_header_spec(header_text(title, group, tags, date, author) + body) == match parsed_date(
            date,
        ) {
            Some(d) => Ok::<(Header, Seq<char>), Seq<char>>(
                (
                    Header {
                        title,
                        group: Some(group),
                        tags: Some(tags),
                        date: Some(d),
                        author,
                    },
                    body,
                ),
            ),
            None => Err(date),
        },
{
    lemma_literal_keys();
    let jt = join_tags(tags);
    // the tag list reads back as a clean value
    assert(clean(jt)) by {
        lemma_join_clean(tags);
    }
    let l0 = delimiter_line();
    let l1 = entry_line("title"@, title);
    let l2 = entry_line("group"@, group);
    let l3 = entry_line("tags"@, jt);
    let l4 = entry_line("date"@, date);
    let l5 = entry_line("author"@, author);
    let hd = header_text(title, group, tags, date, author);
    let t = hd + body;
    let o1 = l0.len() as int;
    let o2 = o1 + l1.len();
    let o3 = o2 + l2.len();
    let o4 = o3 + l3.len();
    let o5 = o4 + l4.len();
    let o6 = o5 + l5.len();
    let o7 = o6 + l0.len();
    assert(hd =~= l0 + l1 + l2 + l3 + l4 + l5 + l0);
    assert(t.subrange(0, o1) =~= l0);
    assert(t.subrange(o1, o2) =~= l1);
    assert(t.subrange(o2, o3) =~= l2);
    assert(t.subrange(o3, o4) =~= l3);
    assert(t.subrange(o4, o5) =~= l4);
    assert(t.subrange(o5, o6) =~= l5);
    assert(t.subrange(o6, o7) =~= l0);
    let h1 = Header { title, ..empty_header() };
    let h2 = Header { group: Some(group), ..h1 };
    let h3 = Header { tags: Some(tags), ..h2 };
    lemma_split_join(tags, false);
    lemma_delimiter_step(t, 0, false, empty_header());
    lemma_entry_step(t, o1, empty_header(), "title"@, title);
    assert(apply_entry(empty_header(), "title"@, title) == Ok::<Header, Seq<char>>(h1));
    lemma_entry_step(t, o2, h1, "group"@, group);
    assert(apply_entry(h1, "group"@, group) == Ok::<Header, Seq<char>>(h2));
    lemma_entry_step(t, o3, h2, "tags"@, jt);
    assert(apply_entry(h2, "tags"@, jt) == Ok::<Header, Seq<char>>(h3));
    lemma_entry_step(t, o4, h3, "date"@, date);
    match parsed_date(date) {
        Some(d) => {
            let h4 = Header { date: Some(d), ..h3 };
            let h5 = Header { author, ..h4 };
            assert(apply_entry(h3, "date"@, date) == Ok::<Header, Seq<char>>(h4));
            lemma_entry_step(t, o5, h4, "author"@, author);
            assert(apply_entry(h4, "author"@, author) == Ok::<Header, Seq<char>>(h5));
            lemma_delimiter_step(t, o6, true, h5);
            lemma_body_start(hd, body, h5);
            assert(t.subrange(o7, t.len() as int) =~= body);
        },
        None => {
            assert(apply_entry(h3, "date"@, date) == Err::<Header, Seq<char>>(date));
        },
    }
}

/// The header reader stops where a plain body starts.
pub proof fn lemma_body_start(hd: Seq<char>, body: Seq<char>, h: Header)
    requires
        plain_body(body),
    ensures
        header_from(hd + body, hd.len() as int, false, h) == Ok::<(Header, int), Seq<char>>(
            (h, hd.len() as int),
        ),
{
    let t = hd + body;
    let i = hd.len() as int;
    if body.len() > 0 {
        lemma_find_char_shift(hd, body, 0, '\n');
        crate::directives::lemma_find_char(body, 0, '\n');
        assert(t.subrange(i, next_line(t, i)) =~= body.subrange(0, next_line(body, 0)));
    }
}

pub proof fn lemma_join_clean(t: Seq<Seq<char>>)
    requires
        t.len() >= 1,
        forall|k: int| 0 <= k < t.len() ==> clean_tag(#[trigger] t[k]),
    ensures
        clean(join_tags(t)),
        join_tags(t).len() > 0,
    decreases t.len(),
{
    assert(clean_tag(t[0]));
    if t.len() > 1 {
        let rest = t.drop_first();
        assert forall|k: int| 0 <= k < rest.len() implies clean_tag(#[trigger] rest[k]) by {
            assert(rest[k] == t[k + 1]);
        }
        lemma_join_clean(rest);
        let j = join_tags(t);
        let jr = join_tags(rest);
        assert(j =~= t[0] + seq![',', ' '] + jr);
        assert(j[0] == t[0][0]);
        assert(j[j.len() - 1] == jr[jr.len() - 1]);
        assert forall|k: int| 0 <= k < j.len() implies #[trigger] j[k] != '\n' by {
            if k < t[0].len() {
                assert(j[k] == t[0][k]);
            } else if k >= t[0].len() + 2 {
                assert(j[k] == jr[k - t[0].len() - 2]);
            }
        }
    }
}

} // verus!
