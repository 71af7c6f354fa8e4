//! Drafts: the file a new draft is written to and what it holds, and how a
//! draft is found again when it is published.
use vstd::prelude::*;
use crate::site::{has_suffix, strip_suffixes};
use crate::text::{chars_to_string, copy_range, push_chars, push_str, str_to_chars};

verus! {

/// The content sections that have drafts.
#[derive(Debug, Clone, Copy, PartialEq, Eq, Structural)]
pub enum ContentSection {
    Blog,
    Translation,
}

impl ContentSection {
    /// The directory under `content/drafts/` that holds this section's drafts.
    pub open spec fn draft_dir_name(self) -> Seq<char> {
        match self {
            ContentSection::Blog => "blog"@,
            ContentSection::Translation => "translations"@,
        }
    }

    /// The directory under `content/` that holds this section's published
    /// files.
    pub open spec fn published_dir_name(self) -> Seq<char> {
        match self {
            ContentSection::Blog => "posts"@,
            ContentSection::Translation => "translations"@,
        }
    }

    pub fn draft_dir(self) -> (r: &'static str)
        ensures
            r@ == self.draft_dir_name(),
    {
        match self {
            ContentSection::Blog => "blog",
            ContentSection::Translation => "translations",
        }
    }

    pub fn published_dir(self) -> (r: &'static str)
        ensures
            r@ == self.published_dir_name(),
    {
        match self {
            ContentSection::Blog => "posts",
            ContentSection::Translation => "translations",
        }
    }
}

/// A published translation stays in the directory name its drafts use; a
/// blog post moves from `blog` to `posts`.
pub proof fn section_directories(section: ContentSection)
    ensures
        (section == ContentSection::Translation) <==> (section.draft_dir_name()
            == section.published_dir_name()),
{
    reveal_strlit("blog");
    reveal_strlit("posts");
    reveal_strlit("translations");
    if section == ContentSection::Blog {
        assert(section.draft_dir_name()[0] != section.published_dir_name()[0]);
    }
}

/// A slug: only `a`-`z`, `0`-`9` and `-`, never two `-` in a row, never a
/// `-` at either end.
pub open spec fn is_slug(s: Seq<char>) -> bool {
    &&& forall|k: int|
        0 <= k < s.len() ==> ('a' <= #[trigger] s[k] && s[k] <= 'z') || ('0' <= s[k] && s[k]
            <= '9') || s[k] == '-'
    &&& forall|k: int| 0 <= k < s.len() - 1 ==> !(#[trigger] s[k] == '-' && s[k + 1] == '-')
    &&& s.len() > 0 ==> s[0] != '-' && s.last() != '-'
}

/// What `slug::slugify` gives for `title`.
pub uninterp spec fn slugified(title: Seq<char>) -> Seq<char>;

/// `slug::slugify(title)`. Besides naming the result, the contract states
/// what the crate documents of every slug (`is_slug`).
#[verifier::external_body]
fn slugify(title: &str) -> (r: String)
    ensures
        r@ == slugified(title@),
        is_slug(r@),
{
    slug::slugify(title)
}

/// `title` with every `"` preceded by a backslash.
pub open spec fn quote_escaped(title: Seq<char>) -> Seq<char>
    decreases title.len(),
{
    if title.len() == 0 {
        Seq::<char>::empty()
    } else {
        quote_escaped(title.drop_last()) + if title.last() == '"' {
            seq!['\\', '"']
        } else {
            seq![title.last()]
        }
    }
}

/// The file name of a draft: `<date>-<slug>.md`.
pub open spec fn draft_file_name(filename_date: Seq<char>, title: Seq<char>) -> Seq<char> {
    filename_date + "-"@ + slugified(title) + ".md"@
}

/// The contents of a new draft: the front matter only.
pub open spec fn draft_contents(title: Seq<char>, frontmatter_date: Seq<char>) -> Seq<char> {
    "+++\ntitle = \""@ + quote_escaped(title) + "\"\ndate = \""@ + frontmatter_date
        + "\"\nmath = false\n+++\n\n"@
}

/// A new draft: where it goes and what it holds.
pub struct DraftFile {
    pub section: ContentSection,
    pub file_name: String,
    pub contents: String,
}

/// The draft for `title` in `section`, dated `filename_date` (as
/// `YYYY-MM-DD`) in its file name and `frontmatter_date` (RFC 3339) in its
/// front matter. It goes to `content/drafts/<section.draft_dir()>/`.
pub fn draft_dated(section: ContentSection, title: &str, filename_date: &str, frontmatter_date: &str) -> (d: DraftFile)
    ensures
        d.section == section,
        d.file_name@ == draft_file_name(filename_date@, title@),
        d.contents@ == draft_contents(title@, frontmatter_date@),
{
    let slug = slugify(title);
    let mut name: Vec<char> = str_to_chars(filename_date);
    push_str(&mut name, "-");
    push_str(&mut name, slug.as_str());
    push_str(&mut name, ".md");
    let t = str_to_chars(title);
    let mut body: Vec<char> = str_to_chars("+++\ntitle = \"");
    let mut i: usize = 0;
    let ghost prefix = body@;
    while i < t.len()
        invariant
            t@ == title@,
            i <= t.len(),
            body@ == prefix + quote_escaped(t@.take(i as int)),
        decreases t.len() - i,
    {
        if t[i] == '"' {
            body.push('\\');
            body.push('"');
        } else {
            body.push(t[i]);
        }
        assert(t@.take(i + 1).drop_last() =~= t@.take(i as int));
        i = i + 1;
    }
    assert(t@.take(t.len() as int) =~= t@);
    push_str(&mut body, "\"\ndate = \"");
    push_str(&mut body, frontmatter_date);
    push_str(&mut body, "\"\nmath = false\n+++\n\n");
    DraftFile { section, file_name: chars_to_string(&name), contents: chars_to_string(&body) }
}

/// The offset of Korea Standard Time, the time zone drafts are dated in,
/// from UTC, in seconds (UTC+09:00).
pub const KST_OFFSET_SECS: i32 = 32400;

/// The last clock reading, in seconds since the Unix epoch, whose local date
/// (at any offset under a day) has a four-digit year: 9999-12-30T23:59:59Z.
pub const LAST_FOUR_DIGIT_YEAR_SECS: i64 = 253402214399;

/// How far from the Unix epoch, in seconds, a clock reading can always be
/// dated.
pub const DATABLE_SECS: i64 = 8000000000000;

/// What chrono's `format("%Y-%m-%d")` gives for the clock reading
/// `unix_secs` at the UTC offset `offset_secs`.
pub uninterp spec fn local_file_date(unix_secs: int, offset_secs: int) -> Seq<char>;

/// What chrono's `to_rfc3339_opts(SecondsFormat::Secs, false)` gives for the
/// clock reading `unix_secs` at the UTC offset `offset_secs`.
pub uninterp spec fn local_rfc3339(unix_secs: int, offset_secs: int) -> Seq<char>;

/// The ASCII digit for `n` (0 to 9).
pub open spec fn digit_char(n: int) -> char {
    (n + 48) as char
}

/// A non-negative UTC offset of whole minutes as RFC 3339 writes it: `+HH:MM`.
pub open spec fn utc_offset_text(secs: int) -> Seq<char> {
    seq![
        '+',
        digit_char(secs / 36000),
        digit_char((secs / 3600) % 10),
        ':',
        digit_char((secs % 3600) / 600),
        digit_char((secs % 600) / 60),
    ]
}

/// The last `width` decimal digits of `n` (a non-negative number), with
/// leading zeros.
pub open spec fn digit_text(n: int, width: nat) -> Seq<char>
    decreases width,
{
    if width == 0 {
        Seq::<char>::empty()
    } else {
        digit_text(n / 10, (width - 1) as nat).push(digit_char(n % 10))
    }
}

/// The proleptic Gregorian (year, month, day) of the day `days` after
/// 1970-01-01.
pub open spec fn civil_date(days: int) -> (int, int, int) {
    let z = days + 719468;
    let era = z / 146097;
    let doe = z - era * 146097;
    let yoe = (doe - doe / 1460 + doe / 36524 - doe / 146096) / 365;
    let doy = doe - (365 * yoe + yoe / 4 - yoe / 100);
    let mp = (5 * doy + 2) / 153;
    let day = doy - (153 * mp + 2) / 5 + 1;
    let month = if mp < 10 {
        mp + 3
    } else {
        mp - 9
    };
    let year = yoe + era * 400 + if month <= 2 {
        1int
    } else {
        0int
    };
    (year, month, day)
}

/// `YYYY-MM-DD` for the local time `local_secs` (seconds after
/// 1970-01-01T00:00:00 in local time), for a four-digit year.
pub open spec fn date_text(local_secs: int) -> Seq<char> {
    let (y, m, d) = civil_date(local_secs / 86400);
    digit_text(y, 4) + seq!['-'] + digit_text(m, 2) + seq!['-'] + digit_text(d, 2)
}

/// `HH:MM:SS` for the local time `local_secs`.
pub open spec fn time_text(local_secs: int) -> Seq<char> {
    let t = local_secs % 86400;
    digit_text(t / 3600, 2) + seq![':'] + digit_text((t % 3600) / 60, 2) + seq![':'] + digit_text(
        t % 60,
        2,
    )
}

/// RFC 3339 with whole seconds for the clock reading `unix_secs` at the
/// non-negative whole-minute UTC offset `offset_secs`.
pub open spec fn rfc3339_text(unix_secs: int, offset_secs: int) -> Seq<char> {
    date_text(unix_secs + offset_secs) + seq!['T'] + time_text(unix_secs + offset_secs)
        + utc_offset_text(offset_secs)
}

/// `chrono::DateTime::from_timestamp(unix_secs, 0)` taken to the offset
/// `FixedOffset::east_opt(offset_secs)` with `with_timezone`, then written as
/// `format("%Y-%m-%d")` and as `to_rfc3339_opts(SecondsFormat::Secs, false)`.
/// The `requires` keeps the reading within about 250,000 years of the epoch
/// and the offset under a day: there chrono accepts both, and the local time
/// stays inside chrono's calendar (writing a local time past it panics). The
/// contract names both strings; for a reading from 1970 to the year 9999 at
/// a non-negative whole-minute offset it states them: chrono's proleptic
/// Gregorian date as `YYYY-MM-DD`, and `YYYY-MM-DDTHH:MM:SS+HH:MM`. Outside
/// that range (signed years of more than four digits) they are left unsaid.
#[verifier::external_body]
fn local_dates(unix_secs: i64, offset_secs: i32) -> (r: Option<(String, String)>)
    requires
        -DATABLE_SECS <= unix_secs <= DATABLE_SECS,
        -86400 < offset_secs < 86400,
    ensures
        r is Some,
        r matches Some(p) ==> p.0@ == local_file_date(unix_secs as int, offset_secs as int)
            && p.1@ == local_rfc3339(unix_secs as int, offset_secs as int),
        r matches Some(p) ==> (0 <= offset_secs < 86400 && offset_secs % 60 == 0 && 0 <= unix_secs
            <= LAST_FOUR_DIGIT_YEAR_SECS ==> p.0@ == date_text(unix_secs + offset_secs)
            && p.1@ == rfc3339_text(unix_secs as int, offset_secs as int)),
{
    let offset = chrono::FixedOffset::east_opt(offset_secs)?;
    let t = chrono::DateTime::from_timestamp(unix_secs, 0)?.with_timezone(&offset);
    Some((t.format("%Y-%m-%d").to_string(), t.to_rfc3339_opts(chrono::SecondsFormat::Secs, false)))
}

proof fn lemma_digit_text_len(n: int, width: nat)
    ensures
        digit_text(n, width).len() == width,
    decreases width,
{
    if width > 0 {
        lemma_digit_text_len(n / 10, (width - 1) as nat);
    }
}

proof fn lemma_date_text_len(local_secs: int)
    ensures
        date_text(local_secs).len() == 10,
{
    let (y, m, d) = civil_date(local_secs / 86400);
    lemma_digit_text_len(y, 4);
    lemma_digit_text_len(m, 2);
    lemma_digit_text_len(d, 2);
}

proof fn lemma_time_text_len(local_secs: int)
    ensures
        time_text(local_secs).len() == 8,
{
    let t = local_secs % 86400;
    lemma_digit_text_len(t / 3600, 2);
    lemma_digit_text_len((t % 3600) / 60, 2);
    lemma_digit_text_len(t % 60, 2);
}

/// Whether a clock reading can be dated: within `DATABLE_SECS` of the epoch.
pub open spec fn datable(unix_secs: int) -> bool {
    -DATABLE_SECS <= unix_secs <= DATABLE_SECS
}

/// A draft as a value: its section, file name and contents.
pub open spec fn draft_model(f: DraftFile) -> (ContentSection, Seq<char>, Seq<char>) {
    (f.section, f.file_name@, f.contents@)
}

pub open spec fn opt_draft_model(d: Option<DraftFile>) -> Option<(ContentSection, Seq<char>, Seq<char>)> {
    match d {
        Some(f) => Some(draft_model(f)),
        None => None,
    }
}

/// The draft for `title` in `section` at the clock reading `unix_secs`,
/// dated in Korea Standard Time (`None` for a reading that cannot be dated).
pub open spec fn kst_draft(section: ContentSection, title: Seq<char>, unix_secs: int) -> Option<
    (ContentSection, Seq<char>, Seq<char>),
> {
    if datable(unix_secs) {
        Some(
            (
                section,
                draft_file_name(local_file_date(unix_secs, KST_OFFSET_SECS as int), title),
                draft_contents(title, local_rfc3339(unix_secs, KST_OFFSET_SECS as int)),
            ),
        )
    } else {
        None
    }
}

/// The draft for `title` in `section` at the clock reading `unix_secs`
/// (seconds since the Unix epoch), dated in Korea Standard Time: the KST
/// date in its file name and the KST time (RFC 3339, whole seconds) in its
/// front matter, both from the one reading. `None` for a reading more than
/// `DATABLE_SECS` from the epoch.
pub fn draft(section: ContentSection, title: &str, unix_secs: i64) -> (d: Option<DraftFile>)
    ensures
        opt_draft_model(d) == kst_draft(section, title@, unix_secs as int),
        0 <= unix_secs <= LAST_FOUR_DIGIT_YEAR_SECS ==> ({
            let date = local_file_date(unix_secs as int, KST_OFFSET_SECS as int);
            let stamp = local_rfc3339(unix_secs as int, KST_OFFSET_SECS as int);
            &&& date == date_text(unix_secs + KST_OFFSET_SECS)
            &&& stamp == date + seq!['T'] + time_text(unix_secs + KST_OFFSET_SECS) + "+09:00"@
            &&& stamp.len() == 25
            &&& stamp.take(10) == date
        }),
{
    if unix_secs < -DATABLE_SECS || unix_secs > DATABLE_SECS {
        return None;
    }
    let dates = local_dates(unix_secs, KST_OFFSET_SECS);
    proof {
        reveal_strlit("+09:00");
        assert(digit_char(0) == '0');
        assert(digit_char(9) == '9');
        assert(utc_offset_text(32400) =~= "+09:00"@);
        lemma_date_text_len(unix_secs + KST_OFFSET_SECS);
        lemma_time_text_len(unix_secs + KST_OFFSET_SECS);
    }
    match dates {
        Some((file_date, stamp)) => Some(draft_dated(section, title, file_date.as_str(), stamp.as_str())),
        None => None,
    }
}

/// A new blog draft at the clock reading `unix_secs`: exactly `draft` in
/// the blog section.
pub fn run(title: &str, unix_secs: i64) -> (d: Option<DraftFile>)
    ensures
        opt_draft_model(d) == kst_draft(ContentSection::Blog, title@, unix_secs as int),
{
    draft(ContentSection::Blog, title, unix_secs)
}

/// The file names tried, in the drafts directory, for a draft reference:
/// the reference itself, then the reference with trailing `.md`s removed and
/// one `.md` added.
pub open spec fn draft_candidates(draft_ref: Seq<char>) -> (Seq<char>, Seq<char>) {
    (draft_ref, strip_suffixes(draft_ref, ".md"@) + ".md"@)
}

pub fn draft_candidate_names(draft_ref: &str) -> (r: (String, String))
    ensures
        (r.0@, r.1@) == draft_candidates(draft_ref@),
{
    let chars = str_to_chars(draft_ref);
    let mut second = crate::site::strip_suffix_all(&chars, ".md");
    push_str(&mut second, ".md");
    (chars_to_string(&chars), chars_to_string(&second))
}

/// The index of the last `.` in `name`, if any.
pub open spec fn last_dot(name: Seq<char>) -> Option<int>
    decreases name.len(),
{
    if name.len() == 0 {
        None
    } else if name.last() == '.' {
        Some(name.len() - 1)
    } else {
        last_dot(name.drop_last())
    }
}

/// `Path::extension` of a file name: the text after the last `.`, unless
/// there is none or it is the first character.
pub open spec fn extension(name: Seq<char>) -> Option<Seq<char>> {
    match last_dot(name) {
        Some(k) => if k > 0 {
            Some(name.skip(k + 1))
        } else {
            None
        },
        None => None,
    }
}

/// `Path::file_stem` of a file name: the text before the last `.`, or the
/// whole name when `extension` is `None`.
pub open spec fn file_stem(name: Seq<char>) -> Seq<char> {
    match last_dot(name) {
        Some(k) => if k > 0 {
            name.take(k)
        } else {
            name
        },
        None => name,
    }
}

/// Whether a file in the drafts directory is the draft `draft_ref` names: a
/// `.md` file whose stem is the reference or ends in `-<reference>`.
pub open spec fn names_draft(file_name: Seq<char>, draft_ref: Seq<char>) -> bool {
    &&& extension(file_name) == Some("md"@)
    &&& {
        let stem = file_stem(file_name);
        stem == draft_ref || has_suffix(stem, "-"@ + draft_ref)
    }
}

proof fn lemma_last_dot(name: Seq<char>)
    ensures
        last_dot(name) matches Some(k) ==> 0 <= k < name.len() && name[k] == '.' && forall|
            q: int,
        | k < q < name.len() ==> name[q] != '.',
        last_dot(name) is None ==> forall|q: int| 0 <= q < name.len() ==> name[q] != '.',
    decreases name.len(),
{
    if name.len() > 0 && name.last() != '.' {
        let d = name.drop_last();
        lemma_last_dot(d);
        assert forall|q: int| 0 <= q < d.len() implies d[q] == name[q] by {}
    }
}

fn find_last_dot(name: &Vec<char>) -> (r: Option<usize>)
    ensures
        r matches Some(k) ==> last_dot(name@) == Some(k as int) && k < name.len(),
        r is None ==> last_dot(name@) is None,
{
    let mut i: usize = name.len();
    assert(name@.take(i as int) =~= name@);
    while i > 0
        invariant
            i <= name.len(),
            last_dot(name@) == last_dot(name@.take(i as int)),
        decreases i,
    {
        assert(name@.take(i as int).drop_last() =~= name@.take(i - 1));
        if name[i - 1] == '.' {
            return Some(i - 1);
        }
        i = i - 1;
    }
    None
}

fn chars_equal_str(a: &Vec<char>, s: &str) -> (r: bool)
    ensures
        r == (a@ == s@),
{
    let b = str_to_chars(s);
    crate::text::same_chars(a, &b)
}

fn ends_with_chars(s: &Vec<char>, p: &Vec<char>) -> (r: bool)
    ensures
        r == has_suffix(s@, p@),
{
    if p.len() > s.len() {
        return false;
    }
    let off = s.len() - p.len();
    let tail = copy_range(s, off, s.len());
    assert(tail@ =~= s@.skip(off as int));
    crate::text::same_chars(&tail, p)
}

/// Whether the file `file_name` is the draft that `draft_ref` names.
pub fn is_named_draft(file_name: &str, draft_ref: &str) -> (r: bool)
    ensures
        r == names_draft(file_name@, draft_ref@),
{
    let name = str_to_chars(file_name);
    let reference = str_to_chars(draft_ref);
    let (ext, stem) = match find_last_dot(&name) {
        Some(k) => if k > 0 {
            (Some(copy_range(&name, k + 1, name.len())), copy_range(&name, 0, k))
        } else {
            (None, copy_range(&name, 0, name.len()))
        },
        None => (None, copy_range(&name, 0, name.len())),
    };
    assert(name@.subrange(0, name@.len() as int) =~= name@);
    proof {
        if let Some(k) = last_dot(name@) {
            lemma_last_dot(name@);
            assert(name@.skip(k + 1) =~= name@.subrange(k + 1, name@.len() as int));
            assert(name@.take(k) =~= name@.subrange(0, k));
        }
    }
    let is_md = match &ext {
        Some(e) => chars_equal_str(e, "md"),
        None => false,
    };
    if !is_md {
        return false;
    }
    if crate::text::same_chars(&stem, &reference) {
        return true;
    }
    let mut dashed: Vec<char> = str_to_chars("-");
    push_chars(&mut dashed, &reference);
    ends_with_chars(&stem, &dashed)
}

/// A draft written by `draft` is found again by its slug: its file name
/// names the draft whose reference is the slug of its title.
pub proof fn draft_found_by_slug(filename_date: Seq<char>, title: Seq<char>)
    requires
        is_slug(slugified(title)),
    ensures
        names_draft(draft_file_name(filename_date, title), slugified(title)),
{
    let slug = slugified(title);
    let name = draft_file_name(filename_date, title);
    reveal_strlit("-");
    reveal_strlit(".md");
    reveal_strlit("md");
    let stem = filename_date + "-"@ + slug;
    assert(name =~= stem + seq!['.', 'm', 'd']);
    let k = stem.len() as int;
    assert(name[k] == '.');
    assert(name.drop_last().drop_last() =~= stem + seq!['.']);
    assert(last_dot(name) == last_dot(name.drop_last()));
    assert(last_dot(name.drop_last()) == last_dot(name.drop_last().drop_last()));
    assert(last_dot(name) == Some(k));
    assert(name.skip(k + 1) =~= "md"@);
    assert(name.take(k) =~= stem);
    assert(stem.skip(stem.len() - ("-"@ + slug).len()) =~= "-"@ + slug);
}

} // verus!
