//! The search index entry of a post: plain text extracted from Markdown,
//! weighted Korean and English terms, ranked keywords, an excerpt and the
//! normalized text that the client-side search matches against.
use vstd::prelude::*;
use crate::markdown::{
    blog_options, events_view, make_blog_options, markdown_events, parse_markdown, MdEvent,
    MdEventModel,
};
use crate::text::{
    ascii_alphanumeric, chars_to_string, copy_range, is_ascii_alphanumeric, is_whitespace,
    push_chars, push_str, same_chars, str_to_chars, to_ascii_lowercase, ascii_lower,
    unicode_whitespace, utf8_len, utf8_width,
};
use crate::site::{trim, trim_chars};

verus! {

/// Whether `c` is a precomposed Hangul syllable (`가` to `힣`).
pub open spec fn hangul(c: char) -> bool {
    '가' <= c && c <= '힣'
}

pub fn is_hangul(c: char) -> (r: bool)
    ensures
        r == hangul(c),
{
    '가' <= c && c <= '힣'
}

pub open spec fn has_hangul(s: Seq<char>) -> bool {
    exists|k: int| 0 <= k < s.len() && hangul(#[trigger] s[k])
}

fn contains_hangul(s: &Vec<char>) -> (r: bool)
    ensures
        r == has_hangul(s@),
{
    let mut i: usize = 0;
    while i < s.len()
        invariant
            i <= s.len(),
            forall|k: int| 0 <= k < i ==> !hangul(#[trigger] s@[k]),
        decreases s.len() - i,
    {
        if is_hangul(s[i]) {
            return true;
        }
        i = i + 1;
    }
    false
}

/// English words that are never search terms, including URL parts.
pub open spec fn stopword(w: Seq<char>) -> bool {
    ||| w == "a"@
    ||| w == "an"@
    ||| w == "and"@
    ||| w == "are"@
    ||| w == "as"@
    ||| w == "at"@
    ||| w == "be"@
    ||| w == "by"@
    ||| w == "com"@
    ||| w == "for"@
    ||| w == "from"@
    ||| w == "http"@
    ||| w == "https"@
    ||| w == "io"@
    ||| w == "in"@
    ||| w == "is"@
    ||| w == "it"@
    ||| w == "net"@
    ||| w == "of"@
    ||| w == "on"@
    ||| w == "or"@
    ||| w == "org"@
    ||| w == "that"@
    ||| w == "the"@
    ||| w == "this"@
    ||| w == "to"@
    ||| w == "www"@
    ||| w == "with"@
}

fn eq_lit(w: &Vec<char>, lit: &str) -> (r: bool)
    ensures
        r == (w@ == lit@),
{
    let l = str_to_chars(lit);
    same_chars(w, &l)
}

/// Whether `word` is a stopword.
pub fn is_stopword(word: &str) -> (r: bool)
    ensures
        r == stopword(word@),
{
    let w = str_to_chars(word);
    stopword_chars(&w)
}

fn stopword_chars(w: &Vec<char>) -> (r: bool)
    ensures
        r == stopword(w@),
{
    eq_lit(w, "a") || eq_lit(w, "an") || eq_lit(w, "and") || eq_lit(w, "are") || eq_lit(w, "as")
        || eq_lit(w, "at") || eq_lit(w, "be") || eq_lit(w, "by") || eq_lit(w, "com") || eq_lit(
        w,
        "for",
    ) || eq_lit(w, "from") || eq_lit(w, "http") || eq_lit(w, "https") || eq_lit(w, "io")
        || eq_lit(w, "in") || eq_lit(w, "is") || eq_lit(w, "it") || eq_lit(w, "net") || eq_lit(
        w,
        "of",
    ) || eq_lit(w, "on") || eq_lit(w, "or") || eq_lit(w, "org") || eq_lit(w, "that") || eq_lit(
        w,
        "the",
    ) || eq_lit(w, "this") || eq_lit(w, "to") || eq_lit(w, "www") || eq_lit(w, "with")
}

/// The maximal runs of characters satisfying `keep`, in order.
pub open spec fn runs(s: Seq<char>, keep: spec_fn(char) -> bool) -> Seq<Seq<char>>
    decreases s.len(),
{
    if s.len() == 0 {
        Seq::<Seq<char>>::empty()
    } else {
        let prev = runs(s.drop_last(), keep);
        if !keep(s.last()) {
            prev
        } else if s.len() >= 2 && keep(s[s.len() - 2]) && prev.len() > 0 {
            prev.update(prev.len() - 1, prev.last().push(s.last()))
        } else {
            prev.push(seq![s.last()])
        }
    }
}

pub open spec fn is_word_char(c: char) -> bool {
    ascii_alphanumeric(c)
}

pub open spec fn not_whitespace(c: char) -> bool {
    !unicode_whitespace(c)
}

/// The ASCII alphanumeric words of `text`.
pub open spec fn ascii_word_list(text: Seq<char>) -> Seq<Seq<char>> {
    runs(text, |c: char| is_word_char(c))
}

/// The whitespace-separated words of `text` (`str::split_whitespace`).
pub open spec fn whitespace_words(text: Seq<char>) -> Seq<Seq<char>> {
    runs(text, |c: char| not_whitespace(c))
}

proof fn lemma_runs_extend(s: Seq<char>, keep: spec_fn(char) -> bool)
    requires
        s.len() >= 2,
        keep(s.last()),
        keep(s[s.len() - 2]),
    ensures
        runs(s.drop_last(), keep).len() > 0,
{
    let d = s.drop_last();
    assert(d.last() == s[s.len() - 2]);
    let pd = runs(d.drop_last(), keep);
    if !(d.len() >= 2 && keep(d[d.len() - 2]) && pd.len() > 0) {
        assert(runs(d, keep) == pd.push(seq![d.last()]));
    }
}

/// `runs` computed left to right.
fn runs_of(s: &Vec<char>, alnum: bool) -> (words: Vec<Vec<char>>)
    ensures
        words.len() == (if alnum {
            ascii_word_list(s@)
        } else {
            whitespace_words(s@)
        }).len(),
        forall|k: int|
            0 <= k < words.len() ==> #[trigger] words[k]@ == (if alnum {
                ascii_word_list(s@)
            } else {
                whitespace_words(s@)
            })[k],
{
    let ghost keep = if alnum {
        |c: char| is_word_char(c)
    } else {
        |c: char| not_whitespace(c)
    };
    let mut words: Vec<Vec<char>> = Vec::new();
    let mut i: usize = 0;
    let mut in_word = false;
    while i < s.len()
        invariant
            keep == (if alnum {
                |c: char| is_word_char(c)
            } else {
                |c: char| not_whitespace(c)
            }),
            i <= s.len(),
            words.len() == runs(s@.take(i as int), keep).len(),
            forall|k: int| 0 <= k < words.len() ==> #[trigger] words[k]@ == runs(s@.take(i as int), keep)[k],
            in_word == (i > 0 && keep(s@[i - 1])),
            in_word ==> words.len() > 0,
        decreases s.len() - i,
    {
        let c = s[i];
        let keep_c = if alnum {
            is_ascii_alphanumeric(c)
        } else {
            !is_whitespace(c)
        };
        let ghost t = s@.take(i + 1);
        proof {
            assert(t.drop_last() =~= s@.take(i as int));
            assert(t.last() == c);
            assert(keep_c == keep(c));
            if i > 0 {
                assert(t[t.len() - 2] == s@[i - 1]);
            }
        }
        if keep_c {
            if in_word {
                let last = words.len() - 1;
                let mut w = words.remove(last);
                w.push(c);
                words.push(w);
                proof {
                    lemma_runs_extend(t, keep);
                }
            } else {
                let mut w: Vec<char> = Vec::new();
                w.push(c);
                words.push(w);
                assert(w@ =~= seq![c]);
            }
            in_word = true;
        } else {
            in_word = false;
        }
        i = i + 1;
    }
    assert(s@.take(s.len() as int) =~= s@);
    words
}

/// The ASCII alphanumeric words of `text`, in order.
pub fn ascii_words(text: &str) -> (words: Vec<String>)
    ensures
        words.len() == ascii_word_list(text@).len(),
        forall|k: int| 0 <= k < words.len() ==> #[trigger] words[k]@ == ascii_word_list(text@)[k],
{
    let chars = str_to_chars(text);
    let ws = runs_of(&chars, true);
    let mut out: Vec<String> = Vec::new();
    let mut k: usize = 0;
    while k < ws.len()
        invariant
            chars@ == text@,
            ws.len() == ascii_word_list(text@).len(),
            forall|q: int| 0 <= q < ws.len() ==> #[trigger] ws[q]@ == ascii_word_list(text@)[q],
            k <= ws.len(),
            out.len() == k,
            forall|q: int| 0 <= q < k ==> #[trigger] out[q]@ == ascii_word_list(text@)[q],
        decreases ws.len() - k,
    {
        out.push(chars_to_string(&ws[k]));
        k = k + 1;
    }
    out
}

/// `words` joined with single spaces.
pub open spec fn space_joined(words: Seq<Seq<char>>) -> Seq<char>
    decreases words.len(),
{
    if words.len() == 0 {
        Seq::<char>::empty()
    } else if words.len() == 1 {
        words[0]
    } else {
        space_joined(words.drop_last()) + seq![' '] + words.last()
    }
}

/// The whitespace-separated words of `text` joined with single spaces
/// (`split_whitespace` then `join(" ")`).
pub open spec fn normalize_whitespace(text: Seq<char>) -> Seq<char> {
    space_joined(whitespace_words(text))
}

fn join_spaces(words: &Vec<Vec<char>>) -> (r: Vec<char>)
    ensures
        r@ == space_joined(words@.map_values(|w: Vec<char>| w@)),
{
    let ghost ws = words@.map_values(|w: Vec<char>| w@);
    let mut out: Vec<char> = Vec::new();
    let mut k: usize = 0;
    while k < words.len()
        invariant
            ws == words@.map_values(|w: Vec<char>| w@),
            k <= words.len(),
            out@ == space_joined(ws.take(k as int)),
        decreases words.len() - k,
    {
        proof {
            assert(ws.take(k + 1).drop_last() =~= ws.take(k as int));
            if k == 0 {
                assert(ws.take(1).len() == 1);
            }
        }
        if k > 0 {
            out.push(' ');
        }
        push_chars(&mut out, &words[k]);
        proof {
            if k == 0 {
                assert(out@ =~= ws.take(1)[0]);
            }
        }
        k = k + 1;
    }
    assert(ws.take(words.len() as int) =~= ws);
    out
}

fn normalize_chars(text: &Vec<char>) -> (r: Vec<char>)
    ensures
        r@ == normalize_whitespace(text@),
{
    let ws = runs_of(text, false);
    let ghost target = whitespace_words(text@);
    assert(ws@.map_values(|w: Vec<char>| w@) =~= target);
    join_spaces(&ws)
}

/// The excerpt of a text: its normalized form cut to `max_chars`
/// characters, with `…` appended when something was cut.
pub open spec fn excerpt_of(text: Seq<char>, max_chars: nat) -> Seq<char> {
    let normalized = normalize_whitespace(text);
    if normalized.len() > max_chars {
        normalized.take(max_chars as int).push('…')
    } else {
        normalized
    }
}

pub fn excerpt(text: &str, max_chars: usize) -> (r: String)
    ensures
        r@ == excerpt_of(text@, max_chars as nat),
{
    let chars = str_to_chars(text);
    let normalized = normalize_chars(&chars);
    if normalized.len() > max_chars {
        let mut out = copy_range(&normalized, 0, max_chars);
        out.push('…');
        assert(normalized@.take(max_chars as int) =~= normalized@.subrange(0, max_chars as int));
        chars_to_string(&out)
    } else {
        chars_to_string(&normalized)
    }
}

/// What `str::to_lowercase` gives for `s` (Unicode lowercase mapping).
pub uninterp spec fn unicode_lowercase(s: Seq<char>) -> Seq<char>;

/// `str::to_lowercase`; the result depends on `s` alone.
#[verifier::external_body]
fn to_lowercase(s: &str) -> (r: String)
    ensures
        r@ == unicode_lowercase(s@),
{
    s.to_lowercase()
}

/// The text a post is searched by: title, description and body joined with
/// spaces, lowercased, whitespace runs collapsed to single spaces.
pub open spec fn search_text(title: Seq<char>, description: Option<Seq<char>>, body: Seq<char>) -> Seq<char> {
    let joined = match description {
        Some(d) => title + seq![' '] + d + seq![' '] + body,
        None => title + seq![' '] + body,
    };
    normalize_whitespace(unicode_lowercase(joined))
}

pub fn searchable_text(title: &str, description: Option<&str>, body: &str) -> (r: String)
    ensures
        r@ == search_text(title@, match description {
            Some(d) => Some(d@),
            None => None,
        }, body@),
{
    let mut joined: Vec<char> = str_to_chars(title);
    match description {
        Some(d) => {
            joined.push(' ');
            push_str(&mut joined, d);
        },
        None => {},
    }
    joined.push(' ');
    push_str(&mut joined, body);
    let joined_s = chars_to_string(&joined);
    let lowered = to_lowercase(joined_s.as_str());
    let lchars = str_to_chars(lowered.as_str());
    let normalized = normalize_chars(&lchars);
    proof {
        match description {
            Some(d) => {
                assert(joined@ =~= title@ + seq![' '] + d@ + seq![' '] + body@);
            },
            None => {
                assert(joined@ =~= title@ + seq![' '] + body@);
            },
        }
    }
    chars_to_string(&normalized)
}

/// The plain text of Markdown: the text of every text and inline-code
/// event, separated by single spaces.
pub open spec fn text_of_events(evs: Seq<MdEventModel>) -> Seq<char>
    decreases evs.len(),
{
    if evs.len() == 0 {
        Seq::<char>::empty()
    } else {
        let prev = text_of_events(evs.drop_last());
        match evs.last() {
            MdEventModel::Text(t) => if prev.len() == 0 {
                t
            } else {
                prev + seq![' '] + t
            },
            MdEventModel::Code(t) => if prev.len() == 0 {
                t
            } else {
                prev + seq![' '] + t
            },
            _ => prev,
        }
    }
}

pub open spec fn markdown_plain_text(md: Seq<char>) -> Seq<char> {
    text_of_events(markdown_events(blog_options(), md))
}

pub fn markdown_text(md: &str) -> (r: String)
    ensures
        r@ == markdown_plain_text(md@),
{
    let opts = make_blog_options();
    let evs = parse_markdown(md, &opts);
    let ghost ev = events_view(evs@);
    let mut out: Vec<char> = Vec::new();
    let mut k: usize = 0;
    while k < evs.len()
        invariant
            ev == events_view(evs@),
            ev == markdown_events(blog_options(), md@),
            k <= evs.len(),
            out@ == text_of_events(ev.take(k as int)),
        decreases evs.len() - k,
    {
        proof {
            assert(ev.take(k + 1).drop_last() =~= ev.take(k as int));
            assert(ev.take(k + 1).last() == evs@[k as int]@);
        }
        match &evs[k] {
            MdEvent::Text(t) => {
                if out.len() > 0 {
                    out.push(' ');
                }
                push_str(&mut out, t.as_str());
            },
            MdEvent::Code(t) => {
                if out.len() > 0 {
                    out.push(' ');
                }
                push_str(&mut out, t.as_str());
            },
            _ => {},
        }
        k = k + 1;
    }
    assert(ev.take(evs.len() as int) =~= ev);
    chars_to_string(&out)
}


/// What rust-stemmers' English (Porter2) stemmer gives for `word`.
pub uninterp spec fn english_stem(word: Seq<char>) -> Seq<char>;

/// `rust_stemmers::Stemmer::create(Algorithm::English).stem(word)`; the
/// result depends on `word` alone.
#[verifier::external_body]
fn stem_english(word: &str) -> (r: String)
    ensures
        r@ == english_stem(word@),
{
    rust_stemmers::Stemmer::create(rust_stemmers::Algorithm::English).stem(word).into_owned()
}

pub open spec fn ascii_lowercased(w: Seq<char>) -> Seq<char> {
    w.map_values(|c: char| ascii_lower(c))
}

/// The English terms of one word: the word lowercased (unless it is shorter
/// than two bytes or a stopword), then its stem when that differs, is at
/// least two bytes long and is no stopword.
pub open spec fn word_terms(raw: Seq<char>) -> Seq<Seq<char>> {
    let lowered = ascii_lowercased(raw);
    if utf8_len(lowered) < 2 || stopword(lowered) {
        Seq::<Seq<char>>::empty()
    } else {
        let stem = english_stem(lowered);
        if stem != lowered && utf8_len(stem) >= 2 && !stopword(stem) {
            seq![lowered, stem]
        } else {
            seq![lowered]
        }
    }
}

pub open spec fn terms_of_words(words: Seq<Seq<char>>) -> Seq<Seq<char>>
    decreases words.len(),
{
    if words.len() == 0 {
        Seq::<Seq<char>>::empty()
    } else {
        terms_of_words(words.drop_last()) + word_terms(words.last())
    }
}

/// The English terms of a text, word by word.
pub open spec fn english_terms_of(text: Seq<char>) -> Seq<Seq<char>> {
    terms_of_words(ascii_word_list(text))
}

fn utf8_len_at_least_two(s: &Vec<char>) -> (r: bool)
    ensures
        r == (utf8_len(s@) >= 2),
{
    proof {
        lemma_utf8_len_bounds(s@);
    }
    if s.len() >= 2 {
        true
    } else if s.len() == 0 {
        false
    } else {
        let c = s[0];
        proof {
            assert(s@.drop_last() =~= Seq::<char>::empty());
            assert(s@.last() == c);
            assert(utf8_len(Seq::<char>::empty()) == 0);
            assert(utf8_len(s@) == utf8_width(c));
        }
        (c as u32) >= 0x80
    }
}

proof fn lemma_utf8_len_bounds(s: Seq<char>)
    ensures
        utf8_len(s) >= s.len(),
    decreases s.len(),
{
    if s.len() > 0 {
        lemma_utf8_len_bounds(s.drop_last());
    }
}

fn lowercase_ascii(w: &Vec<char>) -> (r: Vec<char>)
    ensures
        r@ == ascii_lowercased(w@),
{
    let mut r: Vec<char> = Vec::new();
    let mut i: usize = 0;
    while i < w.len()
        invariant
            i <= w.len(),
            r@ == ascii_lowercased(w@.take(i as int)),
        decreases w.len() - i,
    {
        r.push(to_ascii_lowercase(w[i]));
        i = i + 1;
        assert(r@ =~= ascii_lowercased(w@.take(i as int)));
    }
    assert(w@.take(w.len() as int) =~= w@);
    r
}

fn push_word_terms(terms: &mut Vec<Vec<char>>, raw: &Vec<char>)
    ensures
        final(terms)@.map_values(|t: Vec<char>| t@) == old(terms)@.map_values(|t: Vec<char>| t@)
            + word_terms(raw@),
{
    let ghost before = terms@.map_values(|t: Vec<char>| t@);
    let lowered = lowercase_ascii(raw);
    if !utf8_len_at_least_two(&lowered) || stopword_chars(&lowered) {
        assert(terms@.map_values(|t: Vec<char>| t@) =~= before + word_terms(raw@));
        return ;
    }
    let lowered_s = chars_to_string(&lowered);
    let stem_s = stem_english(lowered_s.as_str());
    let stem = str_to_chars(stem_s.as_str());
    let keep_stem = !same_chars(&stem, &lowered) && utf8_len_at_least_two(&stem) && !stopword_chars(&stem);
    terms.push(lowered);
    if keep_stem {
        terms.push(stem);
    }
    assert(terms@.map_values(|t: Vec<char>| t@) =~= before + word_terms(raw@));
}

/// The English terms of `text`.
pub fn english_terms(text: &str) -> (terms: Vec<Vec<char>>)
    ensures
        terms@.map_values(|t: Vec<char>| t@) == english_terms_of(text@),
{
    let chars = str_to_chars(text);
    let words = runs_of(&chars, true);
    let ghost ws = ascii_word_list(text@);
    let mut terms: Vec<Vec<char>> = Vec::new();
    let mut k: usize = 0;
    while k < words.len()
        invariant
            words.len() == ws.len(),
            forall|q: int| 0 <= q < words.len() ==> #[trigger] words[q]@ == ws[q],
            k <= words.len(),
            terms@.map_values(|t: Vec<char>| t@) == terms_of_words(ws.take(k as int)),
        decreases words.len() - k,
    {
        push_word_terms(&mut terms, &words[k]);
        proof {
            assert(ws.take(k + 1).drop_last() =~= ws.take(k as int));
        }
        k = k + 1;
    }
    assert(ws.take(words.len() as int) =~= ws);
    terms
}

/// A token of the Korean morphological analyzer: its surface text and its
/// first detail (the part-of-speech tag, empty when there is none).
pub struct KoreanToken {
    pub surface: String,
    pub pos: String,
}

pub open spec fn noun_like_tag(pos: Seq<char>) -> bool {
    ||| pos == "NNG"@
    ||| pos == "NNP"@
    ||| pos == "NNB"@
    ||| pos == "NNBC"@
    ||| pos == "NR"@
    ||| pos == "NP"@
    ||| pos == "SL"@
    ||| pos == "SH"@
}

/// The term a token contributes: its trimmed surface, when that has at least
/// two characters, holds Hangul, and the token is a noun, numeral, pronoun,
/// foreign word or Chinese character.
pub open spec fn token_term(surface: Seq<char>, pos: Seq<char>) -> Option<Seq<char>> {
    let s = trim(surface);
    if s.len() < 2 || !has_hangul(s) || !noun_like_tag(pos) {
        None
    } else {
        Some(s)
    }
}

pub open spec fn tokens_view(ts: Seq<KoreanToken>) -> Seq<(Seq<char>, Seq<char>)> {
    ts.map_values(|t: KoreanToken| (t.surface@, t.pos@))
}

pub open spec fn terms_of_tokens(ts: Seq<(Seq<char>, Seq<char>)>) -> Seq<Seq<char>>
    decreases ts.len(),
{
    if ts.len() == 0 {
        Seq::<Seq<char>>::empty()
    } else {
        let prev = terms_of_tokens(ts.drop_last());
        match token_term(ts.last().0, ts.last().1) {
            Some(t) => prev.push(t),
            None => prev,
        }
    }
}

/// The Korean terms of `text`, given what the analyzer made of it (`None`
/// when it failed): none for a text without Hangul.
pub open spec fn korean_terms_of(text: Seq<char>, tokens: Option<Seq<(Seq<char>, Seq<char>)>>) -> Seq<Seq<char>> {
    if !has_hangul(text) {
        Seq::<Seq<char>>::empty()
    } else {
        match tokens {
            Some(ts) => terms_of_tokens(ts),
            None => Seq::<Seq<char>>::empty(),
        }
    }
}

pub open spec fn opt_tokens_view(tokens: Option<Vec<KoreanToken>>) -> Option<Seq<(Seq<char>, Seq<char>)>> {
    match tokens {
        Some(ts) => Some(tokens_view(ts@)),
        None => None,
    }
}

fn is_noun_like(pos: &Vec<char>) -> (r: bool)
    ensures
        r == noun_like_tag(pos@),
{
    eq_lit(pos, "NNG") || eq_lit(pos, "NNP") || eq_lit(pos, "NNB") || eq_lit(pos, "NNBC")
        || eq_lit(pos, "NR") || eq_lit(pos, "NP") || eq_lit(pos, "SL") || eq_lit(pos, "SH")
}

/// The Korean terms of `text`.
pub fn korean_terms(text: &str, tokens: &Option<Vec<KoreanToken>>) -> (terms: Vec<Vec<char>>)
    ensures
        terms@.map_values(|t: Vec<char>| t@) == korean_terms_of(text@, opt_tokens_view(*tokens)),
{
    let chars = str_to_chars(text);
    let mut terms: Vec<Vec<char>> = Vec::new();
    if !contains_hangul(&chars) {
        assert(terms@.map_values(|t: Vec<char>| t@) =~= Seq::<Seq<char>>::empty());
        return terms;
    }
    let ts = match tokens {
        Some(ts) => ts,
        None => {
            assert(terms@.map_values(|t: Vec<char>| t@) =~= Seq::<Seq<char>>::empty());
            return terms;
        },
    };
    let ghost tv = tokens_view(ts@);
    let mut k: usize = 0;
    assert(terms@.map_values(|t: Vec<char>| t@) =~= terms_of_tokens(tv.take(0)));
    while k < ts.len()
        invariant
            tv == tokens_view(ts@),
            k <= ts.len(),
            terms@.map_values(|t: Vec<char>| t@) == terms_of_tokens(tv.take(k as int)),
        decreases ts.len() - k,
    {
        let surface_chars = str_to_chars(ts[k].surface.as_str());
        let surface = trim_chars(&surface_chars);
        let pos = str_to_chars(ts[k].pos.as_str());
        proof {
            assert(tv.take(k + 1).drop_last() =~= tv.take(k as int));
            assert(tv.take(k + 1).last() == (ts@[k as int].surface@, ts@[k as int].pos@));
        }
        let ghost before = terms@.map_values(|t: Vec<char>| t@);
        if surface.len() >= 2 && contains_hangul(&surface) && is_noun_like(&pos) {
            terms.push(surface);
            assert(terms@.map_values(|t: Vec<char>| t@) =~= before.push(trim(surface_chars@)));
        }
        k = k + 1;
    }
    assert(tv.take(ts.len() as int) =~= tv);
    terms
}


#[verifier::external_type_specification]
#[verifier::external_body]
pub struct ExSegmenter(lindera::segmenter::Segmenter);

#[verifier::external_type_specification]
#[verifier::external_body]
pub struct ExLinderaError(lindera::error::LinderaError);

/// Where the Korean dictionary is loaded from: lindera's embedded ko-dic.
pub open spec fn ko_dic_uri() -> Seq<char> {
    "embedded://ko-dic"@
}

/// Whether lindera's `load_dictionary` succeeds for the embedded dictionary
/// at `uri`; the dictionaries embedded are fixed when the program is built.
pub uninterp spec fn embedded_dictionary_loads(uri: Seq<char>) -> bool;

/// `lindera::dictionary::load_dictionary(uri)`, the dictionary then put in
/// `Segmenter::new(Mode::Normal, dictionary, None)`. Only the embedded
/// ko-dic URI is asked for, whose loading depends on the program alone
/// (whether it was built with the dictionary embedded); the contract says
/// that loading succeeds exactly as named.
#[verifier::external_body]
fn load_segmenter(uri: &str) -> (r: Result<lindera::segmenter::Segmenter, lindera::error::LinderaError>)
    requires
        uri@ == ko_dic_uri(),
    ensures
        r is Ok == embedded_dictionary_loads(uri@),
{
    match lindera::dictionary::load_dictionary(uri) {
        Ok(dictionary) => Ok(lindera::segmenter::Segmenter::new(lindera::mode::Mode::Normal, dictionary, None)),
        Err(e) => Err(e),
    }
}

/// Why a search index could not be built.
#[derive(Debug, Clone, Copy, PartialEq, Eq, Structural)]
pub enum SearchError {
    /// The ko-dic dictionary could not be loaded.
    DictionaryUnavailable,
}

/// The Korean analyzer: lindera's segmenter over the embedded ko-dic
/// dictionary. Only `KoreanAnalyzer::new` makes one.
pub struct KoreanAnalyzer {
    segmenter: lindera::segmenter::Segmenter,
}

impl KoreanAnalyzer {
    /// Loads the embedded ko-dic dictionary; an error when it cannot be
    /// loaded.
    pub fn new() -> (r: Result<KoreanAnalyzer, SearchError>)
        ensures
            r is Ok == embedded_dictionary_loads(ko_dic_uri()),
            r matches Err(e) ==> e == SearchError::DictionaryUnavailable,
    {
        match load_segmenter("embedded://ko-dic") {
            Ok(segmenter) => Ok(KoreanAnalyzer { segmenter }),
            Err(_) => Err(SearchError::DictionaryUnavailable),
        }
    }
}

/// What lindera's segmenter over the embedded ko-dic dictionary (normal
/// mode, no user dictionary) makes of `text`: each token's surface and first
/// detail, `None` when segmenting fails.
pub uninterp spec fn ko_dic_tokens(text: Seq<char>) -> Option<Seq<(Seq<char>, Seq<char>)>>;

/// `Segmenter::segment(text)` with the analyzer's segmenter, each token
/// taken as its surface and the first of its `details()` (empty when there
/// is none); an error becomes `None`. An analyzer always holds the ko-dic
/// segmenter, so the result depends on `text` alone; which tokens come out
/// is left unsaid.
#[verifier::external_body]
fn analyze_korean(analyzer: &KoreanAnalyzer, text: &str) -> (r: Option<Vec<KoreanToken>>)
    ensures
        opt_tokens_view(r) == ko_dic_tokens(text@),
{
    let mut tokens = analyzer.segmenter.segment(std::borrow::Cow::Borrowed(text)).ok()?;
    let mut out = Vec::new();
    for t in tokens.iter_mut() {
        let surface = t.surface.as_ref().to_string();
        let pos = t.details().first().copied().unwrap_or_default().to_string();
        out.push(KoreanToken { surface, pos });
    }
    Some(out)
}

/// The analyzer's tokens for `text`, asked for only when `text` holds Hangul
/// (the Korean terms of any other text are none, whatever the tokens).
fn tokens_for(analyzer: &KoreanAnalyzer, text: &str) -> (r: Option<Vec<KoreanToken>>)
    ensures
        korean_terms_of(text@, opt_tokens_view(r)) == korean_terms_of(text@, ko_dic_tokens(text@)),
{
    let chars = str_to_chars(text);
    if contains_hangul(&chars) {
        analyze_korean(analyzer, text)
    } else {
        None
    }
}

/// The Korean terms of `text` by ko-dic's analysis of it.
pub fn korean_terms_of_text(analyzer: &KoreanAnalyzer, text: &str) -> (terms: Vec<Vec<char>>)
    ensures
        terms@.map_values(|t: Vec<char>| t@) == korean_terms_of(text@, ko_dic_tokens(text@)),
{
    let tokens = tokens_for(analyzer, text);
    korean_terms(text, &tokens)
}

/// A term and its accumulated weight.
pub struct TermScore {
    pub term: Vec<char>,
    pub score: usize,
}

pub type ScoresModel = Seq<(Seq<char>, nat)>;

pub open spec fn scores_view(v: Seq<TermScore>) -> ScoresModel {
    v.map_values(|t: TermScore| (t.term@, t.score as nat))
}

/// The index of the entry for `t` in `s` (`s.len()` when there is none).
pub open spec fn term_position(s: ScoresModel, t: Seq<char>) -> int
    decreases s.len(),
{
    if s.len() == 0 {
        0
    } else {
        let p = term_position(s.drop_last(), t);
        if p < s.len() - 1 {
            p
        } else if s.last().0 == t {
            s.len() - 1
        } else {
            s.len() as int
        }
    }
}

/// `x` capped at `usize::MAX`.
pub open spec fn capped(x: int) -> nat {
    if x > usize::MAX {
        usize::MAX as nat
    } else if x < 0 {
        0
    } else {
        x as nat
    }
}

/// Adds `w` to the score of `t` (a new entry when `t` has none).
pub open spec fn add_score(s: ScoresModel, t: Seq<char>, w: nat) -> ScoresModel {
    let k = term_position(s, t);
    if 0 <= k < s.len() {
        s.update(k, (t, capped((s[k].1 + w) as int)))
    } else {
        s.push((t, capped(w as int)))
    }
}

pub open spec fn add_scores(s: ScoresModel, terms: Seq<Seq<char>>, w: nat) -> ScoresModel
    decreases terms.len(),
{
    if terms.len() == 0 {
        s
    } else {
        add_score(add_scores(s, terms.drop_last(), w), terms.last(), w)
    }
}

/// The scores after adding the Korean and then the English terms of `text`
/// with weight `w`.
pub open spec fn add_weighted(
    s: ScoresModel,
    text: Seq<char>,
    tokens: Option<Seq<(Seq<char>, Seq<char>)>>,
    w: nat,
) -> ScoresModel {
    add_scores(add_scores(s, korean_terms_of(text, tokens), w), english_terms_of(text), w)
}

proof fn lemma_term_position(s: ScoresModel, t: Seq<char>)
    ensures
        0 <= term_position(s, t) <= s.len(),
        term_position(s, t) < s.len() ==> s[term_position(s, t)].0 == t,
        term_position(s, t) == s.len() ==> forall|k: int| 0 <= k < s.len() ==> #[trigger] s[k].0 != t,
    decreases s.len(),
{
    if s.len() > 0 {
        lemma_term_position(s.drop_last(), t);
        assert forall|k: int| 0 <= k < s.len() - 1 implies s.drop_last()[k] == s[k] by {}
    }
}

fn find_term(scores: &Vec<TermScore>, t: &Vec<char>) -> (k: usize)
    ensures
        k == term_position(scores_view(scores@), t@),
{
    let ghost sv = scores_view(scores@);
    let mut k: usize = 0;
    proof {
        lemma_term_position(sv, t@);
    }
    while k < scores.len()
        invariant
            sv == scores_view(scores@),
            k <= scores.len(),
            forall|q: int| 0 <= q < k ==> #[trigger] sv[q].0 != t@,
            0 <= term_position(sv, t@) <= sv.len(),
            term_position(sv, t@) < sv.len() ==> sv[term_position(sv, t@)].0 == t@,
        decreases scores.len() - k,
    {
        if same_chars(&scores[k].term, t) {
            proof {
                assert(sv[k as int].0 == t@);
                lemma_first_position(sv, t@, k as int);
            }
            return k;
        }
        k = k + 1;
    }
    proof {
        lemma_first_position(sv, t@, k as int);
    }
    k
}

proof fn lemma_first_position(s: ScoresModel, t: Seq<char>, k: int)
    requires
        0 <= k <= s.len(),
        forall|q: int| 0 <= q < k ==> #[trigger] s[q].0 != t,
        k < s.len() ==> s[k].0 == t,
    ensures
        term_position(s, t) == k,
    decreases s.len(),
{
    if s.len() > 0 {
        let d = s.drop_last();
        if k < s.len() - 1 {
            lemma_first_position(d, t, k);
        } else {
            lemma_term_position(d, t);
            if term_position(d, t) < d.len() {
                assert(d[term_position(d, t)] == s[term_position(d, t)]);
            }
            assert(term_position(d, t) == d.len());
        }
    }
}

fn add_term_score(scores: &mut Vec<TermScore>, t: Vec<char>, w: usize)
    ensures
        scores_view(final(scores)@) == add_score(scores_view(old(scores)@), t@, w as nat),
{
    let ghost sv = scores_view(scores@);
    let k = find_term(scores, &t);
    proof {
        lemma_term_position(sv, t@);
    }
    if k < scores.len() {
        let new_score = scores[k].score.saturating_add(w);
        let ghost tv = t@;
        scores.set(k, TermScore { term: t, score: new_score });
        assert(scores_view(scores@) =~= sv.update(k as int, (tv, capped((sv[k as int].1 + w) as int))));
    } else {
        let ghost tv = t@;
        scores.push(TermScore { term: t, score: w });
        assert(scores_view(scores@) =~= sv.push((tv, capped(w as int))));
    }
}

fn add_term_scores(scores: &mut Vec<TermScore>, terms: Vec<Vec<char>>, w: usize)
    ensures
        scores_view(final(scores)@) == add_scores(
            scores_view(old(scores)@),
            terms@.map_values(|t: Vec<char>| t@),
            w as nat,
        ),
{
    let ghost s0 = scores_view(scores@);
    let ghost tv = terms@.map_values(|t: Vec<char>| t@);
    let mut k: usize = 0;
    while k < terms.len()
        invariant
            tv == terms@.map_values(|t: Vec<char>| t@),
            k <= terms.len(),
            scores_view(scores@) == add_scores(s0, tv.take(k as int), w as nat),
        decreases terms.len() - k,
    {
        let t = copy_range(&terms[k], 0, terms[k].len());
        assert(t@ =~= tv[k as int]);
        add_term_score(scores, t, w);
        assert(tv.take(k + 1).drop_last() =~= tv.take(k as int));
        k = k + 1;
    }
    assert(tv.take(terms.len() as int) =~= tv);
}

fn add_weighted_terms(
    scores: &mut Vec<TermScore>,
    text: &str,
    tokens: &Option<Vec<KoreanToken>>,
    w: usize,
)
    ensures
        scores_view(final(scores)@) == add_weighted(
            scores_view(old(scores)@),
            text@,
            opt_tokens_view(*tokens),
            w as nat,
        ),
{
    let ko = korean_terms(text, tokens);
    add_term_scores(scores, ko, w);
    let en = english_terms(text);
    add_term_scores(scores, en, w);
}

/// Lexicographic order of character sequences by code point (the order of
/// `str`'s `Ord`, as UTF-8 preserves code point order).
pub open spec fn lex_less(a: Seq<char>, b: Seq<char>) -> bool
    decreases a.len(),
{
    if a.len() == 0 {
        b.len() > 0
    } else if b.len() == 0 {
        false
    } else if a[0] != b[0] {
        a[0] < b[0]
    } else {
        lex_less(a.drop_first(), b.drop_first())
    }
}

/// Whether `a` ranks before `b`: a higher score, or an equal score and a
/// term earlier in lexicographic order.
pub open spec fn ranks_before(a: (Seq<char>, nat), b: (Seq<char>, nat)) -> bool {
    a.1 > b.1 || (a.1 == b.1 && lex_less(a.0, b.0))
}

/// Where `x` goes in `r`: before the first entry it does not rank after.
pub open spec fn insert_position(r: ScoresModel, x: (Seq<char>, nat), i: int) -> int
    decreases r.len() - i,
{
    if i < 0 || i >= r.len() {
        r.len() as int
    } else if ranks_before(r[i], x) {
        insert_position(r, x, i + 1)
    } else {
        i
    }
}

/// The scores in rank order.
pub open spec fn ranked(s: ScoresModel) -> ScoresModel
    decreases s.len(),
{
    if s.len() == 0 {
        s
    } else {
        let r = ranked(s.drop_last());
        r.insert(insert_position(r, s.last(), 0), s.last())
    }
}

fn lex_less_chars(a: &Vec<char>, b: &Vec<char>) -> (r: bool)
    ensures
        r == lex_less(a@, b@),
{
    let mut i: usize = 0;
    assert(a@.skip(0) =~= a@);
    assert(b@.skip(0) =~= b@);
    while i < a.len() && i < b.len() && a[i] == b[i]
        invariant
            i <= a.len(),
            i <= b.len(),
            lex_less(a@, b@) == lex_less(a@.skip(i as int), b@.skip(i as int)),
        decreases a.len() - i,
    {
        proof {
            let sa = a@.skip(i as int);
            let sb = b@.skip(i as int);
            assert(sa.drop_first() =~= a@.skip(i + 1));
            assert(sb.drop_first() =~= b@.skip(i + 1));
        }
        i = i + 1;
    }
    if i < a.len() && i < b.len() {
        assert(a@.skip(i as int)[0] == a@[i as int]);
        assert(b@.skip(i as int)[0] == b@[i as int]);
        a[i] < b[i]
    } else {
        i == a.len() && i < b.len()
    }
}

fn ranks_before_exec(a: &TermScore, b: &TermScore) -> (r: bool)
    ensures
        r == ranks_before((a.term@, a.score as nat), (b.term@, b.score as nat)),
{
    a.score > b.score || (a.score == b.score && lex_less_chars(&a.term, &b.term))
}

/// The scores in rank order: score descending, then term ascending.
pub fn rank(scores: &Vec<TermScore>) -> (r: Vec<TermScore>)
    ensures
        scores_view(r@) == ranked(scores_view(scores@)),
{
    let ghost sv = scores_view(scores@);
    let n = scores.len();
    let mut out: Vec<TermScore> = Vec::new();
    let mut j: usize = 0;
    while j < n
        invariant
            n == scores.len(),
            sv == scores_view(scores@),
            j <= n,
            scores_view(out@) == ranked(sv.take(j as int)),
        decreases n - j,
    {
        let x = TermScore { term: copy_range(&scores[j].term, 0, scores[j].term.len()), score: scores[j].score };
        let ghost xv = (x.term@, x.score as nat);
        assert(x.term@ =~= scores[j as int].term@);
        assert(xv == sv[j as int]);
        let ghost r0 = scores_view(out@);
        let mut i: usize = 0;
        while i < out.len() && ranks_before_exec(&out[i], &x)
            invariant
                i <= out.len(),
                r0 == scores_view(out@),
                xv == (x.term@, x.score as nat),
                insert_position(r0, xv, 0) == insert_position(r0, xv, i as int),
            decreases out.len() - i,
        {
            assert(r0[i as int] == (out[i as int].term@, out[i as int].score as nat));
            i = i + 1;
        }
        proof {
            if i < out.len() {
                assert(r0[i as int] == (out[i as int].term@, out[i as int].score as nat));
            }
        }
        out.insert(i, x);
        proof {
            assert(sv.take(j + 1).drop_last() =~= sv.take(j as int));
            assert(sv.take(j + 1).last() == sv[j as int]);
            assert(scores_view(out@) =~= r0.insert(i as int, xv));
        }
        j = j + 1;
    }
    assert(sv.take(n as int) =~= sv);
    out
}

/// What the index is built from for one post: its title, public URL,
/// date, description and Markdown body.
pub struct SearchDocument {
    pub title: String,
    pub url: String,
    pub date: String,
    pub description: Option<String>,
    pub body_md: String,
}

/// What the Korean analyzer made of the title, the description and the
/// plain text of the body (`markdown_text` of the Markdown body); `None` for
/// a text the analyzer failed on.
pub struct KoreanAnalysis {
    pub title: Option<Vec<KoreanToken>>,
    pub description: Option<Vec<KoreanToken>>,
    pub body: Option<Vec<KoreanToken>>,
}

/// One post's entry in the search index.
pub struct SearchEntry {
    pub title: String,
    pub url: String,
    pub date: String,
    pub description: Option<String>,
    pub excerpt: String,
    pub keywords: Vec<String>,
    pub terms: Vec<String>,
    pub search_text: String,
}

pub open spec fn opt_view(o: Option<String>) -> Option<Seq<char>> {
    match o {
        Some(s) => Some(s@),
        None => None,
    }
}

pub open spec fn strings_view(v: Seq<String>) -> Seq<Seq<char>> {
    v.map_values(|s: String| s@)
}

/// The term scores of a post: title terms weigh 8, description terms 4,
/// body terms 1.
pub open spec fn post_scores(
    title: Seq<char>,
    description: Option<Seq<char>>,
    body_text: Seq<char>,
    ko: (Option<Seq<(Seq<char>, Seq<char>)>>, Option<Seq<(Seq<char>, Seq<char>)>>, Option<Seq<(Seq<char>, Seq<char>)>>),
) -> ScoresModel {
    let s1 = add_weighted(Seq::<(Seq<char>, nat)>::empty(), title, ko.0, 8);
    let s2 = match description {
        Some(d) => add_weighted(s1, d, ko.1, 4),
        None => s1,
    };
    add_weighted(s2, body_text, ko.2, 1)
}

pub open spec fn terms_in_order(r: ScoresModel) -> Seq<Seq<char>> {
    r.map_values(|e: (Seq<char>, nat)| e.0)
}

pub open spec fn first_n(s: Seq<Seq<char>>, n: nat) -> Seq<Seq<char>> {
    if s.len() <= n {
        s
    } else {
        s.take(n as int)
    }
}

pub open spec fn analysis_view(ko: KoreanAnalysis) -> (Option<Seq<(Seq<char>, Seq<char>)>>, Option<Seq<(Seq<char>, Seq<char>)>>, Option<Seq<(Seq<char>, Seq<char>)>>) {
    (opt_tokens_view(ko.title), opt_tokens_view(ko.description), opt_tokens_view(ko.body))
}

fn first_terms(r: &Vec<TermScore>, n: usize) -> (out: Vec<String>)
    ensures
        strings_view(out@) == first_n(terms_in_order(scores_view(r@)), n as nat),
{
    let ghost t = terms_in_order(scores_view(r@));
    let m = if r.len() < n {
        r.len()
    } else {
        n
    };
    let mut out: Vec<String> = Vec::new();
    let mut k: usize = 0;
    while k < m
        invariant
            t == terms_in_order(scores_view(r@)),
            m <= r.len(),
            k <= m,
            strings_view(out@) == t.take(k as int),
        decreases m - k,
    {
        let st = chars_to_string(&r[k].term);
        let ghost prev = strings_view(out@);
        out.push(st);
        assert(scores_view(r@)[k as int] == (r@[k as int].term@, r@[k as int].score as nat));
        assert(t[k as int] == r@[k as int].term@);
        assert(strings_view(out@) =~= prev.push(t[k as int]));
        assert(strings_view(out@) =~= t.take(k + 1));
        k = k + 1;
    }
    assert(t.take(m as int) =~= first_n(t, n as nat));
    out
}

pub type TokensModel = Option<Seq<(Seq<char>, Seq<char>)>>;

/// `e` is the index entry of `doc` when the Korean analyzer gave `ko` for its
/// title, description and body text: the post's fields, an excerpt of the
/// body text, the ranked terms (the first 24 as keywords, the first 180 as
/// terms) and the search text.
pub open spec fn is_entry_of(e: SearchEntry, doc: SearchDocument, ko: (TokensModel, TokensModel, TokensModel)) -> bool {
    let body_text = markdown_plain_text(doc.body_md@);
    let order = terms_in_order(ranked(post_scores(doc.title@, opt_view(doc.description), body_text, ko)));
    &&& e.title@ == doc.title@
    &&& e.url@ == doc.url@
    &&& e.date@ == doc.date@
    &&& opt_view(e.description) == opt_view(doc.description)
    &&& e.excerpt@ == excerpt_of(body_text, 180)
    &&& strings_view(e.keywords@) == first_n(order, 24)
    &&& strings_view(e.terms@) == first_n(order, 180)
    &&& e.search_text@ == search_text(doc.title@, opt_view(doc.description), body_text)
}

/// What ko-dic makes of a post's title, description and body text.
pub open spec fn ko_dic_analysis(doc: SearchDocument) -> (TokensModel, TokensModel, TokensModel) {
    (
        ko_dic_tokens(doc.title@),
        match opt_view(doc.description) {
            Some(d) => ko_dic_tokens(d),
            None => None,
        },
        ko_dic_tokens(markdown_plain_text(doc.body_md@)),
    )
}

/// The search index entry of a post, given the Korean analyzer's tokens for
/// its title, description and body text.
pub fn build_entry(doc: &SearchDocument, ko: &KoreanAnalysis) -> (e: SearchEntry)
    ensures
        is_entry_of(e, *doc, analysis_view(*ko)),
{
    let body_text = markdown_text(doc.body_md.as_str());
    let mut scores: Vec<TermScore> = Vec::new();
    assert(scores_view(scores@) =~= Seq::<(Seq<char>, nat)>::empty());
    add_weighted_terms(&mut scores, doc.title.as_str(), &ko.title, 8);
    match &doc.description {
        Some(d) => add_weighted_terms(&mut scores, d.as_str(), &ko.description, 4),
        None => {},
    }
    add_weighted_terms(&mut scores, body_text.as_str(), &ko.body, 1);
    let ranked_scores = rank(&scores);
    let keywords = first_terms(&ranked_scores, 24);
    let terms = first_terms(&ranked_scores, 180);
    let description = match &doc.description {
        Some(d) => Some(d.clone()),
        None => None,
    };
    let search = searchable_text(doc.title.as_str(), match &doc.description {
        Some(d) => Some(d.as_str()),
        None => None,
    }, body_text.as_str());
    SearchEntry {
        title: doc.title.clone(),
        url: doc.url.clone(),
        date: doc.date.clone(),
        description,
        excerpt: excerpt(body_text.as_str(), 180),
        keywords,
        terms,
        search_text: search,
    }
}

/// The search index entry of a post, its Korean terms taken from ko-dic's
/// analysis of the title, the description and the body text.
pub fn build_search_entry(doc: &SearchDocument, analyzer: &KoreanAnalyzer) -> (e: SearchEntry)
    ensures
        is_entry_of(e, *doc, ko_dic_analysis(*doc)),
{
    let body_text = markdown_text(doc.body_md.as_str());
    let title = tokens_for(analyzer, doc.title.as_str());
    let description = match &doc.description {
        Some(d) => tokens_for(analyzer, d.as_str()),
        None => None,
    };
    let body = tokens_for(analyzer, body_text.as_str());
    let ko = KoreanAnalysis { title, description, body };
    let e = build_entry(doc, &ko);
    proof {
        let bt = markdown_plain_text(doc.body_md@);
        let d = opt_view(doc.description);
        let a = analysis_view(ko);
        let b = ko_dic_analysis(*doc);
        let s0 = Seq::<(Seq<char>, nat)>::empty();
        assert(add_weighted(s0, doc.title@, a.0, 8) == add_weighted(s0, doc.title@, b.0, 8));
        let s1 = add_weighted(s0, doc.title@, a.0, 8);
        let s2 = match d {
            Some(dd) => add_weighted(s1, dd, a.1, 4),
            None => s1,
        };
        match d {
            Some(dd) => {
                assert(add_weighted(s1, dd, a.1, 4) == add_weighted(s1, dd, b.1, 4));
            },
            None => {},
        }
        assert(add_weighted(s2, bt, a.2, 1) == add_weighted(s2, bt, b.2, 1));
        assert(post_scores(doc.title@, d, bt, a) == post_scores(doc.title@, d, bt, b));
    }
    e
}

/// The search index entries of `docs`, in order, with one Korean analyzer
/// for all of them; an error, and no entries, when the ko-dic dictionary
/// cannot be loaded.
pub fn build_search_entries(docs: &Vec<SearchDocument>) -> (r: Result<Vec<SearchEntry>, SearchError>)
    ensures
        r is Ok == embedded_dictionary_loads(ko_dic_uri()),
        r matches Err(e) ==> e == SearchError::DictionaryUnavailable,
        r matches Ok(es) ==> es.len() == docs.len() && forall|i: int|
            0 <= i < docs.len() ==> is_entry_of(#[trigger] es[i], docs[i], ko_dic_analysis(docs[i])),
{
    let analyzer = match KoreanAnalyzer::new() {
        Ok(a) => a,
        Err(e) => return Err(e),
    };
    let mut entries: Vec<SearchEntry> = Vec::new();
    let mut k: usize = 0;
    while k < docs.len()
        invariant
            k <= docs.len(),
            entries.len() == k,
            forall|i: int| 0 <= i < k ==> is_entry_of(#[trigger] entries[i], docs[i], ko_dic_analysis(docs[i])),
        decreases docs.len() - k,
    {
        let e = build_search_entry(&docs[k], &analyzer);
        entries.push(e);
        k = k + 1;
    }
    Ok(entries)
}

/// No two entries share a term.
pub open spec fn distinct_terms(s: ScoresModel) -> bool {
    forall|i: int, j: int| 0 <= i < s.len() && 0 <= j < s.len() && i != j ==> #[trigger] s[i].0 != #[trigger] s[j].0
}

/// Each entry ranks before every later one.
pub open spec fn rank_sorted(s: ScoresModel) -> bool {
    forall|i: int, j: int| 0 <= i < j < s.len() ==> ranks_before(#[trigger] s[i], #[trigger] s[j])
}

proof fn lemma_add_score_distinct(s: ScoresModel, t: Seq<char>, w: nat)
    requires
        distinct_terms(s),
    ensures
        distinct_terms(add_score(s, t, w)),
{
    lemma_term_position(s, t);
    let r = add_score(s, t, w);
    let k = term_position(s, t);
    if k < s.len() {
        assert forall|i: int, j: int| 0 <= i < r.len() && 0 <= j < r.len() && i != j implies #[trigger] r[i].0 != #[trigger] r[j].0 by {
            assert(r[i].0 == s[i].0);
            assert(r[j].0 == s[j].0);
        }
    } else {
        assert forall|i: int, j: int| 0 <= i < r.len() && 0 <= j < r.len() && i != j implies #[trigger] r[i].0 != #[trigger] r[j].0 by {
            if i < s.len() && j < s.len() {
                assert(r[i] == s[i]);
                assert(r[j] == s[j]);
            } else if i < s.len() {
                assert(r[i] == s[i]);
            } else {
                assert(r[j] == s[j]);
            }
        }
    }
}

proof fn lemma_add_scores_distinct(s: ScoresModel, terms: Seq<Seq<char>>, w: nat)
    requires
        distinct_terms(s),
    ensures
        distinct_terms(add_scores(s, terms, w)),
    decreases terms.len(),
{
    if terms.len() > 0 {
        lemma_add_scores_distinct(s, terms.drop_last(), w);
        lemma_add_score_distinct(add_scores(s, terms.drop_last(), w), terms.last(), w);
    }
}

/// A post's score table holds each term once, so de-duplicating the ranked
/// terms changes nothing.
pub proof fn post_scores_hold_each_term_once(
    title: Seq<char>,
    description: Option<Seq<char>>,
    body_text: Seq<char>,
    ko: (Option<Seq<(Seq<char>, Seq<char>)>>, Option<Seq<(Seq<char>, Seq<char>)>>, Option<Seq<(Seq<char>, Seq<char>)>>),
)
    ensures
        distinct_terms(post_scores(title, description, body_text, ko)),
{
    let e = Seq::<(Seq<char>, nat)>::empty();
    let s1a = add_scores(e, korean_terms_of(title, ko.0), 8);
    lemma_add_scores_distinct(e, korean_terms_of(title, ko.0), 8);
    lemma_add_scores_distinct(s1a, english_terms_of(title), 8);
    let s1 = add_weighted(e, title, ko.0, 8);
    let s2 = match description {
        Some(d) => {
            let s2a = add_scores(s1, korean_terms_of(d, ko.1), 4);
            lemma_add_scores_distinct(s1, korean_terms_of(d, ko.1), 4);
            lemma_add_scores_distinct(s2a, english_terms_of(d), 4);
            add_weighted(s1, d, ko.1, 4)
        },
        None => s1,
    };
    let s3a = add_scores(s2, korean_terms_of(body_text, ko.2), 1);
    lemma_add_scores_distinct(s2, korean_terms_of(body_text, ko.2), 1);
    lemma_add_scores_distinct(s3a, english_terms_of(body_text), 1);
}

proof fn lemma_lex_irreflexive(a: Seq<char>)
    ensures
        !lex_less(a, a),
    decreases a.len(),
{
    if a.len() > 0 {
        lemma_lex_irreflexive(a.drop_first());
    }
}

proof fn lemma_lex_asymmetric(a: Seq<char>, b: Seq<char>)
    ensures
        lex_less(a, b) ==> !lex_less(b, a),
    decreases a.len(),
{
    if a.len() > 0 && b.len() > 0 && a[0] == b[0] {
        lemma_lex_asymmetric(a.drop_first(), b.drop_first());
    }
}

proof fn lemma_lex_transitive(a: Seq<char>, b: Seq<char>, c: Seq<char>)
    ensures
        lex_less(a, b) && lex_less(b, c) ==> lex_less(a, c),
    decreases a.len(),
{
    if a.len() > 0 && b.len() > 0 && c.len() > 0 {
        lemma_lex_transitive(a.drop_first(), b.drop_first(), c.drop_first());
    }
}

proof fn lemma_lex_total(a: Seq<char>, b: Seq<char>)
    ensures
        a != b ==> lex_less(a, b) || lex_less(b, a),
    decreases a.len(),
{
    if a.len() > 0 && b.len() > 0 && a[0] == b[0] {
        lemma_lex_total(a.drop_first(), b.drop_first());
        if a.drop_first() == b.drop_first() {
            assert(a =~= seq![a[0]] + a.drop_first());
            assert(b =~= seq![b[0]] + b.drop_first());
        }
    } else if a.len() == 0 && b.len() == 0 {
        assert(a =~= b);
    }
}

proof fn lemma_ranks_order(a: (Seq<char>, nat), b: (Seq<char>, nat), c: (Seq<char>, nat))
    ensures
        !ranks_before(a, a),
        ranks_before(a, b) ==> !ranks_before(b, a),
        ranks_before(a, b) && ranks_before(b, c) ==> ranks_before(a, c),
        a.0 != b.0 ==> ranks_before(a, b) || ranks_before(b, a),
{
    lemma_lex_irreflexive(a.0);
    lemma_lex_asymmetric(a.0, b.0);
    lemma_lex_transitive(a.0, b.0, c.0);
    lemma_lex_total(a.0, b.0);
}

proof fn lemma_insert_position(r: ScoresModel, x: (Seq<char>, nat), i: int)
    requires
        0 <= i <= r.len(),
    ensures
        i <= insert_position(r, x, i) <= r.len(),
        forall|q: int| i <= q < insert_position(r, x, i) ==> ranks_before(#[trigger] r[q], x),
        insert_position(r, x, i) < r.len() ==> !ranks_before(r[insert_position(r, x, i)], x),
    decreases r.len() - i,
{
    if i < r.len() && ranks_before(r[i], x) {
        lemma_insert_position(r, x, i + 1);
    }
}

proof fn lemma_ranked(s: ScoresModel)
    requires
        distinct_terms(s),
    ensures
        rank_sorted(ranked(s)),
        ranked(s).len() == s.len(),
        forall|x: (Seq<char>, nat)| ranked(s).contains(x) <==> s.contains(x),
    decreases s.len(),
{
    if s.len() > 0 {
        let d = s.drop_last();
        assert forall|i: int, j: int| 0 <= i < d.len() && 0 <= j < d.len() && i != j implies #[trigger] d[i].0 != #[trigger] d[j].0 by {
            assert(d[i] == s[i]);
            assert(d[j] == s[j]);
        }
        lemma_ranked(d);
        let r = ranked(d);
        let x = s.last();
        let p = insert_position(r, x, 0);
        lemma_insert_position(r, x, 0);
        let out = r.insert(p, x);
        // x's term is not in r
        assert forall|q: int| 0 <= q < r.len() implies #[trigger] r[q].0 != x.0 by {
            assert(d.contains(r[q]));
            let m = choose|m: int| 0 <= m < d.len() && d[m] == r[q];
            assert(s[m] == d[m]);
            assert(s[s.len() - 1] == x);
        }
        assert forall|i: int, j: int| 0 <= i < j < out.len() implies ranks_before(#[trigger] out[i], #[trigger] out[j]) by {
            if j < p {
                assert(out[i] == r[i] && out[j] == r[j]);
            } else if j == p {
                assert(out[i] == r[i]);
                assert(out[j] == x);
            } else if i == p {
                assert(out[i] == x);
                assert(out[j] == r[j - 1]);
                lemma_ranks_order(r[p], x, x);
                lemma_ranks_order(x, r[p], r[j - 1]);
                if j - 1 > p {
                    assert(ranks_before(r[p], r[j - 1]));
                }
            } else if i < p {
                assert(out[i] == r[i]);
                assert(out[j] == r[j - 1]);
                if i < j - 1 {
                    assert(ranks_before(r[i], r[j - 1]));
                } else {
                    assert(false);
                }
            } else {
                assert(out[i] == r[i - 1]);
                assert(out[j] == r[j - 1]);
            }
        }
        assert forall|y: (Seq<char>, nat)| out.contains(y) <==> s.contains(y) by {
            if out.contains(y) {
                let q = choose|q: int| 0 <= q < out.len() && out[q] == y;
                if q < p {
                    assert(r.contains(r[q]));
                    assert(d.contains(y));
                    let m = choose|m: int| 0 <= m < d.len() && d[m] == y;
                    assert(s[m] == y);
                } else if q == p {
                    assert(s[s.len() - 1] == y);
                } else {
                    assert(out[q] == r[q - 1]);
                    assert(r.contains(r[q - 1]));
                    assert(d.contains(y));
                    let m = choose|m: int| 0 <= m < d.len() && d[m] == y;
                    assert(s[m] == y);
                }
            }
            if s.contains(y) {
                let q = choose|q: int| 0 <= q < s.len() && s[q] == y;
                if q == s.len() - 1 {
                    assert(out[p] == y);
                } else {
                    assert(d[q] == y);
                    assert(d.contains(y));
                    assert(r.contains(y));
                    let m = choose|m: int| 0 <= m < r.len() && r[m] == y;
                    if m < p {
                        assert(out[m] == y);
                    } else {
                        assert(out[m + 1] == y);
                    }
                }
            }
        }
    }
}

/// Ranking orders a table with each term once by score, highest first, ties
/// broken by term in lexicographic order, and keeps exactly its entries.
pub proof fn ranking_sorts_and_keeps_entries(s: ScoresModel)
    requires
        distinct_terms(s),
    ensures
        rank_sorted(ranked(s)),
        ranked(s).len() == s.len(),
        forall|x: (Seq<char>, nat)| ranked(s).contains(x) <==> s.contains(x),
{
    lemma_ranked(s);
}

/// No English term is a stopword (so URL parts such as `https` or `com`
/// never become terms), and every English term is at least two bytes long.
pub proof fn english_terms_are_no_stopwords(text: Seq<char>)
    ensures
        forall|k: int|
            0 <= k < english_terms_of(text).len() ==> !stopword(#[trigger] english_terms_of(text)[k])
                && utf8_len(english_terms_of(text)[k]) >= 2,
{
    lemma_terms_of_words(ascii_word_list(text));
}

proof fn lemma_terms_of_words(words: Seq<Seq<char>>)
    ensures
        forall|k: int|
            0 <= k < terms_of_words(words).len() ==> !stopword(#[trigger] terms_of_words(words)[k])
                && utf8_len(terms_of_words(words)[k]) >= 2,
    decreases words.len(),
{
    if words.len() > 0 {
        lemma_terms_of_words(words.drop_last());
        let a = terms_of_words(words.drop_last());
        let b = word_terms(words.last());
        assert forall|k: int| 0 <= k < (a + b).len() implies !stopword(#[trigger] (a + b)[k]) && utf8_len((a + b)[k]) >= 2 by {
            if k >= a.len() {
                assert((a + b)[k] == b[k - a.len()]);
            } else {
                assert((a + b)[k] == a[k]);
            }
        }
    }
}

/// Text whose only whitespace is single spaces between non-space
/// characters.
pub open spec fn single_spaced(n: Seq<char>) -> bool {
    &&& forall|k: int| 0 <= k < n.len() && unicode_whitespace(#[trigger] n[k]) ==> n[k] == ' '
    &&& n.len() > 0 ==> !unicode_whitespace(n[0]) && !unicode_whitespace(n.last())
    &&& forall|k: int| 0 <= k < n.len() - 1 ==> !(#[trigger] n[k] == ' ' && n[k + 1] == ' ')
}

pub open spec fn clean_word(w: Seq<char>) -> bool {
    w.len() > 0 && forall|k: int| 0 <= k < w.len() ==> !unicode_whitespace(#[trigger] w[k])
}

proof fn lemma_runs_clean(s: Seq<char>)
    ensures
        forall|k: int|
            0 <= k < whitespace_words(s).len() ==> clean_word(#[trigger] whitespace_words(s)[k]),
    decreases s.len(),
{
    if s.len() > 0 {
        lemma_runs_clean(s.drop_last());
        let keep = |c: char| not_whitespace(c);
        let prev = runs(s.drop_last(), keep);
        let cur = runs(s, keep);
        assert(prev == whitespace_words(s.drop_last()));
        assert(cur == whitespace_words(s));
        if keep(s.last()) {
            if s.len() >= 2 && keep(s[s.len() - 2]) && prev.len() > 0 {
                assert forall|k: int| 0 <= k < cur.len() implies clean_word(#[trigger] cur[k]) by {
                    if k < prev.len() - 1 {
                        assert(cur[k] == prev[k]);
                    } else {
                        let w = prev.last().push(s.last());
                        assert(cur[k] == w);
                        assert(clean_word(prev[prev.len() - 1]));
                        assert forall|q: int| 0 <= q < w.len() implies !unicode_whitespace(#[trigger] w[q]) by {
                            if q < w.len() - 1 {
                                assert(w[q] == prev.last()[q]);
                            }
                        }
                    }
                }
            } else {
                assert forall|k: int| 0 <= k < cur.len() implies clean_word(#[trigger] cur[k]) by {
                    if k < prev.len() {
                        assert(cur[k] == prev[k]);
                    } else {
                        assert(cur[k] == seq![s.last()]);
                    }
                }
            }
        }
    }
}

proof fn lemma_space_joined_single_spaced(words: Seq<Seq<char>>)
    requires
        forall|k: int| 0 <= k < words.len() ==> clean_word(#[trigger] words[k]),
    ensures
        single_spaced(space_joined(words)),
        words.len() > 0 ==> space_joined(words).len() > 0,
    decreases words.len(),
{
    if words.len() == 1 {
        assert(clean_word(words[0]));
    } else if words.len() > 1 {
        let d = words.drop_last();
        assert forall|k: int| 0 <= k < d.len() implies clean_word(#[trigger] d[k]) by {
            assert(d[k] == words[k]);
        }
        lemma_space_joined_single_spaced(d);
        let a = space_joined(d);
        let w = words.last();
        assert(clean_word(words[words.len() - 1]));
        let n = a + seq![' '] + w;
        assert(n =~= space_joined(words));
        assert forall|k: int| 0 <= k < n.len() && unicode_whitespace(#[trigger] n[k]) implies n[k] == ' ' by {
            if k < a.len() {
                assert(n[k] == a[k]);
            } else if k > a.len() {
                assert(n[k] == w[k - a.len() - 1]);
            }
        }
        assert forall|k: int| 0 <= k < n.len() - 1 implies !(#[trigger] n[k] == ' ' && n[k + 1] == ' ') by {
            if k < a.len() - 1 {
                assert(n[k] == a[k]);
                assert(n[k + 1] == a[k + 1]);
            } else if k == a.len() - 1 {
                assert(n[k] == a.last());
            } else if k == a.len() {
                assert(n[k + 1] == w[0]);
            } else {
                assert(n[k] == w[k - a.len() - 1]);
            }
        }
        assert(n[0] == a[0]);
        assert(n.last() == w.last());
    }
}

/// Normalized text (the search text, the excerpt before its cut) has no
/// whitespace but single spaces between words: none at either end, no two
/// in a row, no tab or newline.
pub proof fn normalized_text_is_single_spaced(text: Seq<char>)
    ensures
        single_spaced(normalize_whitespace(text)),
{
    lemma_runs_clean(text);
    lemma_space_joined_single_spaced(whitespace_words(text));
}

/// An excerpt is at most `max_chars` characters plus the ellipsis, and it
/// ends in the ellipsis exactly when the normalized text was longer.
pub proof fn excerpt_is_bounded(text: Seq<char>, max_chars: nat)
    ensures
        excerpt_of(text, max_chars).len() <= max_chars + 1,
        (normalize_whitespace(text).len() > max_chars) ==> excerpt_of(text, max_chars).last() == '…',
        (normalize_whitespace(text).len() <= max_chars) ==> excerpt_of(text, max_chars) == normalize_whitespace(text),
{
}


/// The score of `t` (0 when it has none).
pub open spec fn score_of(s: ScoresModel, t: Seq<char>) -> nat {
    let k = term_position(s, t);
    if 0 <= k < s.len() {
        s[k].1
    } else {
        0
    }
}

/// Whether `t` has a score.
pub open spec fn has_term(s: ScoresModel, t: Seq<char>) -> bool {
    term_position(s, t) < s.len()
}

/// How often `t` occurs in `terms`.
pub open spec fn occurrences(terms: Seq<Seq<char>>, t: Seq<char>) -> nat
    decreases terms.len(),
{
    if terms.len() == 0 {
        0
    } else {
        occurrences(terms.drop_last(), t) + if terms.last() == t {
            1nat
        } else {
            0nat
        }
    }
}

proof fn lemma_occurrences_concat(a: Seq<Seq<char>>, b: Seq<Seq<char>>, t: Seq<char>)
    ensures
        occurrences(a + b, t) == occurrences(a, t) + occurrences(b, t),
    decreases b.len(),
{
    if b.len() == 0 {
        assert(a + b =~= a);
    } else {
        lemma_occurrences_concat(a, b.drop_last(), t);
        assert((a + b).drop_last() =~= a + b.drop_last());
        assert((a + b).last() == b.last());
    }
}

proof fn lemma_term_position_unique(s: ScoresModel, t: Seq<char>, j: int)
    requires
        distinct_terms(s),
        0 <= j < s.len(),
        s[j].0 == t,
    ensures
        term_position(s, t) == j,
{
    lemma_term_position(s, t);
    let p = term_position(s, t);
    if p == s.len() {
        assert(s[j].0 != t);
    }
}

proof fn lemma_capped_twice(x: int, y: int)
    requires
        x >= 0,
        y >= 0,
    ensures
        capped(capped(x) + y) == capped(x + y),
{
}

proof fn lemma_add_score_effect(r: ScoresModel, u: Seq<char>, w: nat, t: Seq<char>)
    requires
        distinct_terms(r),
    ensures
        score_of(add_score(r, u, w), t) == if t == u {
            capped((score_of(r, t) + w) as int)
        } else {
            score_of(r, t)
        },
        has_term(add_score(r, u, w), t) <==> (has_term(r, t) || t == u),
{
    lemma_term_position(r, u);
    lemma_term_position(r, t);
    lemma_add_score_distinct(r, u, w);
    let r2 = add_score(r, u, w);
    lemma_term_position(r2, t);
    let k = term_position(r, u);
    let p = term_position(r, t);
    if t == u {
        if k < r.len() {
            assert(r2[k].0 == t);
            lemma_term_position_unique(r2, t, k);
        } else {
            assert(r2[r.len() as int].0 == t);
            lemma_term_position_unique(r2, t, r.len() as int);
        }
    } else {
        if p < r.len() {
            assert(r2[p] == r[p]);
            lemma_term_position_unique(r2, t, p);
        } else {
            let q = term_position(r2, t);
            if q < r2.len() {
                if q < r.len() {
                    if q == k {
                        assert(r2[q].0 == u);
                    } else {
                        assert(r2[q] == r[q]);
                    }
                } else {
                    assert(r2[q].0 == u);
                }
            }
        }
    }
}

proof fn lemma_add_scores_effect(s: ScoresModel, terms: Seq<Seq<char>>, w: nat, t: Seq<char>)
    requires
        distinct_terms(s),
        score_of(s, t) <= usize::MAX,
    ensures
        score_of(add_scores(s, terms, w), t) == capped((score_of(s, t) + w * occurrences(terms, t)) as int),
        has_term(add_scores(s, terms, w), t) <==> (has_term(s, t) || occurrences(terms, t) > 0),
        distinct_terms(add_scores(s, terms, w)),
    decreases terms.len(),
{
    lemma_add_scores_distinct(s, terms, w);
    if terms.len() == 0 {
        assert(w * 0 == 0) by (nonlinear_arith);
    } else {
        let prev = terms.drop_last();
        lemma_add_scores_effect(s, prev, w, t);
        let r = add_scores(s, prev, w);
        lemma_add_score_effect(r, terms.last(), w, t);
        let a = score_of(s, t) as int;
        let c = occurrences(prev, t) as int;
        assert(w * c >= 0) by (nonlinear_arith)
            requires
                c >= 0,
        ;
        if terms.last() == t {
            assert(w * (c + 1) == w * c + w) by (nonlinear_arith);
            lemma_capped_twice(a + w * c, w as int);
        } else {
            assert(occurrences(terms, t) == occurrences(prev, t));
        }
    }
}

/// Adding the terms of a text with weight `w` (its Korean, then its English
/// terms) raises each term's score by `w` for every time the term occurs
/// among them, saturating at `usize::MAX`; afterwards a term has a score
/// exactly when it had one before or occurs among them.
pub proof fn weighted_scores_add_weight_per_occurrence(
    s: ScoresModel,
    text: Seq<char>,
    tokens: Option<Seq<(Seq<char>, Seq<char>)>>,
    w: nat,
    t: Seq<char>,
)
    requires
        distinct_terms(s),
        score_of(s, t) <= usize::MAX,
    ensures
        ({
            let ts = korean_terms_of(text, tokens) + english_terms_of(text);
            &&& score_of(add_weighted(s, text, tokens, w), t) == capped((score_of(s, t) + w * occurrences(ts, t)) as int)
            &&& has_term(add_weighted(s, text, tokens, w), t) <==> (has_term(s, t) || occurrences(ts, t) > 0)
        }),
{
    let ko = korean_terms_of(text, tokens);
    let en = english_terms_of(text);
    lemma_add_scores_effect(s, ko, w, t);
    let s1 = add_scores(s, ko, w);
    lemma_add_scores_effect(s1, en, w, t);
    lemma_occurrences_concat(ko, en, t);
    let a = score_of(s, t) as int;
    let c1 = occurrences(ko, t) as int;
    let c2 = occurrences(en, t) as int;
    assert(w * c1 >= 0 && w * c2 >= 0) by (nonlinear_arith)
        requires
            c1 >= 0,
            c2 >= 0,
    ;
    assert(w * (c1 + c2) == w * c1 + w * c2) by (nonlinear_arith);
    lemma_capped_twice(a + w * c1, w * c2);
}

proof fn lemma_runs_flatten(s: Seq<char>, keep: spec_fn(char) -> bool)
    ensures
        runs(s, keep).flatten() =~= s.filter(keep),
        forall|k: int| 0 <= k < runs(s, keep).len() ==> (#[trigger] runs(s, keep)[k]).len() > 0,
        forall|k: int, q: int|
            0 <= k < runs(s, keep).len() && 0 <= q < runs(s, keep)[k].len() ==> keep(
                #[trigger] runs(s, keep)[k][q],
            ),
    decreases s.len(),
{
    reveal(Seq::filter);
    if s.len() == 0 {
        assert(runs(s, keep) =~= Seq::<Seq<char>>::empty());
    } else {
        let c = s.last();
        let prev = runs(s.drop_last(), keep);
        lemma_runs_flatten(s.drop_last(), keep);
        assert(s.drop_last().push(c) =~= s);
        s.drop_last().lemma_filter_push(c, keep);
        let cur = runs(s, keep);
        if !keep(c) {
            assert(cur == prev);
        } else if s.len() >= 2 && keep(s[s.len() - 2]) && prev.len() > 0 {
            let x = prev.last();
            assert(prev =~= prev.drop_last().push(x));
            assert(cur =~= prev.drop_last().push(x.push(c)));
            prev.drop_last().lemma_flatten_push(x);
            prev.drop_last().lemma_flatten_push(x.push(c));
            assert(cur.flatten() =~= prev.flatten().push(c));
            assert forall|k: int, q: int| 0 <= k < cur.len() && 0 <= q < cur[k].len() implies keep(
                #[trigger] cur[k][q],
            ) by {
                if k < prev.len() - 1 {
                    assert(cur[k] == prev[k]);
                } else if q < x.len() {
                    assert(cur[k][q] == prev[k][q]);
                }
            }
            assert forall|k: int| 0 <= k < cur.len() implies (#[trigger] cur[k]).len() > 0 by {
                if k < prev.len() - 1 {
                    assert(cur[k] == prev[k]);
                }
            }
        } else {
            prev.lemma_flatten_push(seq![c]);
            assert(cur.flatten() =~= prev.flatten().push(c));
            assert forall|k: int, q: int| 0 <= k < cur.len() && 0 <= q < cur[k].len() implies keep(
                #[trigger] cur[k][q],
            ) by {
                if k < prev.len() {
                    assert(cur[k] == prev[k]);
                }
            }
            assert forall|k: int| 0 <= k < cur.len() implies (#[trigger] cur[k]).len() > 0 by {
                if k < prev.len() {
                    assert(cur[k] == prev[k]);
                }
            }
        }
    }
}

/// The ASCII words of a text, put back together, are the text's ASCII
/// alphanumeric characters in order; every word is non-empty and made of
/// such characters only.
pub proof fn ascii_words_concatenate_to_the_alphanumerics(text: Seq<char>)
    ensures
        ascii_word_list(text).flatten() == text.filter(|c: char| is_word_char(c)),
        forall|k: int| 0 <= k < ascii_word_list(text).len() ==> (#[trigger] ascii_word_list(text)[k]).len() > 0,
        forall|k: int, q: int|
            0 <= k < ascii_word_list(text).len() && 0 <= q < ascii_word_list(text)[k].len() ==> is_word_char(
                #[trigger] ascii_word_list(text)[k][q],
            ),
{
    lemma_runs_flatten(text, |c: char| is_word_char(c));
}

proof fn lemma_runs_of_word(w: Seq<char>, keep: spec_fn(char) -> bool)
    requires
        w.len() > 0,
        forall|q: int| 0 <= q < w.len() ==> keep(#[trigger] w[q]),
    ensures
        runs(w, keep) =~= seq![w],
    decreases w.len(),
{
    if w.len() == 1 {
        assert(w.drop_last() =~= Seq::<char>::empty());
        assert(runs(w.drop_last(), keep) =~= Seq::<Seq<char>>::empty());
        assert(keep(w[0]));
        assert(w =~= seq![w.last()]);
    } else {
        lemma_runs_of_word(w.drop_last(), keep);
        assert(keep(w[w.len() - 2]));
        assert(w.drop_last().push(w.last()) =~= w);
    }
}

proof fn lemma_runs_after_separator(a: Seq<char>, sep: char, b: Seq<char>, keep: spec_fn(char) -> bool)
    requires
        !keep(sep),
        b.len() > 0,
        forall|q: int| 0 <= q < b.len() ==> keep(#[trigger] b[q]),
    ensures
        runs(a + seq![sep] + b, keep) =~= runs(a, keep).push(b),
    decreases b.len(),
{
    let x = a + seq![sep] + b;
    assert((a + seq![sep]).drop_last() =~= a);
    assert(runs(a + seq![sep], keep) == runs(a, keep));
    if b.len() == 1 {
        assert(x.drop_last() =~= a + seq![sep]);
        assert(x[x.len() - 2] == sep);
        assert(b =~= seq![x.last()]);
    } else {
        lemma_runs_after_separator(a, sep, b.drop_last(), keep);
        assert(x.drop_last() =~= a + seq![sep] + b.drop_last());
        assert(x[x.len() - 2] == b[b.len() - 2]);
        assert(b.drop_last().push(b.last()) =~= b);
    }
}

proof fn lemma_words_of_space_joined(ws: Seq<Seq<char>>)
    requires
        forall|k: int| 0 <= k < ws.len() ==> clean_word(#[trigger] ws[k]),
    ensures
        whitespace_words(space_joined(ws)) == ws,
    decreases ws.len(),
{
    let keep = |c: char| not_whitespace(c);
    if ws.len() == 0 {
        assert(whitespace_words(space_joined(ws)) =~= ws);
    } else if ws.len() == 1 {
        assert(clean_word(ws[0]));
        lemma_runs_of_word(ws[0], keep);
        assert(ws =~= seq![ws[0]]);
    } else {
        lemma_words_of_space_joined(ws.drop_last());
        assert(clean_word(ws[ws.len() - 1]));
        lemma_runs_after_separator(space_joined(ws.drop_last()), ' ', ws.last(), keep);
        assert(ws.drop_last().push(ws.last()) =~= ws);
    }
}

/// Splitting normalized text on whitespace gives back the words of the
/// text it was made from, in order.
pub proof fn normalized_text_keeps_the_words(text: Seq<char>)
    ensures
        whitespace_words(normalize_whitespace(text)) == whitespace_words(text),
{
    lemma_runs_clean(text);
    lemma_words_of_space_joined(whitespace_words(text));
}

/// The words of the search text (split on whitespace) are the words of the
/// lowercased title, description and body, joined with spaces, in order;
/// the search text is those words joined by single spaces.
pub proof fn search_text_is_the_lowercased_words(
    title: Seq<char>,
    description: Option<Seq<char>>,
    body: Seq<char>,
)
    ensures
        ({
            let joined = match description {
                Some(d) => title + seq![' '] + d + seq![' '] + body,
                None => title + seq![' '] + body,
            };
            let words = whitespace_words(unicode_lowercase(joined));
            &&& whitespace_words(search_text(title, description, body)) == words
            &&& search_text(title, description, body) == space_joined(words)
            &&& single_spaced(search_text(title, description, body))
        }),
{
    let joined = match description {
        Some(d) => title + seq![' '] + d + seq![' '] + body,
        None => title + seq![' '] + body,
    };
    normalized_text_keeps_the_words(unicode_lowercase(joined));
    normalized_text_is_single_spaced(unicode_lowercase(joined));
}

/// The terms a text contributes: its Korean, then its English terms.
pub open spec fn text_terms(text: Seq<char>, tokens: TokensModel) -> Seq<Seq<char>> {
    korean_terms_of(text, tokens) + english_terms_of(text)
}

/// The score of `t` in a post: 8 for each time it is among the title's
/// terms, 4 for each time among the description's, 1 for each time among
/// the body text's, saturating at `usize::MAX`.
pub open spec fn post_score(
    title: Seq<char>,
    description: Option<Seq<char>>,
    body_text: Seq<char>,
    ko: (TokensModel, TokensModel, TokensModel),
    t: Seq<char>,
) -> nat {
    let in_description = match description {
        Some(d) => occurrences(text_terms(d, ko.1), t),
        None => 0,
    };
    capped(
        (8 * occurrences(text_terms(title, ko.0), t) + 4 * in_description + occurrences(
            text_terms(body_text, ko.2),
            t,
        )) as int,
    )
}

proof fn lemma_post_scores_value(
    title: Seq<char>,
    description: Option<Seq<char>>,
    body_text: Seq<char>,
    ko: (TokensModel, TokensModel, TokensModel),
    t: Seq<char>,
)
    ensures
        score_of(post_scores(title, description, body_text, ko), t) == post_score(
            title,
            description,
            body_text,
            ko,
            t,
        ),
        has_term(post_scores(title, description, body_text, ko), t) <==> post_score(
            title,
            description,
            body_text,
            ko,
            t,
        ) > 0,
        distinct_terms(post_scores(title, description, body_text, ko)),
{
    let e = Seq::<(Seq<char>, nat)>::empty();
    post_scores_hold_each_term_once(title, description, body_text, ko);
    assert(distinct_terms(e));
    assert(score_of(e, t) == 0);
    assert(!has_term(e, t));
    weighted_scores_add_weight_per_occurrence(e, title, ko.0, 8, t);
    let s1 = add_weighted(e, title, ko.0, 8);
    let c1 = occurrences(text_terms(title, ko.0), t) as int;
    let c3 = occurrences(text_terms(body_text, ko.2), t) as int;
    lemma_add_scores_effect(e, korean_terms_of(title, ko.0), 8, t);
    lemma_add_scores_distinct(add_scores(e, korean_terms_of(title, ko.0), 8), english_terms_of(title), 8);
    assert(distinct_terms(s1));
    let s2 = match description {
        Some(d) => add_weighted(s1, d, ko.1, 4),
        None => s1,
    };
    let c2: int = match description {
        Some(d) => occurrences(text_terms(d, ko.1), t) as int,
        None => 0,
    };
    assert(c1 >= 0 && c2 >= 0 && c3 >= 0);
    assert(8 * c1 >= 0 && 4 * c2 >= 0) by (nonlinear_arith)
        requires
            c1 >= 0,
            c2 >= 0,
    ;
    match description {
        Some(d) => {
            weighted_scores_add_weight_per_occurrence(s1, d, ko.1, 4, t);
            lemma_add_scores_distinct(s1, korean_terms_of(d, ko.1), 4);
            lemma_add_scores_distinct(add_scores(s1, korean_terms_of(d, ko.1), 4), english_terms_of(d), 4);
            lemma_capped_twice(8 * c1, 4 * c2);
        },
        None => {},
    }
    assert(distinct_terms(s2));
    assert(score_of(s2, t) == capped(8 * c1 + 4 * c2));
    weighted_scores_add_weight_per_occurrence(s2, body_text, ko.2, 1, t);
    assert(1 * c3 == c3);
    lemma_capped_twice(8 * c1 + 4 * c2, c3);
}

/// `a` comes before `b` in dictionary order of characters: `a` is a proper
/// prefix of `b`, or at the first position where they differ `a` has the
/// smaller character.
pub open spec fn dictionary_before(a: Seq<char>, b: Seq<char>) -> bool {
    exists|m: int|
        0 <= m <= a.len() && m <= b.len() && #[trigger] a.take(m) == b.take(m) && ((m == a.len() && m
            < b.len()) || (m < a.len() && m < b.len() && a[m] < b[m]))
}

proof fn lemma_lex_less_is_dictionary_order(a: Seq<char>, b: Seq<char>)
    requires
        lex_less(a, b),
    ensures
        dictionary_before(a, b),
    decreases a.len(),
{
    if a.len() == 0 {
        assert(a.take(0) =~= b.take(0));
    } else if a[0] != b[0] {
        assert(a.take(0) =~= b.take(0));
    } else {
        lemma_lex_less_is_dictionary_order(a.drop_first(), b.drop_first());
        let m = choose|m: int|
            0 <= m <= a.drop_first().len() && m <= b.drop_first().len() && #[trigger] a.drop_first().take(m)
                == b.drop_first().take(m) && ((m == a.drop_first().len() && m < b.drop_first().len()) || (m
                < a.drop_first().len() && m < b.drop_first().len() && a.drop_first()[m] < b.drop_first()[m]));
        assert(a.take(m + 1) =~= seq![a[0]] + a.drop_first().take(m));
        assert(b.take(m + 1) =~= seq![b[0]] + b.drop_first().take(m));
        assert(a.take(m + 1) == b.take(m + 1));
    }
}

/// The terms of an index entry are the post's terms with a positive score
/// (`post_score`), each once, highest score first and ties in lexicographic
/// order of the term, cut at 180; its keywords are the first 24 of them.
pub proof fn entry_terms_are_the_ranked_post_terms(
    e: SearchEntry,
    doc: SearchDocument,
    ko: (TokensModel, TokensModel, TokensModel),
)
    requires
        is_entry_of(e, doc, ko),
    ensures
        ({
            let title = doc.title@;
            let description = opt_view(doc.description);
            let body_text = markdown_plain_text(doc.body_md@);
            let r = ranked(post_scores(title, description, body_text, ko));
            &&& strings_view(e.terms@) == first_n(terms_in_order(r), 180)
            &&& strings_view(e.keywords@) == first_n(strings_view(e.terms@), 24)
            &&& rank_sorted(r)
            &&& forall|i: int, j: int|
                0 <= i < j < r.len() ==> #[trigger] r[i].1 > #[trigger] r[j].1 || (r[i].1 == r[j].1
                    && dictionary_before(r[i].0, r[j].0))
            &&& forall|i: int, j: int| 0 <= i < j < r.len() ==> #[trigger] r[i].0 != #[trigger] r[j].0
            &&& forall|i: int|
                0 <= i < r.len() ==> (#[trigger] r[i]).1 == post_score(title, description, body_text, ko, r[i].0)
                    && r[i].1 > 0
            &&& forall|t: Seq<char>|
                #[trigger] post_score(title, description, body_text, ko, t) > 0 ==> terms_in_order(r).contains(t)
        }),
{
    let title = doc.title@;
    let description = opt_view(doc.description);
    let body_text = markdown_plain_text(doc.body_md@);
    let sc = post_scores(title, description, body_text, ko);
    let r = ranked(sc);
    let o = terms_in_order(r);
    post_scores_hold_each_term_once(title, description, body_text, ko);
    lemma_ranked(sc);
    assert(first_n(first_n(o, 180), 24) =~= first_n(o, 24));
    assert forall|i: int, j: int| 0 <= i < j < r.len() implies #[trigger] r[i].1 > #[trigger] r[j].1 || (
    r[i].1 == r[j].1 && dictionary_before(r[i].0, r[j].0)) by {
        assert(ranks_before(r[i], r[j]));
        if r[i].1 == r[j].1 {
            lemma_lex_less_is_dictionary_order(r[i].0, r[j].0);
        }
    }
    assert forall|i: int| 0 <= i < r.len() implies (#[trigger] r[i]).1 == post_score(
        title,
        description,
        body_text,
        ko,
        r[i].0,
    ) && r[i].1 > 0 by {
        assert(r.contains(r[i]));
        assert(sc.contains(r[i]));
        let k = choose|k: int| 0 <= k < sc.len() && sc[k] == r[i];
        lemma_term_position_unique(sc, r[i].0, k);
        lemma_post_scores_value(title, description, body_text, ko, r[i].0);
    }
    assert forall|i: int, j: int| 0 <= i < j < r.len() implies #[trigger] r[i].0 != #[trigger] r[j].0 by {
        if r[i].0 == r[j].0 {
            assert(r.contains(r[i]));
            assert(r.contains(r[j]));
            let ki = choose|k: int| 0 <= k < sc.len() && sc[k] == r[i];
            let kj = choose|k: int| 0 <= k < sc.len() && sc[k] == r[j];
            assert(ki == kj);
            assert(ranks_before(r[i], r[j]));
            lemma_lex_irreflexive(r[i].0);
        }
    }
    assert forall|t: Seq<char>| #[trigger] post_score(title, description, body_text, ko, t) > 0 implies o.contains(t) by {
        lemma_post_scores_value(title, description, body_text, ko, t);
        lemma_term_position(sc, t);
        let k = term_position(sc, t);
        assert(sc.contains(sc[k]));
        assert(r.contains(sc[k]));
        let i = choose|i: int| 0 <= i < r.len() && r[i] == sc[k];
        assert(o[i] == t);
    }
}

/// An entry's excerpt is cut from the plain text of the post's Markdown,
/// not from its source: two posts whose bodies have the same plain text get
/// the same excerpt, and the excerpt is that text with whitespace runs
/// collapsed to single spaces, cut after 180 characters with `…` added.
pub proof fn excerpt_comes_from_the_plain_text(
    e1: SearchEntry,
    doc1: SearchDocument,
    ko1: (TokensModel, TokensModel, TokensModel),
    e2: SearchEntry,
    doc2: SearchDocument,
    ko2: (TokensModel, TokensModel, TokensModel),
)
    requires
        is_entry_of(e1, doc1, ko1),
        is_entry_of(e2, doc2, ko2),
    ensures
        markdown_plain_text(doc1.body_md@) == markdown_plain_text(doc2.body_md@) ==> e1.excerpt@
            == e2.excerpt@,
        ({
            let n = normalize_whitespace(markdown_plain_text(doc1.body_md@));
            &&& n.len() <= 180 ==> e1.excerpt@ == n
            &&& n.len() > 180 ==> e1.excerpt@ == n.take(180).push('…')
        }),
{
}

/// An entry carries the post's title, URL, date and description as they
/// are, and its search text is the lowercased words of the title, the
/// description (when there is one) and the body's plain text, in that
/// order, joined by single spaces.
pub proof fn entry_carries_the_post_and_its_words(
    e: SearchEntry,
    doc: SearchDocument,
    ko: (TokensModel, TokensModel, TokensModel),
)
    requires
        is_entry_of(e, doc, ko),
    ensures
        e.title@ == doc.title@,
        e.url@ == doc.url@,
        e.date@ == doc.date@,
        doc.description is None ==> e.description is None,
        doc.description matches Some(d) ==> (e.description matches Some(x) && x@ == d@),
        ({
            let body_text = markdown_plain_text(doc.body_md@);
            let joined = match doc.description {
                Some(d) => doc.title@ + seq![' '] + d@ + seq![' '] + body_text,
                None => doc.title@ + seq![' '] + body_text,
            };
            let words = whitespace_words(unicode_lowercase(joined));
            &&& whitespace_words(e.search_text@) == words
            &&& e.search_text@ == space_joined(words)
        }),
{
    let body_text = markdown_plain_text(doc.body_md@);
    search_text_is_the_lowercased_words(doc.title@, opt_view(doc.description), body_text);
}

} // verus!
