//! Code-block highlighting with syntect's default syntaxes and the
//! `InspiredGitHub` theme, falling back to an escaped `<pre><code>` block.
use vstd::prelude::*;
use crate::text::{chars_to_string, push_str, str_to_chars};

verus! {

/// Whether syntect's default syntax set (the newline variant) has a syntax
/// for the code-fence token `lang`.
pub uninterp spec fn syntect_knows_token(lang: Seq<char>) -> bool;

/// What syntect's `highlighted_html_for_string` gives for `code` with the
/// syntax found for the token `lang` and the `InspiredGitHub` theme
/// (`None` for an error).
pub uninterp spec fn syntect_token_html(code: Seq<char>, lang: Seq<char>) -> Option<Seq<char>>;

/// What syntect's `highlighted_html_for_string` gives for `code` with the
/// plain-text syntax and the `InspiredGitHub` theme (`None` for an error).
pub uninterp spec fn syntect_plain_html(code: Seq<char>) -> Option<Seq<char>>;

/// `SyntaxSet::find_syntax_by_token` on the default syntax set
/// (`load_defaults_newlines`), asked only whether a syntax was found. Its
/// result depends on the token alone.
#[verifier::external_body]
fn has_syntax_for_token(lang: &str) -> (r: bool)
    ensures
        r == syntect_knows_token(lang@),
{
    syntect::parsing::SyntaxSet::load_defaults_newlines().find_syntax_by_token(lang).is_some()
}

/// `syntect::html::highlighted_html_for_string` with the syntax that
/// `find_syntax_by_token(lang)` finds in the default syntax set and the
/// default `InspiredGitHub` theme; an error becomes `None`. The result depends
/// on `code` and `lang` alone; what the HTML looks like is left unsaid.
#[verifier::external_body]
fn highlight_with_token(code: &str, lang: &str) -> (r: Option<String>)
    requires
        syntect_knows_token(lang@),
    ensures
        r matches Some(h) ==> syntect_token_html(code@, lang@) == Some(h@),
        r is None ==> syntect_token_html(code@, lang@) is None,
{
    let ss = syntect::parsing::SyntaxSet::load_defaults_newlines();
    let ts = syntect::highlighting::ThemeSet::load_defaults();
    let syntax = ss.find_syntax_by_token(lang).unwrap();
    syntect::html::highlighted_html_for_string(code, &ss, syntax, &ts.themes["InspiredGitHub"]).ok()
}

/// `syntect::html::highlighted_html_for_string` with the default syntax
/// set's plain-text syntax (`find_syntax_plain_text`) and the default
/// `InspiredGitHub` theme; an error becomes `None`. The result depends on
/// `code` alone; what the HTML looks like is left unsaid.
#[verifier::external_body]
fn highlight_plain(code: &str) -> (r: Option<String>)
    ensures
        r matches Some(h) ==> syntect_plain_html(code@) == Some(h@),
        r is None ==> syntect_plain_html(code@) is None,
{
    let ss = syntect::parsing::SyntaxSet::load_defaults_newlines();
    let ts = syntect::highlighting::ThemeSet::load_defaults();
    let syntax = ss.find_syntax_plain_text();
    syntect::html::highlighted_html_for_string(code, &ss, syntax, &ts.themes["InspiredGitHub"]).ok()
}

/// The escape of one character.
pub open spec fn escape_char(c: char) -> Seq<char> {
    if c == '&' {
        "&amp;"@
    } else if c == '<' {
        "&lt;"@
    } else if c == '>' {
        "&gt;"@
    } else {
        seq![c]
    }
}

/// `s` with `&`, `<` and `>` replaced by their character references.
pub open spec fn html_escaped(s: Seq<char>) -> Seq<char>
    decreases s.len(),
{
    if s.len() == 0 {
        Seq::<char>::empty()
    } else {
        html_escaped(s.drop_last()) + escape_char(s.last())
    }
}

/// Escapes `&`, `<` and `>`.
pub fn html_escape(s: &str) -> (r: String)
    ensures
        r@ == html_escaped(s@),
{
    let chars = str_to_chars(s);
    let mut out: Vec<char> = Vec::new();
    let mut i: usize = 0;
    while i < chars.len()
        invariant
            chars@ == s@,
            i <= chars.len(),
            out@ == html_escaped(chars@.take(i as int)),
        decreases chars.len() - i,
    {
        let c = chars[i];
        if c == '&' {
            push_str(&mut out, "&amp;");
        } else if c == '<' {
            push_str(&mut out, "&lt;");
        } else if c == '>' {
            push_str(&mut out, "&gt;");
        } else {
            out.push(c);
        }
        assert(chars@.take(i + 1).drop_last() =~= chars@.take(i as int));
        i = i + 1;
    }
    assert(chars@.take(chars.len() as int) =~= chars@);
    chars_to_string(&out)
}

/// Escaped text holds no `<` and no `>`.
pub proof fn escaped_text_has_no_angle_brackets(s: Seq<char>)
    ensures
        forall|k: int|
            0 <= k < html_escaped(s).len() ==> #[trigger] html_escaped(s)[k] != '<'
                && html_escaped(s)[k] != '>',
    decreases s.len(),
{
    reveal_strlit("&amp;");
    reveal_strlit("&lt;");
    reveal_strlit("&gt;");
    if s.len() > 0 {
        escaped_text_has_no_angle_brackets(s.drop_last());
        let a = html_escaped(s.drop_last());
        let b = escape_char(s.last());
        assert forall|k: int| 0 <= k < (a + b).len() implies #[trigger] (a + b)[k] != '<' && (a
            + b)[k] != '>' by {
            if k >= a.len() {
                assert((a + b)[k] == b[k - a.len()]);
            }
        }
    }
}

/// The fallback block for code that syntect could not highlight.
pub open spec fn plain_code_block(code: Seq<char>) -> Seq<char> {
    "<pre><code>"@ + html_escaped(code) + "</code></pre>"@
}

/// The HTML for a code block with fence token `lang`: syntect's highlighting
/// with the syntax for `lang` (plain text when there is none), or the plain
/// escaped block when highlighting fails.
pub open spec fn highlighted_block(code: Seq<char>, lang: Seq<char>) -> Seq<char> {
    let attempt = if syntect_knows_token(lang) {
        syntect_token_html(code, lang)
    } else {
        syntect_plain_html(code)
    };
    match attempt {
        Some(h) => h,
        None => plain_code_block(code),
    }
}

pub fn highlight_code(code: &str, lang: &str) -> (r: String)
    ensures
        r@ == highlighted_block(code@, lang@),
{
    let attempt = if has_syntax_for_token(lang) {
        highlight_with_token(code, lang)
    } else {
        highlight_plain(code)
    };
    match attempt {
        Some(h) => h,
        None => {
            let mut out: Vec<char> = str_to_chars("<pre><code>");
            let escaped = html_escape(code);
            push_str(&mut out, escaped.as_str());
            push_str(&mut out, "</code></pre>");
            chars_to_string(&out)
        },
    }
}

/// A code block is syntect's highlighting with the syntax of its fence
/// token whenever syntect knows the token and highlights without error;
/// with the plain-text syntax when it does not know the token; and the
/// escaped `<pre><code>` block only when that highlighting fails.
pub proof fn code_blocks_use_the_syntax_of_their_token(code: Seq<char>, lang: Seq<char>)
    ensures
        syntect_knows_token(lang) ==> (syntect_token_html(code, lang) matches Some(h)
            ==> highlighted_block(code, lang) == h),
        syntect_knows_token(lang) ==> (syntect_token_html(code, lang) is None
            ==> highlighted_block(code, lang) == plain_code_block(code)),
        !syntect_knows_token(lang) ==> (syntect_plain_html(code) matches Some(h)
            ==> highlighted_block(code, lang) == h),
        !syntect_knows_token(lang) ==> (syntect_plain_html(code) is None
            ==> highlighted_block(code, lang) == plain_code_block(code)),
{
}

/// Escaping works character by character: escaping a concatenation is the
/// concatenation of the escapes, `&`, `<` and `>` become `&amp;`, `&lt;` and
/// `&gt;`, and every other character stays as it is.
pub proof fn escaping_replaces_each_special_character(a: Seq<char>, b: Seq<char>, c: char)
    ensures
        html_escaped(a + b) == html_escaped(a) + html_escaped(b),
        html_escaped(seq![c]) == if c == '&' {
            "&amp;"@
        } else if c == '<' {
            "&lt;"@
        } else if c == '>' {
            "&gt;"@
        } else {
            seq![c]
        },
    decreases b.len(),
{
    let one = seq![c];
    assert(one.len() == 1);
    assert(one.last() == c);
    assert(one.drop_last() =~= Seq::<char>::empty());
    assert(html_escaped(one.drop_last()) =~= Seq::<char>::empty());
    assert(html_escaped(one) == html_escaped(one.drop_last()) + escape_char(one.last()));
    assert(html_escaped(one) =~= escape_char(c));
    if b.len() == 0 {
        assert(a + b =~= a);
        assert(html_escaped(a) + html_escaped(b) =~= html_escaped(a));
    } else {
        escaping_replaces_each_special_character(a, b.drop_last(), c);
        assert((a + b).drop_last() =~= a + b.drop_last());
        assert((a + b).last() == b.last());
    }
}

} // verus!
