use ssg::markdown::{cjk_friendly_emphasis, render};

#[test]
fn renders_paragraph_with_bold() {
    let html = render("Hello **world**");
    assert!(html.contains("<strong>world</strong>"));
}

#[test]
fn renders_footnote_definition() {
    let html = render("Note[^1].\n\n[^1]: Footnote text");
    assert!(html.contains("footnote-definition"));
}

#[test]
fn footnotes_link_both_ways() {
    let html = render("Note[^note].\n\n[^note]: Footnote text");
    assert!(html.contains(r##"id="fnref-note""##));
    assert!(html.contains(r##"href="#note""##));
    assert!(html.contains(r##"href="#fnref-note""##));
    assert!(html.contains(r##"footnote-definition-label"><a href="#fnref-note""##));
    assert!(html.contains("[1]"));
    assert!(html.contains("본문으로 돌아가기"));
}

#[test]
fn repeated_footnote_refs_have_one_backlink() {
    let html = render("One[^note]. Two[^note].\n\n[^note]: Footnote text");

    assert_eq!(html.matches("본문으로 돌아가기").count(), 1);
    assert_eq!(html.matches(r##"id="fnref-note""##).count(), 1);
    assert_eq!(html.matches(r##"id="fnref-note-2""##).count(), 1);
    assert_eq!(html.matches(r##"href="#note" aria-label="각주 1 보기">[1]"##).count(), 2);
    assert!(html.contains(r##"href="#fnref-note-2""##));
    assert!(html.contains(">↑2</a>"));
}

#[test]
fn renders_bold_when_closing_delim_is_punct_then_cjk() {
    for input in [
        "**페이지 테이블(Page Table)**부터 등장한다.",
        "이것은 **가상 메모리(Virtual Memory)**라는 아이디어다.",
    ] {
        let html = render(input);
        assert!(html.contains("<strong>"), "no <strong> for {input:?}: {html}");
        assert!(html.contains("</strong>"), "no </strong> for {input:?}: {html}");
        assert!(!html.contains("**"), "literal ** leaked for {input:?}: {html}");
    }
}

#[test]
fn cjk_fix_does_not_touch_inline_code() {
    let html = render("`a)**b`를 보라");
    assert!(html.contains("<code>"), "got: {html}");
    assert!(html.contains("**"), "inline code asterisks were altered: {html}");
    assert!(!html.contains("<strong>"), "got: {html}");
}

#[test]
fn cjk_fix_preserves_plain_ascii_bold() {
    let html = render("Hello **world** and `code`");
    assert!(html.contains("<strong>world</strong>"), "got: {html}");
}

#[test]
fn passes_inline_math_through() {
    let html = render("Inline $a^2 + b^2$ here");
    assert!(html.contains("$a^2 + b^2$"));
}

#[test]
fn passes_display_math_through() {
    let html = render("$$\\int x dx$$");
    assert!(html.contains("$$"));
    assert!(html.contains("\\int"));
}

#[test]
fn renders_image_tag() {
    let html = render("![alt text](/foo.png)");
    assert!(html.contains("<img"));
    assert!(html.contains("/foo.png"));
    assert!(html.contains("alt text"));
}

#[test]
fn highlights_known_language_code_block() {
    let md = "```rust\nfn main() {}\n```";
    let html = render(md);
    assert!(html.contains("<pre"));
    assert!(html.contains("style=\""), "syntect should emit inline style");
    assert!(html.contains("fn"));
    assert!(html.contains("main"));
}

#[test]
fn renders_unknown_language_as_plain_pre() {
    let md = "```xyzlang\nhello world\n```";
    let html = render(md);
    assert!(html.contains("<pre"));
    assert!(html.contains("hello world"));
}

#[test]
fn zero_width_space_goes_between_punctuation_and_run() {
    assert_eq!(
        cjk_friendly_emphasis("**가상 메모리(Virtual Memory)**라는"),
        "**가상 메모리(Virtual Memory)\u{200B}**라는"
    );
    assert_eq!(cjk_friendly_emphasis("어**(괄호)**"), "어**\u{200B}(괄호)**");
}

#[test]
fn escaped_and_plain_runs_are_left_alone() {
    assert_eq!(cjk_friendly_emphasis("a)\\**라"), "a)\\**라");
    assert_eq!(cjk_friendly_emphasis("Hello **world**"), "Hello **world**");
}

#[test]
fn code_is_copied_verbatim() {
    let fenced = "```\n)**라\n```\n)**라";
    assert_eq!(cjk_friendly_emphasis(fenced), "```\n)**라\n```\n)\u{200B}**라");
    assert_eq!(cjk_friendly_emphasis("    )**라"), "    )**라");
    assert_eq!(cjk_friendly_emphasis("\t)**라"), "\t)**라");
    assert_eq!(cjk_friendly_emphasis("`)**라` )**라"), "`)**라` )\u{200B}**라");
}

#[test]
fn unclosed_backtick_run_is_plain_text() {
    assert_eq!(cjk_friendly_emphasis("``)**라`"), "``)\u{200B}**라`");
}

#[test]
fn longer_fence_needs_longer_close() {
    let md = "````\n```\n)**라\n````\n)**라";
    assert_eq!(
        cjk_friendly_emphasis(md),
        "````\n```\n)**라\n````\n)\u{200B}**라"
    );
}

#[test]
fn removing_zero_width_spaces_gives_back_the_input() {
    let md = "이것은 **가상 메모리(Virtual Memory)**라는 `a)**b` 어**(x)** _(y)_다";
    let out = cjk_friendly_emphasis(md);
    assert_eq!(out.replace('\u{200B}', ""), md);
    assert!(out.contains('\u{200B}'));
}

#[test]
fn indented_fence_opener_is_not_a_fence() {
    // Four spaces of indentation: an indented code line, not a fence.
    let md = "    ```\n)**라";
    assert_eq!(cjk_friendly_emphasis(md), "    ```\n)\u{200B}**라");
}

#[test]
fn text_without_delimiters_is_unchanged() {
    let md = "# 제목\n\n(괄호)가 있는 문장。 [link](/x) `code`\n    indented";
    assert_eq!(cjk_friendly_emphasis(md), md);
}

#[test]
fn code_span_across_lines_is_left_untouched() {
    assert_eq!(cjk_friendly_emphasis("`x\n)**가`"), "`x\n)**가`");
    assert_eq!(cjk_friendly_emphasis("a `x\n)**가` )**가"), "a `x\n)**가` )\u{200B}**가");
}

#[test]
fn blank_line_ends_the_paragraph_of_a_code_span() {
    assert_eq!(cjk_friendly_emphasis("`x\n\n)**가`"), "`x\n\n)\u{200B}**가`");
}

#[test]
fn line_count_is_kept() {
    let md = "첫 줄 **(가)**나\n\n`x\ny` )**라\n```\n)**라\n```\n";
    let out = cjk_friendly_emphasis(md);
    assert_eq!(out.split('\n').count(), md.split('\n').count());
    assert_eq!(out.replace('\u{200B}', ""), md);
}

#[test]
fn second_pass_changes_nothing() {
    for md in [
        "**가상 메모리(Virtual Memory)**라는",
        "어**(괄호)**",
        "가*_가 )**라 가**)",
        "`x\n)**가` 가__(나)__다",
    ] {
        let once = cjk_friendly_emphasis(md);
        assert_eq!(cjk_friendly_emphasis(&once), once, "{md}");
    }
}

#[test]
fn list_items_and_headings_end_a_paragraph() {
    assert_eq!(
        cjk_friendly_emphasis("- `x\n- **메모리(Memory)**라는 `code`"),
        "- `x\n- **메모리(Memory)\u{200B}**라는 `code`"
    );
    assert_eq!(cjk_friendly_emphasis("# a `x\ny` )**라"), "# a `x\ny` )\u{200B}**라");
    assert_eq!(cjk_friendly_emphasis("> `x\n> )**라`"), "> `x\n> )\u{200B}**라`");
    assert_eq!(cjk_friendly_emphasis("1. `x\n2) )**라`"), "1. `x\n2) )\u{200B}**라`");
    assert_eq!(cjk_friendly_emphasis("a `x\n***\n)**라`"), "a `x\n***\n)\u{200B}**라`");
}

#[test]
fn list_item_continuation_keeps_its_code_span() {
    assert_eq!(cjk_friendly_emphasis("- a `x\n  )**라`"), "- a `x\n  )**라`");
}
