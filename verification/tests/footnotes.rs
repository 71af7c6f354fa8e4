use ssg::footnotes::enhance_footnotes;
use ssg::highlight::{highlight_code, html_escape};

#[test]
fn html_without_references_is_unchanged() {
    let html = "<p>plain <a href=\"#x\">text</a></p>\n";
    assert_eq!(enhance_footnotes(html), html);
}

#[test]
fn reference_gets_id_and_label() {
    let html = "<p>A<sup class=\"footnote-reference\"><a href=\"#n\">1</a></sup></p>\n";
    assert_eq!(
        enhance_footnotes(html),
        "<p>A<sup class=\"footnote-reference\" id=\"fnref-n\"><a href=\"#n\" aria-label=\"각주 1 보기\">[1]</a></sup></p>\n"
    );
}

#[test]
fn definition_links_back_to_every_reference() {
    let html = [
        "<p>A<sup class=\"footnote-reference\"><a href=\"#n\">1</a></sup>",
        "B<sup class=\"footnote-reference\"><a href=\"#n\">1</a></sup></p>\n",
        "<div class=\"footnote-definition\" id=\"n\"><sup class=\"footnote-definition-label\">1</sup>\n",
        "<p>Text</p>\n</div>\n",
    ]
    .join("");
    let expected = [
        "<p>A<sup class=\"footnote-reference\" id=\"fnref-n\"><a href=\"#n\" aria-label=\"각주 1 보기\">[1]</a></sup>",
        "B<sup class=\"footnote-reference\" id=\"fnref-n-2\"><a href=\"#n\" aria-label=\"각주 1 보기\">[1]</a></sup></p>\n",
        "<div class=\"footnote-definition\" id=\"n\"><sup class=\"footnote-definition-label\"><a href=\"#fnref-n\" aria-label=\"본문 각주 1로 돌아가기\">1</a></sup>\n",
        "<p>Text <span class=\"footnote-backrefs\"><a class=\"footnote-backref\" href=\"#fnref-n\" aria-label=\"본문 각주 1로 돌아가기\">본문으로 돌아가기 ↑</a>",
        " <a class=\"footnote-backref footnote-backref-extra\" href=\"#fnref-n-2\" aria-label=\"본문 각주 1의 2번째 참조로 돌아가기\">↑2</a></span></p>\n</div>\n",
    ]
    .join("");
    assert_eq!(enhance_footnotes(&html), expected);
}

#[test]
fn tenth_reference_has_two_digit_ordinal() {
    let one = "<sup class=\"footnote-reference\"><a href=\"#n\">1</a></sup>";
    let html = one.repeat(10);
    let out = enhance_footnotes(&html);
    assert!(out.contains("id=\"fnref-n-10\""));
    assert!(out.contains("id=\"fnref-n-9\""));
}

#[test]
fn unterminated_reference_is_kept() {
    let html = "x<sup class=\"footnote-reference\"><a href=\"#n";
    assert_eq!(enhance_footnotes(html), html);
}

#[test]
fn escapes_markup_characters() {
    assert_eq!(html_escape("a < b && c > d"), "a &lt; b &amp;&amp; c &gt; d");
    assert_eq!(html_escape("plain"), "plain");
}

#[test]
fn highlights_rust_and_plain_text() {
    let rust = highlight_code("fn main() {}\n", "rust");
    assert!(rust.starts_with("<pre"));
    assert!(rust.contains("style=\""));
    let plain = highlight_code("<b>\n", "no-such-language");
    assert!(plain.starts_with("<pre"));
    assert!(plain.contains("&lt;b&gt;"));
}

#[test]
fn third_reference_is_numbered_three() {
    let html = [
        "<p>A<sup class=\"footnote-reference\"><a href=\"#n\">1</a></sup> ",
        "B<sup class=\"footnote-reference\"><a href=\"#n\">1</a></sup> ",
        "C<sup class=\"footnote-reference\"><a href=\"#n\">1</a></sup></p>\n",
        "<div class=\"footnote-definition\" id=\"n\"><sup class=\"footnote-definition-label\">1</sup>\n",
        "<p>text</p>\n</div>\n",
    ]
    .concat();
    let out = enhance_footnotes(&html);
    assert!(out.starts_with(
        "<p>A<sup class=\"footnote-reference\" id=\"fnref-n\"><a href=\"#n\" aria-label=\"각주 1 보기\">[1]</a></sup> B"
    ));
    assert!(out.contains("<sup class=\"footnote-reference\" id=\"fnref-n-2\"><a href=\"#n\" aria-label=\"각주 1 보기\">[1]</a></sup> C"));
    assert!(out.contains("<sup class=\"footnote-reference\" id=\"fnref-n-3\"><a href=\"#n\" aria-label=\"각주 1 보기\">[1]</a></sup></p>"));
    assert_eq!(out.matches("본문으로 돌아가기").count(), 1);
    assert!(out.contains("href=\"#fnref-n-2\""));
    assert!(out.contains(">↑2</a>"));
    assert!(out.contains("href=\"#fnref-n-3\""));
    assert!(out.contains(">↑3</a></span></p>"));
}
