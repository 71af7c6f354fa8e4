use chrono::{FixedOffset, Utc};
use ssg::new::{draft, draft_candidate_names, draft_dated, is_named_draft, run, ContentSection};

#[test]
fn creates_blog_draft_with_dated_filename_and_rfc3339_frontmatter() {
    let d = run("Hello World", Utc::now().timestamp()).unwrap();
    let content = &d.contents;
    assert!(content.contains("title = \"Hello World\""));
    assert!(content.contains("+++"));
    assert!(content.contains("math = false"));
    assert!(content.contains("+09:00"), "frontmatter should embed KST offset");
    let kst = FixedOffset::east_opt(9 * 3600).unwrap();
    let kst_today = Utc::now().with_timezone(&kst).format("%Y-%m-%d").to_string();
    let name = &d.file_name;
    assert!(
        name.starts_with(&kst_today),
        "filename {} should start with KST date {}",
        name,
        kst_today
    );
    assert!(name.contains("hello-world"));
    assert_eq!(d.section, ContentSection::Blog);
    assert_eq!(d.section.draft_dir(), "blog");
}

#[test]
fn draft_is_dated_in_kst_across_midnight() {
    // 2026-05-05T20:00:00Z is already 2026-05-06 in Korea.
    let d = draft(ContentSection::Translation, "Hello World", 1778011200).unwrap();
    assert_eq!(d.section, ContentSection::Translation);
    assert_eq!(d.file_name, "2026-05-06-hello-world.md");
    assert!(d.contents.contains("date = \"2026-05-06T05:00:00+09:00\""));
}

#[test]
fn draft_at_the_epoch_is_dated_nine_hours_later() {
    let d = run("Epoch", 0).unwrap();
    assert_eq!(d.file_name, "1970-01-01-epoch.md");
    assert!(d.contents.contains("date = \"1970-01-01T09:00:00+09:00\""));
}

#[test]
fn reading_beyond_chrono_range_gives_no_draft() {
    assert!(run("Too late", i64::MAX).is_none());
}

#[test]
fn creates_blog_and_translation_drafts_in_section_directories() {
    let blog = draft_dated(ContentSection::Blog, "Hello Blog", "2026-05-05", "2026-05-05T00:00:00+09:00");
    let translation = draft_dated(
        ContentSection::Translation,
        "Hello Translation",
        "2026-05-05",
        "2026-05-05T00:00:00+09:00",
    );
    assert_eq!(blog.section.draft_dir(), "blog");
    assert_eq!(translation.section.draft_dir(), "translations");
    assert!(blog.contents.contains("title = \"Hello Blog\""));
    assert!(translation.contents.contains("title = \"Hello Translation\""));
}

#[test]
fn escapes_quotes_in_title() {
    let d = draft_dated(ContentSection::Blog, "Say \"hi\"", "2026-05-05", "2026-05-05T00:00:00+09:00");
    assert!(d.contents.contains("title = \"Say \\\"hi\\\"\""));
}

#[test]
fn draft_file_is_exactly_front_matter() {
    let d = draft_dated(ContentSection::Blog, "Hello World", "2026-06-14", "2026-06-14T09:00:00+09:00");
    assert_eq!(d.file_name, "2026-06-14-hello-world.md");
    assert_eq!(
        d.contents,
        "+++\ntitle = \"Hello World\"\ndate = \"2026-06-14T09:00:00+09:00\"\nmath = false\n+++\n\n"
    );
}

#[test]
fn section_directories() {
    assert_eq!(ContentSection::Blog.published_dir(), "posts");
    assert_eq!(ContentSection::Translation.published_dir(), "translations");
    assert_eq!(ContentSection::Translation.draft_dir(), "translations");
}

#[test]
fn candidates_add_one_md_extension() {
    let (a, b) = draft_candidate_names("hello");
    assert_eq!(a, "hello");
    assert_eq!(b, "hello.md");
    let (_, b) = draft_candidate_names("hello.md.md");
    assert_eq!(b, "hello.md");
}

#[test]
fn draft_is_found_by_slug_or_stem() {
    let d = draft_dated(ContentSection::Translation, "Translated Thing", "2026-06-14", "2026-06-14T00:00:00+09:00");
    assert!(is_named_draft(&d.file_name, "translated-thing"));
    assert!(is_named_draft(&d.file_name, "2026-06-14-translated-thing"));
    assert!(!is_named_draft(&d.file_name, "thing-translated"));
    assert!(!is_named_draft("2026-06-14-translated-thing.txt", "translated-thing"));
    assert!(!is_named_draft(".md", ".md"));
}

#[test]
fn run_is_draft_in_the_blog_section() {
    for secs in [0i64, 1778011200, -86400, 8_000_000_000_000, 8_000_000_000_001] {
        let a = run("Same Title", secs);
        let b = draft(ContentSection::Blog, "Same Title", secs);
        match (a, b) {
            (Some(a), Some(b)) => {
                assert_eq!(a.section, b.section);
                assert_eq!(a.file_name, b.file_name);
                assert_eq!(a.contents, b.contents);
            }
            (None, None) => {}
            _ => panic!("run and draft disagree at {secs}"),
        }
    }
}

#[test]
fn reading_at_the_datable_edge_is_dated_without_panic() {
    assert!(run("Edge", 8_000_000_000_000).is_some());
    assert!(run("Edge", -8_000_000_000_000).is_some());
    assert!(run("Past", 8_000_000_000_001).is_none());
    // 262143-12-31T23:00:00Z: past the edge, refused rather than panicking.
    assert!(run("Far", 8_210_298_409_200).is_none());
}

#[test]
fn leap_days_and_the_last_four_digit_year_are_dated_in_kst() {
    let d = run("Leap", 951782400).unwrap();
    assert_eq!(d.file_name, "2000-02-29-leap.md");
    assert!(d.contents.contains("date = \"2000-02-29T09:00:00+09:00\""));
    let d = run("Last", 253402214399).unwrap();
    assert_eq!(d.file_name, "9999-12-31-last.md");
    assert!(d.contents.contains("date = \"9999-12-31T08:59:59+09:00\""));
}
