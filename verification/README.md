# ssg

The verified core of a small personal-blog static site generator.

- `src/markdown.rs` — the CJK-friendly emphasis pass over Markdown source, the
  code-block pass over pulldown-cmark's events, and `render`.
- `src/footnotes.rs` — footnote reference ids, labels and back-links in the
  rendered HTML.
- `src/highlight.rs` — code-block highlighting with syntect and the escaped
  fallback.
- `src/search.rs` — plain text, weighted Korean/English terms (the Korean
  ones from lindera's ko-dic analysis), ranking, excerpt and search text of a
  post's search-index entry.
- `src/new.rs` — draft file names and front matter dated in Korea Standard
  Time with chrono, and how a draft reference names a file.
- `src/site.rs` — the custom domain of a base URL.
- `src/text.rs` — character-sequence helpers.
- `app/` — the command line, the clock reading, the file system and JSON
  serialization.
