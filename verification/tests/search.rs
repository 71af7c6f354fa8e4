use ssg::search::{
    ascii_words, build_entry, build_search_entries, build_search_entry, english_terms, excerpt,
    is_hangul, is_stopword, korean_terms, korean_terms_of_text, markdown_text, searchable_text,
    KoreanAnalysis, KoreanAnalyzer, SearchError,
    KoreanToken, SearchDocument, SearchEntry,
};

fn doc(body: &str) -> SearchDocument {
    SearchDocument {
        title: "Tail Latency".into(),
        url: "/posts/latency-test/".into(),
        date: "2026-05-17".into(),
        description: Some("Queueing and system delay".into()),
        body_md: body.into(),
    }
}

/// The Korean post of the search tests.
fn post() -> SearchDocument {
    SearchDocument {
        title: "꼬리 지연과 Tail Latency".into(),
        url: "/posts/latency-test/".into(),
        date: "2026-05-17".into(),
        description: Some("큐 대기와 시스템 지연을 설명합니다".into()),
        body_md: "지연이 커지면 큐가 쌓이고 requests are delayed.".into(),
    }
}

/// Every text of an entry, one after the other.
fn entry_text(e: &SearchEntry) -> String {
    let mut all = vec![e.title.clone(), e.url.clone(), e.date.clone()];
    all.extend(e.description.clone());
    all.push(e.excerpt.clone());
    all.extend(e.keywords.iter().map(|k| format!("\"{k}\"")));
    all.extend(e.terms.iter().map(|t| format!("\"{t}\"")));
    all.push(e.search_text.clone());
    all.join(" ")
}

fn no_korean() -> KoreanAnalysis {
    KoreanAnalysis { title: None, description: None, body: None }
}

#[test]
fn extracts_plain_text_from_markdown() {
    let text = markdown_text("Hello **world**\n\n`latency` [link](https://example.com)");

    assert!(text.contains("Hello"));
    assert!(text.contains("world"));
    assert!(text.contains("latency"));
    assert!(!text.contains("https://example.com"));
}

#[test]
fn plain_text_joins_pieces_with_spaces() {
    assert_eq!(markdown_text("Hello **world**\n\n`code`"), "Hello  world code");
}

#[test]
fn ascii_words_are_maximal_alphanumeric_runs() {
    assert_eq!(
        ascii_words("참고: https://example.com/docs v2"),
        vec!["https", "example", "com", "docs", "v2"]
    );
    assert!(ascii_words("한국어만").is_empty());
}

#[test]
fn english_terms_skip_stopwords_and_add_stems() {
    let terms: Vec<String> = english_terms("The Invariants of https://example.com")
        .into_iter()
        .map(|t| t.into_iter().collect())
        .collect();
    assert_eq!(terms, vec!["invariants", "invari", "example", "exampl"]);
}

#[test]
fn korean_terms_keep_nouns_with_hangul() {
    let tokens = Some(vec![
        KoreanToken { surface: " 지연 ".into(), pos: "NNG".into() },
        KoreanToken { surface: "이".into(), pos: "NNG".into() },
        KoreanToken { surface: "커지면".into(), pos: "VV".into() },
        KoreanToken { surface: "latency".into(), pos: "SL".into() },
        KoreanToken { surface: "시스템".into(), pos: "NNP".into() },
    ]);
    let terms: Vec<String> = korean_terms("지연이 커지면 시스템", &tokens)
        .into_iter()
        .map(|t| t.into_iter().collect())
        .collect();
    assert_eq!(terms, vec!["지연", "시스템"]);
    assert!(korean_terms("no hangul here", &tokens).is_empty());
    assert!(korean_terms("지연", &None).is_empty());
}

#[test]
fn hangul_range() {
    assert!(is_hangul('가'));
    assert!(is_hangul('힣'));
    assert!(!is_hangul('ㄱ'));
    assert!(!is_hangul('a'));
}

#[test]
fn excerpt_normalizes_and_cuts() {
    assert_eq!(excerpt("  a \n b  ", 180), "a b");
    assert_eq!(excerpt("abcdef", 3), "abc…");
    assert_eq!(excerpt("abc", 3), "abc");
}

#[test]
fn searchable_text_lowercases_and_collapses() {
    assert_eq!(
        searchable_text("Tail  Latency", Some("Queue\tDelay"), " Body  TEXT "),
        "tail latency queue delay body text"
    );
    assert_eq!(searchable_text("A", None, "B"), "a b");
}

#[test]
fn builds_entry_with_ranked_terms() {
    let entry = build_entry(&doc("requests are delayed. Latency latency."), &no_korean());
    assert_eq!(entry.url, "/posts/latency-test/");
    assert_eq!(entry.title, "Tail Latency");
    assert_eq!(entry.date, "2026-05-17");
    // "latency" and its stem "latenc" both weigh 8 (title) + 2 (body):
    // the tie is broken alphabetically.
    assert_eq!(entry.keywords[0], "latenc");
    assert_eq!(entry.keywords[1], "latency");
    assert!(entry.terms.contains(&"latenc".to_string()));
    assert!(entry.terms.contains(&"tail".to_string()));
    assert!(entry.terms.contains(&"delayed".to_string()));
    assert_eq!(entry.excerpt, "requests are delayed. Latency latency.");
    assert_eq!(
        entry.search_text,
        "tail latency queueing and system delay requests are delayed. latency latency."
    );
}

#[test]
fn ties_are_broken_alphabetically() {
    let d = SearchDocument {
        title: "zeta alpha".into(),
        url: "/u/".into(),
        date: "d".into(),
        description: None,
        body_md: "".into(),
    };
    let entry = build_entry(&d, &no_korean());
    assert_eq!(entry.keywords, vec!["alpha", "zeta"]);
}

/// The entries of `docs` when the ko-dic dictionary loads; otherwise checks
/// that building them fails as it should and gives `None`.
fn entries_or_dictionary_error(docs: Vec<SearchDocument>) -> Option<Vec<SearchEntry>> {
    match build_search_entries(&docs) {
        Ok(es) => {
            assert!(KoreanAnalyzer::new().is_ok());
            assert_eq!(es.len(), docs.len());
            Some(es)
        }
        Err(e) => {
            assert_eq!(e, SearchError::DictionaryUnavailable);
            assert!(KoreanAnalyzer::new().is_err());
            None
        }
    }
}

#[test]
fn builds_search_json_with_korean_and_english_terms() {
    let Some(entries) = entries_or_dictionary_error(vec![post()]) else {
        return;
    };
    let json = entry_text(&entries[0]);
    assert!(json.contains("꼬리"));
    assert!(json.contains("지연"));
    assert!(json.contains("latency"));
    assert!(json.contains("latenc"));
    assert!(json.contains("/posts/latency-test/"));
}

#[test]
fn does_not_promote_url_protocol_parts() {
    let mut sample = post();
    sample.body_md = "참고: <https://example.com/docs/search>".into();
    let Some(entries) = entries_or_dictionary_error(vec![sample]) else {
        return;
    };
    let json = entry_text(&entries[0]);
    assert!(!json.contains("\"https\""));
    assert!(!json.contains("\"com\""));
}

#[test]
fn keeps_deep_english_body_terms_searchable() {
    let mut sample = post();
    sample.body_md = format!("{} Invariants define correctness.", "noise ".repeat(240));
    let Some(entries) = entries_or_dictionary_error(vec![sample]) else {
        return;
    };
    assert!(entries[0].search_text.contains("invariants"));
    assert!(entries[0].terms.contains(&"invariants".to_string()));
}

#[test]
fn missing_dictionary_is_an_error_not_empty_entries() {
    let result = build_search_entries(&vec![post(), doc("x")]);
    assert_eq!(result.is_ok(), KoreanAnalyzer::new().is_ok());
}

#[test]
fn entries_come_in_document_order() {
    let mut second = post();
    second.url = "/posts/second/".into();
    let Some(entries) = entries_or_dictionary_error(vec![post(), second]) else {
        return;
    };
    assert_eq!(entries[0].url, "/posts/latency-test/");
    assert_eq!(entries[1].url, "/posts/second/");
}

#[test]
fn url_protocol_parts_are_not_terms_with_given_tokens() {
    let entry = build_entry(&doc("참고: <https://example.com/docs/search>"), &no_korean());
    assert!(!entry.terms.contains(&"https".to_string()));
    assert!(!entry.terms.contains(&"com".to_string()));
    assert!(!entry.keywords.contains(&"https".to_string()));
    assert!(!entry.keywords.contains(&"com".to_string()));
}

#[test]
fn korean_post_entry_keeps_its_fields_and_english_terms() {
    let Ok(analyzer) = KoreanAnalyzer::new() else {
        return;
    };
    let entry = build_search_entry(&post(), &analyzer);
    assert_eq!(entry.title, "꼬리 지연과 Tail Latency");
    assert_eq!(entry.description.as_deref(), Some("큐 대기와 시스템 지연을 설명합니다"));
    assert_eq!(entry.excerpt, "지연이 커지면 큐가 쌓이고 requests are delayed.");
    assert_eq!(
        entry.search_text,
        "꼬리 지연과 tail latency 큐 대기와 시스템 지연을 설명합니다 지연이 커지면 큐가 쌓이고 requests are delayed."
    );
    for t in ["tail", "latency", "latenc", "requests", "request", "delayed", "delay"] {
        assert!(entry.terms.contains(&t.to_string()), "{t}");
    }
}

#[test]
fn korean_post_entry_without_korean_tokens() {
    let entry = build_entry(&post(), &no_korean());
    assert_eq!(entry.title, "꼬리 지연과 Tail Latency");
    assert_eq!(
        entry.search_text,
        "꼬리 지연과 tail latency 큐 대기와 시스템 지연을 설명합니다 지연이 커지면 큐가 쌓이고 requests are delayed."
    );
    for t in ["tail", "latency", "latenc", "requests", "request", "delayed", "delay"] {
        assert!(entry.terms.contains(&t.to_string()), "{t}");
    }
}

#[test]
fn korean_terms_of_text_are_hangul_nouns_of_the_text() {
    let Ok(analyzer) = KoreanAnalyzer::new() else {
        return;
    };
    assert!(korean_terms_of_text(&analyzer, "no hangul here").is_empty());
    let text = "지연이 커지면 큐가 쌓이고 requests are delayed.";
    for t in korean_terms_of_text(&analyzer, text) {
        let t: String = t.into_iter().collect();
        assert!(t.chars().count() >= 2);
        assert!(t.chars().any(is_hangul));
        assert!(text.contains(&t));
    }
}

#[test]
fn each_term_is_listed_once() {
    let entry = build_entry(
        &doc("latency latency Latency tail Tail queueing queueing"),
        &no_korean(),
    );
    let mut seen = std::collections::HashSet::new();
    for t in &entry.terms {
        assert!(seen.insert(t.clone()), "{t} listed twice");
    }
}

#[test]
fn korean_terms_add_to_scores() {
    let d = SearchDocument {
        title: "꼬리 지연".into(),
        url: "/posts/x/".into(),
        date: "d".into(),
        description: None,
        body_md: "지연".into(),
    };
    let ko = KoreanAnalysis {
        title: Some(vec![
            KoreanToken { surface: "꼬리".into(), pos: "NNG".into() },
            KoreanToken { surface: "지연".into(), pos: "NNG".into() },
        ]),
        description: None,
        body: Some(vec![KoreanToken { surface: "지연".into(), pos: "NNG".into() }]),
    };
    let entry = build_entry(&d, &ko);
    // 지연: 8 + 1, 꼬리: 8
    assert_eq!(entry.keywords, vec!["지연", "꼬리"]);
}

#[test]
fn keywords_are_capped_at_24() {
    let words: Vec<String> = (0..40).map(|i| format!("word{i:02}")).collect();
    let entry = build_entry(&doc(&words.join(" ")), &no_korean());
    assert_eq!(entry.keywords.len(), 24);
    assert!(entry.terms.len() > 24);
}

#[test]
fn stopwords_cover_url_parts() {
    for w in ["https", "http", "www", "com", "org", "net", "io", "the", "with"] {
        assert!(is_stopword(w), "{w}");
    }
    assert!(!is_stopword("latency"));
    assert!(!is_stopword("The"));
}

#[test]
fn ascii_words_put_together_are_the_alphanumerics() {
    let text = "참고: https://example.com/docs v2, x_y!";
    let joined: String = ascii_words(text).concat();
    let filtered: String = text.chars().filter(|c| c.is_ascii_alphanumeric()).collect();
    assert_eq!(joined, filtered);
}

#[test]
fn search_text_words_are_the_lowercased_words_in_order() {
    let r = searchable_text(" Tail\tLatency ", Some("큐 대기"), "Body\n\nTEXT  end");
    let words: Vec<&str> = r.split_whitespace().collect();
    assert_eq!(words, vec!["tail", "latency", "큐", "대기", "body", "text", "end"]);
    assert_eq!(r, words.join(" "));
}

#[test]
fn repeated_terms_add_their_weight_each_time() {
    let d = SearchDocument {
        title: "alpha".into(),
        url: "/u/".into(),
        date: "d".into(),
        description: Some("beta beta".into()),
        body_md: "gamma gamma gamma beta".into(),
    };
    let entry = build_entry(&d, &no_korean());
    // beta: 4 + 4 + 1 = 9, alpha: 8, gamma: 1 + 1 + 1 = 3
    assert_eq!(entry.keywords, vec!["beta", "alpha", "gamma"]);
}
