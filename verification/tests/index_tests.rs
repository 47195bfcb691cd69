use chat_search::engine::SearchApp;
use chat_search::index::{build_index, count_words};
use chat_search::search::{search_sentence, search_text, test_text, word_display};
use chat_search::Message;

fn msg(id: u64, contents: &str) -> Message {
    Message {
        id,
        timestamp: String::from("2021-01-01T00:00:00"),
        contents: String::from(contents),
        attachments: String::new(),
    }
}

fn small_corpus() -> Vec<Message> {
    vec![msg(1, "The cat"), msg(2, "the dog"), msg(3, "there")]
}

#[test]
fn index_has_exact_counts_and_order() {
    let corpus = small_corpus();
    let idx = build_index(&corpus).unwrap();
    // tokens: the, cat, the, dog, there
    assert_eq!(idx.len(), 4);
    assert_eq!(idx[0].word, "the");
    assert_eq!(idx[0].frequency, 2);
    // ties at frequency 1 are broken by the word ascending
    assert_eq!(idx[1].word, "cat");
    assert_eq!(idx[1].frequency, 1);
    assert_eq!(idx[2].word, "dog");
    assert_eq!(idx[3].word, "there");
}

#[test]
fn index_words_are_the_distinct_tokens() {
    let corpus = small_corpus();
    let idx = build_index(&corpus).unwrap();
    let mut words: Vec<&str> = idx.iter().map(|w| w.word.as_str()).collect();
    words.sort();
    assert_eq!(words, vec!["cat", "dog", "the", "there"]);
}

#[test]
fn frequencies_sum_to_token_count() {
    let corpus = small_corpus();
    let idx = build_index(&corpus).unwrap();
    let total: u64 = idx.iter().map(|w| w.frequency).sum();
    assert_eq!(total, 5);
}

#[test]
fn empty_tokens_from_collapsed_delimiters_are_counted() {
    // "a  b" splits into ["a", "", "b"]; the empty message gives one "" token
    let corpus = vec![msg(1, "a  b"), msg(2, "")];
    let idx = build_index(&corpus).unwrap();
    let empty = idx.iter().find(|w| w.word.is_empty()).unwrap();
    assert_eq!(empty.frequency, 2);
    let total: u64 = idx.iter().map(|w| w.frequency).sum();
    assert_eq!(total, 4);
}

#[test]
fn newlines_become_spaces_and_case_folds() {
    let corpus = vec![msg(1, "Apple\nBANANA apple")];
    let idx = build_index(&corpus).unwrap();
    let apple = idx.iter().find(|w| w.word == "apple").unwrap();
    assert_eq!(apple.frequency, 2);
    let banana = idx.iter().find(|w| w.word == "banana").unwrap();
    assert_eq!(banana.frequency, 1);
}

#[test]
fn only_text_classification() {
    let corpus = vec![msg(1, "abc1 a.b c")];
    let idx = build_index(&corpus).unwrap();
    let plain = idx.iter().find(|w| w.word == "abc1").unwrap();
    assert!(plain.only_text);
    let dotted = idx.iter().find(|w| w.word == "a.b").unwrap();
    assert!(!dotted.only_text);
    // the empty token carries the flag vacuously
    let corpus2 = vec![msg(1, "x  y")];
    let idx2 = build_index(&corpus2).unwrap();
    let empty = idx2.iter().find(|w| w.word.is_empty()).unwrap();
    assert!(empty.only_text);
}

#[test]
fn test_text_is_alphanumeric_classification() {
    assert!(test_text("abc123"));
    assert!(!test_text("a.b"));
    assert!(!test_text("two words"));
    // the empty query counts as pure text (every character is, vacuously)
    assert!(test_text(""));
}

#[test]
fn reingestion_gives_identical_index() {
    let idx1 = build_index(&small_corpus()).unwrap();
    let idx2 = build_index(&small_corpus()).unwrap();
    assert_eq!(idx1.len(), idx2.len());
    for (a, b) in idx1.iter().zip(idx2.iter()) {
        assert_eq!(a.word, b.word);
        assert_eq!(a.frequency, b.frequency);
        assert_eq!(a.only_text, b.only_text);
    }
}

#[test]
fn count_words_directly_matches_build_index() {
    let corpus = small_corpus();
    let via_guard = build_index(&corpus).unwrap();
    let direct = count_words(&corpus);
    assert_eq!(via_guard.len(), direct.len());
    for (a, b) in via_guard.iter().zip(direct.iter()) {
        assert_eq!(a.word, b.word);
        assert_eq!(a.frequency, b.frequency);
    }
}

#[test]
fn loose_word_search_strips_candidates() {
    let corpus = small_corpus();
    let idx = build_index(&corpus).unwrap();
    let hits = search_text(&idx, "the");
    let words: Vec<&str> = hits.iter().map(|w| w.word.as_str()).collect();
    // loose match: "there" contains "the" as a substring too
    assert_eq!(words, vec!["the", "there"]);
}

#[test]
fn exact_word_search_keeps_punctuation() {
    let corpus = vec![msg(1, "t.he the x")];
    let idx = build_index(&corpus).unwrap();
    let hits = search_text(&idx, "t.he");
    let words: Vec<&str> = hits.iter().map(|w| w.word.as_str()).collect();
    // the query holds punctuation, so matching is raw: "the" does not match
    assert_eq!(words, vec!["t.he"]);
}

#[test]
fn loose_word_search_sees_through_punctuation() {
    let corpus = vec![msg(1, "t.he x")];
    let idx = build_index(&corpus).unwrap();
    let hits = search_text(&idx, "the");
    let words: Vec<&str> = hits.iter().map(|w| w.word.as_str()).collect();
    // the candidate "t.he" stripped of punctuation is "the"
    assert_eq!(words, vec!["t.he"]);
}

#[test]
fn word_display_empty_query_returns_full_index() {
    let corpus = small_corpus();
    let app = SearchApp::new(corpus).unwrap();
    let shown = word_display(&app.counted_words, "", false);
    assert_eq!(shown.len(), app.counted_words.len());
    for (a, b) in shown.iter().zip(app.counted_words.iter()) {
        assert_eq!(a.word, b.word);
    }
}

#[test]
fn word_display_flag_filters_alphanumeric_only() {
    let corpus = vec![msg(1, "t.he the x")];
    let app = SearchApp::new(corpus).unwrap();
    let shown = word_display(&app.counted_words, "", true);
    assert!(shown.iter().all(|w| w.only_text));
    assert!(shown.iter().any(|w| w.word == "the"));
    assert!(!shown.iter().any(|w| w.word == "t.he"));
}

#[test]
fn sentence_search_is_case_insensitive_and_loose() {
    let corpus = small_corpus();
    let hits = search_sentence(&corpus, "THE");
    let ids: Vec<u64> = hits.iter().map(|m| m.id).collect();
    // "The cat", "the dog" and "there" all contain "the" once lowercased
    assert_eq!(ids, vec![1, 2, 3]);
}

#[test]
fn sentence_search_exact_mode_keeps_punctuation() {
    let corpus = vec![msg(1, "price: $5"), msg(2, "price 5")];
    let hits = search_sentence(&corpus, "$5");
    let ids: Vec<u64> = hits.iter().map(|m| m.id).collect();
    assert_eq!(ids, vec![1]);
}

#[test]
fn narrowed_refinement_equals_full_search() {
    let corpus = vec![msg(1, "big cats here"), msg(2, "a cat too"), msg(3, "doggy time")];
    let mut app = SearchApp::new(corpus.clone()).unwrap();
    app.sentence_search("cat");
    let ids: Vec<u64> = app.display_sentence.iter().map(|m| m.id).collect();
    assert_eq!(ids, vec![1, 2]);
    // "cats" extends "cat": the narrowed search must equal the full search
    app.sentence_search("cats");
    let narrowed: Vec<u64> = app.display_sentence.iter().map(|m| m.id).collect();
    let full: Vec<u64> = search_sentence(&corpus, "cats").iter().map(|m| m.id).collect();
    assert_eq!(narrowed, full);
    assert_eq!(narrowed, vec![1]);
}

#[test]
fn unrelated_longer_query_rescans_the_corpus() {
    let corpus = vec![msg(1, "big cats here"), msg(2, "a cat too"), msg(3, "doggy time")];
    let mut app = SearchApp::new(corpus).unwrap();
    app.sentence_search("cat");
    // "doggy" is longer than "cat" but no extension of it; a length-only
    // heuristic would search only the previous results and find nothing
    app.sentence_search("doggy");
    let ids: Vec<u64> = app.display_sentence.iter().map(|m| m.id).collect();
    assert_eq!(ids, vec![3]);
}

#[test]
fn shorter_query_resets_to_full_corpus() {
    let corpus = vec![msg(1, "alpha beta"), msg(2, "beta"), msg(3, "gamma")];
    let mut app = SearchApp::new(corpus).unwrap();
    app.sentence_search("alpha");
    assert_eq!(app.display_sentence.len(), 1);
    app.sentence_search("beta");
    let ids: Vec<u64> = app.display_sentence.iter().map(|m| m.id).collect();
    assert_eq!(ids, vec![1, 2]);
}

#[test]
fn blank_sentence_query_shows_whole_corpus() {
    let corpus = small_corpus();
    let mut app = SearchApp::new(corpus).unwrap();
    app.sentence_search("cat");
    app.sentence_search("   ");
    assert_eq!(app.display_sentence.len(), 3);
}

#[test]
fn empty_corpus_yields_empty_index_and_empty_results() {
    let mut app = SearchApp::new(Vec::new()).unwrap();
    assert_eq!(app.counted_words.len(), 0);
    assert_eq!(app.display.len(), 0);
    assert_eq!(app.display_sentence.len(), 0);
    app.word_search("anything", false);
    assert_eq!(app.display.len(), 0);
    app.sentence_search("anything");
    assert_eq!(app.display_sentence.len(), 0);
}

#[test]
fn mode_switch_recomputes_from_immutable_data() {
    let corpus = small_corpus();
    let mut app = SearchApp::new(corpus).unwrap();
    app.word_search("the", false);
    assert_eq!(app.display.len(), 2);
    app.sentence_search("dog");
    assert_eq!(app.display_sentence.len(), 1);
    // switching back recomputes the word view in full
    app.word_search("the", true);
    assert_eq!(app.display.len(), 2);
    app.word_search("", false);
    assert_eq!(app.display.len(), app.counted_words.len());
}
