//! The search session: the immutable corpus and index together with the
//! two display subsets the presentation shell renders, and the
//! refinement optimization of the sentence search. Narrowing to the
//! previous result subset happens only when the refined query provably
//! matches a subset of what the previous query matched.
use vstd::prelude::*;

use crate::index::{build_index, char_budget, is_index, SortedWord};
use crate::search::{
    clone_messages, lemma_narrowed_equals_full, matching_msgs, narrowing_sound, search_sentence,
    sentence_display_spec, word_display, word_display_spec,
};
use crate::text::trim_spec;
use crate::Message;

verus! {

/// The state the presentation shell renders: the corpus, the index, the
/// two display subsets, and the query state the searches depend on.
pub struct SearchApp {
    /// The immutable corpus, in ingestion order.
    pub messages: Vec<Message>,
    /// The word-frequency index derived from the corpus.
    pub counted_words: Vec<SortedWord>,
    /// The word-mode display subset.
    pub display: Vec<SortedWord>,
    /// The sentence-mode display subset.
    pub display_sentence: Vec<Message>,
    /// The alphanumeric-only filter flag of the word search.
    pub only_text: bool,
    /// The previous sentence query, which narrowing is judged against.
    pub prev_search: String,
}

impl SearchApp {
    /// The session is consistent: the index tallies the corpus, and the
    /// sentence display subset is exactly what its last query selected.
    pub open spec fn wf(self) -> bool {
        &&& is_index(self.counted_words@, self.messages@)
        &&& self.display_sentence@ == sentence_display_spec(self.messages@, self.prev_search@)
    }

    /// Builds the session: derives the index once and shows everything.
    /// A corpus whose bodies hold more characters than a `u64` counts is
    /// refused rather than miscounted.
    pub fn new(messages: Vec<Message>) -> (r: Option<SearchApp>)
        ensures
            match r {
                Some(app) => app.wf() && app.messages@ == messages@ && app.display@
                    == app.counted_words@ && app.display_sentence@ == messages@
                    && app.prev_search@.len() == 0 && !app.only_text,
                None => char_budget(messages@) > u64::MAX,
            },
    {
        let counted_words = match build_index(&messages) {
            Some(idx) => idx,
            None => {
                return None;
            },
        };
        let display = crate::search::word_display(&counted_words, "", false);
        let display_sentence = clone_messages(&messages);
        proof {
            reveal_strlit("");
            assert(trim_spec(""@).len() == 0);
            assert(word_display_spec(counted_words@, ""@, false) == counted_words@);
        }
        let app = SearchApp {
            messages,
            counted_words,
            display,
            display_sentence,
            only_text: false,
            prev_search: String::new(),
        };
        proof {
            assert(trim_spec(app.prev_search@).len() == 0);
        }
        Some(app)
    }

    /// Word-index search: replaces the word-mode display subset with the
    /// entries matching the query under the given flag, recomputed in
    /// full from the immutable index.
    pub fn word_search(&mut self, query: &str, only_text: bool)
        requires
            old(self).wf(),
        ensures
            final(self).wf(),
            final(self).messages == old(self).messages,
            final(self).counted_words == old(self).counted_words,
            final(self).display_sentence == old(self).display_sentence,
            final(self).prev_search == old(self).prev_search,
            final(self).only_text == only_text,
            final(self).display@ == word_display_spec(old(self).counted_words@, query@, only_text),
    {
        self.only_text = only_text;
        self.display = word_display(&self.counted_words, query, only_text);
    }

    /// Sentence search: replaces the sentence-mode display subset with
    /// the messages matching the query, in corpus order. When the new
    /// query provably refines the previous one, only the previous result
    /// subset is scanned; the outcome equals a full-corpus search either
    /// way.
    pub fn sentence_search(&mut self, query: &str)
        requires
            old(self).wf(),
        ensures
            final(self).wf(),
            final(self).messages == old(self).messages,
            final(self).counted_words == old(self).counted_words,
            final(self).display == old(self).display,
            final(self).only_text == old(self).only_text,
            final(self).prev_search@ == query@,
            final(self).display_sentence@ == sentence_display_spec(old(self).messages@, query@),
    {
        let qc = crate::text::str_chars(query);
        let qt = crate::text::trim_chars(&qc);
        if qt.len() == 0 {
            self.display_sentence = clone_messages(&self.messages);
        } else if narrowing_sound(self.prev_search.as_str(), query) {
            let narrowed = search_sentence(&self.display_sentence, query);
            proof {
                lemma_narrowed_equals_full(self.messages@, self.prev_search@, query@);
                if trim_spec(self.prev_search@).len() == 0 {
                    assert(self.display_sentence@ == self.messages@);
                } else {
                    assert(self.display_sentence@ == matching_msgs(
                        self.messages@,
                        self.prev_search@,
                    ));
                }
                assert(narrowed@ == matching_msgs(self.messages@, query@));
            }
            self.display_sentence = narrowed;
        } else {
            self.display_sentence = search_sentence(&self.messages, query);
        }
        self.prev_search = query.to_owned();
    }
}

} // verus!
