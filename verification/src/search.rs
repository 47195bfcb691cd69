//! The two search modes over the immutable corpus and index: a ranked
//! word-index lookup and a case-insensitive sentence lookup, each with a
//! loose mode (alphanumeric characters only) chosen when the query itself
//! is pure alphanumeric text, and an exact mode otherwise.
use vstd::prelude::*;

use crate::index::SortedWord;
use crate::text::{
    all_alnum, alnum_only, chars_all_alnum, chars_to_string, contains_chars, contains_sub,
    filter_alnum, lower_of, lowercase, str_chars, trim_chars, trim_spec,
};
use crate::Message;

verus! {

/// Reports whether the query is pure alphanumeric text, which selects the
/// loose matching mode.
pub fn test_text(word: &str) -> (r: bool)
    ensures
        r == all_alnum(word@),
{
    let cs = str_chars(word);
    chars_all_alnum(&cs)
}

// --- what it means to match ---

/// An index entry matches the query: for a pure-alphanumeric query, the
/// trimmed query must occur inside the entry's word stripped to its
/// alphanumeric characters; otherwise the raw query must occur inside the
/// raw word.
pub open spec fn word_match(w: SortedWord, t: Seq<char>) -> bool {
    if all_alnum(t) {
        contains_sub(alnum_only(w.word@), trim_spec(t))
    } else {
        contains_sub(w.word@, t)
    }
}

/// A message matches the query: both sides are lowercased; for a
/// pure-alphanumeric query the message body is first stripped to its
/// alphanumeric characters and the query is trimmed.
pub open spec fn msg_match(m: Message, t: Seq<char>) -> bool {
    if all_alnum(t) {
        contains_sub(lower_of(alnum_only(m.contents@)), lower_of(trim_spec(t)))
    } else {
        contains_sub(lower_of(m.contents@), lower_of(t))
    }
}

/// The index entries matching the query, in index order.
pub open spec fn matching_words(idx: Seq<SortedWord>, t: Seq<char>) -> Seq<SortedWord> {
    idx.filter(|w: SortedWord| word_match(w, t))
}

/// The messages matching the query, in corpus order.
pub open spec fn matching_msgs(ms: Seq<Message>, t: Seq<char>) -> Seq<Message> {
    ms.filter(|m: Message| msg_match(m, t))
}

/// The index entries flagged as pure alphanumeric text, in index order.
pub open spec fn only_text_entries(idx: Seq<SortedWord>) -> Seq<SortedWord> {
    idx.filter(|w: SortedWord| w.only_text)
}

pub proof fn lemma_matching_words_unfold(idx: Seq<SortedWord>, t: Seq<char>)
    ensures
        matching_words(idx, t) == if idx.len() == 0 {
            Seq::<SortedWord>::empty()
        } else if word_match(idx.last(), t) {
            matching_words(idx.drop_last(), t).push(idx.last())
        } else {
            matching_words(idx.drop_last(), t)
        },
{
    reveal(Seq::filter);
}

pub proof fn lemma_matching_msgs_unfold(ms: Seq<Message>, t: Seq<char>)
    ensures
        matching_msgs(ms, t) == if ms.len() == 0 {
            Seq::<Message>::empty()
        } else if msg_match(ms.last(), t) {
            matching_msgs(ms.drop_last(), t).push(ms.last())
        } else {
            matching_msgs(ms.drop_last(), t)
        },
{
    reveal(Seq::filter);
}

pub proof fn lemma_only_text_unfold(idx: Seq<SortedWord>)
    ensures
        only_text_entries(idx) == if idx.len() == 0 {
            Seq::<SortedWord>::empty()
        } else if idx.last().only_text {
            only_text_entries(idx.drop_last()).push(idx.last())
        } else {
            only_text_entries(idx.drop_last())
        },
{
    reveal(Seq::filter);
}

// --- the word-index search ---

/// The entries of the index that match the query, in index order.
pub fn search_text(v: &Vec<SortedWord>, search_term: &str) -> (r: Vec<SortedWord>)
    ensures
        r@ == matching_words(v@, search_term@),
{
    let loose = test_text(search_term);
    let tc = str_chars(search_term);
    let needle = if loose {
        trim_chars(&tc)
    } else {
        tc
    };
    let mut r: Vec<SortedWord> = Vec::new();
    let mut i: usize = 0;
    proof {
        lemma_matching_words_unfold(v@.take(0), search_term@);
        assert(v@.take(0) =~= Seq::<SortedWord>::empty());
    }
    while i < v.len()
        invariant
            i <= v@.len(),
            loose == all_alnum(search_term@),
            needle@ == if loose {
                trim_spec(search_term@)
            } else {
                search_term@
            },
            r@ == matching_words(v@.take(i as int), search_term@),
        decreases v@.len() - i,
    {
        let wc = str_chars(v[i].word.as_str());
        let hay = if loose {
            filter_alnum(&wc)
        } else {
            wc
        };
        let hit = contains_chars(&hay, &needle);
        proof {
            assert(hit == word_match(v@[i as int], search_term@));
            lemma_matching_words_unfold(v@.take(i as int + 1), search_term@);
            assert(v@.take(i as int + 1).drop_last() =~= v@.take(i as int));
            assert(v@.take(i as int + 1).last() == v@[i as int]);
        }
        if hit {
            r.push(v[i].clone());
        }
        i = i + 1;
    }
    proof {
        assert(v@.take(v@.len() as int) =~= v@);
    }
    r
}

/// The word-mode display subset for a query and the alphanumeric-only
/// flag: the whole index on a blank query, the matching entries
/// otherwise, both further restricted by the flag when it is set.
pub open spec fn word_display_spec(idx: Seq<SortedWord>, t: Seq<char>, only_text: bool) -> Seq<
    SortedWord,
> {
    let base = if trim_spec(t).len() == 0 {
        idx
    } else {
        matching_words(idx, t)
    };
    if only_text {
        only_text_entries(base)
    } else {
        base
    }
}

/// Copies a vector of index entries.
fn clone_words(v: &Vec<SortedWord>) -> (r: Vec<SortedWord>)
    ensures
        r@ == v@,
{
    let mut r: Vec<SortedWord> = Vec::new();
    let mut i: usize = 0;
    while i < v.len()
        invariant
            i <= v@.len(),
            r@ == v@.take(i as int),
        decreases v@.len() - i,
    {
        r.push(v[i].clone());
        proof {
            assert(v@.take(i as int).push(v@[i as int]) =~= v@.take(i as int + 1));
        }
        i = i + 1;
    }
    proof {
        assert(v@.take(v@.len() as int) =~= v@);
    }
    r
}

/// Keeps the entries flagged as pure alphanumeric text.
fn filter_only_text(v: &Vec<SortedWord>) -> (r: Vec<SortedWord>)
    ensures
        r@ == only_text_entries(v@),
{
    let mut r: Vec<SortedWord> = Vec::new();
    let mut i: usize = 0;
    proof {
        lemma_only_text_unfold(v@.take(0));
        assert(v@.take(0) =~= Seq::<SortedWord>::empty());
    }
    while i < v.len()
        invariant
            i <= v@.len(),
            r@ == only_text_entries(v@.take(i as int)),
        decreases v@.len() - i,
    {
        proof {
            lemma_only_text_unfold(v@.take(i as int + 1));
            assert(v@.take(i as int + 1).drop_last() =~= v@.take(i as int));
            assert(v@.take(i as int + 1).last() == v@[i as int]);
        }
        if v[i].only_text {
            r.push(v[i].clone());
        }
        i = i + 1;
    }
    proof {
        assert(v@.take(v@.len() as int) =~= v@);
    }
    r
}

/// The word-mode display subset: the whole index on a blank query, the
/// matching entries otherwise, restricted to alphanumeric-only entries
/// when the flag is set. Recomputed in full on every query change.
pub fn word_display(idx: &Vec<SortedWord>, search: &str, only_text: bool) -> (r: Vec<SortedWord>)
    ensures
        r@ == word_display_spec(idx@, search@, only_text),
{
    let sc = str_chars(search);
    let st = trim_chars(&sc);
    let base = if st.len() == 0 {
        clone_words(idx)
    } else {
        search_text(idx, search)
    };
    if only_text {
        filter_only_text(&base)
    } else {
        base
    }
}

// --- the sentence search ---

/// The messages of the candidate list that match the query, in their
/// given order.
pub fn search_sentence(v: &Vec<Message>, search_term: &str) -> (r: Vec<Message>)
    ensures
        r@ == matching_msgs(v@, search_term@),
{
    let loose = test_text(search_term);
    let tc = str_chars(search_term);
    let needle_src = if loose {
        let tt = trim_chars(&tc);
        chars_to_string(&tt)
    } else {
        chars_to_string(&tc)
    };
    let needle_low = lowercase(needle_src.as_str());
    let needle = str_chars(needle_low.as_str());
    let mut r: Vec<Message> = Vec::new();
    let mut i: usize = 0;
    proof {
        lemma_matching_msgs_unfold(v@.take(0), search_term@);
        assert(v@.take(0) =~= Seq::<Message>::empty());
    }
    while i < v.len()
        invariant
            i <= v@.len(),
            loose == all_alnum(search_term@),
            needle@ == if loose {
                lower_of(trim_spec(search_term@))
            } else {
                lower_of(search_term@)
            },
            r@ == matching_msgs(v@.take(i as int), search_term@),
        decreases v@.len() - i,
    {
        let cc = str_chars(v[i].contents.as_str());
        let hay_src = if loose {
            let fc = filter_alnum(&cc);
            chars_to_string(&fc)
        } else {
            chars_to_string(&cc)
        };
        let hay_low = lowercase(hay_src.as_str());
        let hay = str_chars(hay_low.as_str());
        let hit = contains_chars(&hay, &needle);
        proof {
            assert(hit == msg_match(v@[i as int], search_term@));
            lemma_matching_msgs_unfold(v@.take(i as int + 1), search_term@);
            assert(v@.take(i as int + 1).drop_last() =~= v@.take(i as int));
            assert(v@.take(i as int + 1).last() == v@[i as int]);
        }
        if hit {
            r.push(v[i].clone());
        }
        i = i + 1;
    }
    proof {
        assert(v@.take(v@.len() as int) =~= v@);
    }
    r
}

/// The sentence-mode display subset: the whole corpus on a blank query,
/// the matching messages otherwise, in corpus order.
pub open spec fn sentence_display_spec(ms: Seq<Message>, t: Seq<char>) -> Seq<Message> {
    if trim_spec(t).len() == 0 {
        ms
    } else {
        matching_msgs(ms, t)
    }
}

/// Copies a vector of messages.
pub fn clone_messages(v: &Vec<Message>) -> (r: Vec<Message>)
    ensures
        r@ == v@,
{
    let mut r: Vec<Message> = Vec::new();
    let mut i: usize = 0;
    while i < v.len()
        invariant
            i <= v@.len(),
            r@ == v@.take(i as int),
        decreases v@.len() - i,
    {
        r.push(v[i].clone());
        proof {
            assert(v@.take(i as int).push(v@[i as int]) =~= v@.take(i as int + 1));
        }
        i = i + 1;
    }
    proof {
        assert(v@.take(v@.len() as int) =~= v@);
    }
    r
}

// --- soundness of narrowing ---

/// Substring containment is transitive.
pub proof fn lemma_contains_trans(a: Seq<char>, b: Seq<char>, c: Seq<char>)
    requires
        contains_sub(a, b),
        contains_sub(b, c),
    ensures
        contains_sub(a, c),
{
    let i = choose|i: int|
        0 <= i && i + b.len() <= a.len() && #[trigger] a.subrange(i, i + b.len()) == b;
    let j = choose|j: int|
        0 <= j && j + c.len() <= b.len() && #[trigger] b.subrange(j, j + c.len()) == c;
    assert forall|k: int| 0 <= k < c.len() implies a[i + j + k] == c[k] by {
        assert(b[j + k] == b.subrange(j, j + c.len())[k]);
        assert(a[i + j + k] == a.subrange(i, i + b.len())[j + k]);
    }
    assert(a.subrange(i + j, i + j + c.len()) =~= c);
}

/// A message matching the refined query also matches the previous one,
/// when both queries choose the same matching mode and the refined
/// query's needle contains the previous query's needle.
pub proof fn lemma_match_narrows(m: Message, prev: Seq<char>, next: Seq<char>)
    requires
        all_alnum(prev) == all_alnum(next),
        all_alnum(next) ==> contains_sub(lower_of(trim_spec(next)), lower_of(trim_spec(prev))),
        !all_alnum(next) ==> contains_sub(lower_of(next), lower_of(prev)),
        msg_match(m, next),
    ensures
        msg_match(m, prev),
{
    if all_alnum(next) {
        lemma_contains_trans(
            lower_of(alnum_only(m.contents@)),
            lower_of(trim_spec(next)),
            lower_of(trim_spec(prev)),
        );
    } else {
        lemma_contains_trans(lower_of(m.contents@), lower_of(next), lower_of(prev));
    }
}

/// Narrowing is sound: when every message matching the refined query also
/// matches the previous one, searching only the previous result subset
/// yields exactly the full-corpus result for the refined query.
pub proof fn lemma_narrowed_equals_full(ms: Seq<Message>, prev: Seq<char>, next: Seq<char>)
    requires
        forall|m: Message| #[trigger] msg_match(m, next) ==> msg_match(m, prev),
    ensures
        matching_msgs(matching_msgs(ms, prev), next) == matching_msgs(ms, next),
    decreases ms.len(),
{
    lemma_matching_msgs_unfold(ms, prev);
    lemma_matching_msgs_unfold(ms, next);
    if ms.len() == 0 {
        lemma_matching_msgs_unfold(matching_msgs(ms, prev), next);
    } else {
        let dl = ms.drop_last();
        let last = ms.last();
        lemma_narrowed_equals_full(dl, prev, next);
        if msg_match(last, prev) {
            let inner = matching_msgs(dl, prev).push(last);
            assert(matching_msgs(ms, prev) == inner);
            lemma_matching_msgs_unfold(inner, next);
            assert(inner.drop_last() =~= matching_msgs(dl, prev));
            assert(inner.last() == last);
        } else {
            assert(!msg_match(last, next));
        }
    }
}

/// Decides, before narrowing, that the refined query can only match
/// messages the previous query matched: both queries take the same mode
/// and the refined needle contains the previous needle.
pub fn narrowing_sound(prev: &str, next: &str) -> (r: bool)
    ensures
        r ==> forall|m: Message| #[trigger] msg_match(m, next@) ==> msg_match(m, prev@),
{
    let loose_p = test_text(prev);
    let loose_n = test_text(next);
    if loose_p != loose_n {
        return false;
    }
    let pc = str_chars(prev);
    let nc = str_chars(next);
    let (p_src, n_src) = if loose_n {
        let pt = trim_chars(&pc);
        let nt = trim_chars(&nc);
        (chars_to_string(&pt), chars_to_string(&nt))
    } else {
        (chars_to_string(&pc), chars_to_string(&nc))
    };
    let p_low = lowercase(p_src.as_str());
    let n_low = lowercase(n_src.as_str());
    let p_needle = str_chars(p_low.as_str());
    let n_needle = str_chars(n_low.as_str());
    let r = contains_chars(&n_needle, &p_needle);
    proof {
        if r {
            assert forall|m: Message| #[trigger] msg_match(m, next@) implies msg_match(
                m,
                prev@,
            ) by {
                lemma_match_narrows(m, prev@, next@);
            }
        }
    }
    r
}

} // verus!
