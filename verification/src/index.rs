//! The word-frequency index: tokenization of message bodies, exact
//! occurrence counting, alphanumeric classification, and a deterministic
//! presentation order (frequency descending, then word ascending).
use vstd::prelude::*;
use vstd::string::StrSliceExecFns;

use crate::text::{
    all_alnum, chars_all_alnum, chars_to_string, is_alnum, lemma_lex_total, lemma_lex_trans,
    lemma_split_len, lemma_trim_len, lex_leq, lex_lt_chars, lower_of, lowercase, normalize_chars,
    normalize_spec, split_chars, split_spec, str_chars, trim_chars, trim_spec,
};
use crate::Message;

verus! {

broadcast use vstd::seq_lib::group_to_multiset_ensures;

/// One aggregate entry of the word-frequency index.
pub struct SortedWord {
    /// The lowercased token text, unique within the index.
    pub word: String,
    /// How many times the token occurs across the whole corpus.
    pub frequency: u64,
    /// Whether every character of the word is alphanumeric.
    pub only_text: bool,
}

impl Clone for SortedWord {
    /// An exact copy; search results hand out copies of matching entries.
    fn clone(&self) -> (r: Self)
        ensures
            r == *self,
    {
        SortedWord { word: self.word.clone(), frequency: self.frequency, only_text: self.only_text }
    }
}

// --- the token pipeline ---

/// The tokens of one message body: the body is trimmed, line breaks
/// become spaces, the result is split on single spaces, and each piece is
/// trimmed and lowercased.
pub open spec fn msg_tokens(contents: Seq<char>) -> Seq<Seq<char>> {
    split_spec(normalize_spec(trim_spec(contents))).map_values(
        |t: Seq<char>| lower_of(trim_spec(t)),
    )
}

/// Every token of every message of the corpus, in corpus order.
pub open spec fn all_tokens(ms: Seq<Message>) -> Seq<Seq<char>>
    decreases ms.len(),
{
    if ms.len() == 0 {
        Seq::empty()
    } else {
        all_tokens(ms.drop_last()) + msg_tokens(ms.last().contents@)
    }
}

/// The number of occurrences of `w` among the tokens `ts`.
pub open spec fn occ(ts: Seq<Seq<char>>, w: Seq<char>) -> nat
    decreases ts.len(),
{
    if ts.len() == 0 {
        0
    } else {
        occ(ts.drop_last(), w) + (if ts.last() == w {
            1nat
        } else {
            0nat
        })
    }
}

pub proof fn lemma_occ_le_len(ts: Seq<Seq<char>>, w: Seq<char>)
    ensures
        occ(ts, w) <= ts.len(),
    decreases ts.len(),
{
    if ts.len() > 0 {
        lemma_occ_le_len(ts.drop_last(), w);
    }
}

pub proof fn lemma_occ_push(ts: Seq<Seq<char>>, w: Seq<char>, t: Seq<char>)
    ensures
        occ(ts.push(t), w) == occ(ts, w) + (if t == w {
            1nat
        } else {
            0nat
        }),
{
    assert(ts.push(t).drop_last() =~= ts);
}

/// A word occurs among the tokens exactly when its count is positive.
pub proof fn lemma_occ_pos(ts: Seq<Seq<char>>, w: Seq<char>)
    ensures
        occ(ts, w) > 0 <==> ts.contains(w),
    decreases ts.len(),
{
    if ts.len() > 0 {
        lemma_occ_pos(ts.drop_last(), w);
        if ts.drop_last().contains(w) {
            let i = choose|i: int| 0 <= i < ts.drop_last().len() && ts.drop_last()[i] == w;
            assert(ts[i] == w);
        }
        if ts.last() == w {
            assert(ts[ts.len() - 1] == w);
        }
        if ts.contains(w) && ts.last() != w {
            let i = choose|i: int| 0 <= i < ts.len() && ts[i] == w;
            assert(ts.drop_last()[i] == w);
        }
    }
}

// --- the index predicate ---

/// How many index entries carry the word `w`.
pub open spec fn count_eq(idx: Seq<SortedWord>, w: Seq<char>) -> nat
    decreases idx.len(),
{
    if idx.len() == 0 {
        0
    } else {
        count_eq(idx.drop_last(), w) + (if idx.last().word@ == w {
            1nat
        } else {
            0nat
        })
    }
}

/// The tally is faithful: one entry per distinct token of `ts`, with the
/// exact occurrence count and the alphanumeric classification.
pub open spec fn tally_ok(idx: Seq<SortedWord>, ts: Seq<Seq<char>>) -> bool {
    &&& forall|p: int|
        0 <= p < idx.len() ==> (#[trigger] idx[p]).frequency == occ(ts, idx[p].word@)
            && idx[p].frequency >= 1 && idx[p].only_text == all_alnum(idx[p].word@)
    &&& forall|p: int, q: int|
        0 <= p < q < idx.len() ==> (#[trigger] idx[p]).word@ != (#[trigger] idx[q]).word@
    &&& forall|i: int| 0 <= i < ts.len() ==> count_eq(idx, #[trigger] ts[i]) >= 1
}

proof fn lemma_count_eq_zero(idx: Seq<SortedWord>, w: Seq<char>)
    requires
        forall|p: int| 0 <= p < idx.len() ==> (#[trigger] idx[p]).word@ != w,
    ensures
        count_eq(idx, w) == 0,
    decreases idx.len(),
{
    if idx.len() > 0 {
        assert(forall|p: int| 0 <= p < idx.len() - 1 ==> idx.drop_last()[p] == idx[p]);
        lemma_count_eq_zero(idx.drop_last(), w);
        assert(idx.last() == idx[idx.len() - 1]);
    }
}

proof fn lemma_count_eq_push(idx: Seq<SortedWord>, e: SortedWord, w: Seq<char>)
    ensures
        count_eq(idx.push(e), w) == count_eq(idx, w) + (if e.word@ == w {
            1nat
        } else {
            0nat
        }),
{
    assert(idx.push(e).drop_last() =~= idx);
}

/// Entries with the same words at the same positions count alike.
proof fn lemma_count_eq_pointwise(a: Seq<SortedWord>, b: Seq<SortedWord>, w: Seq<char>)
    requires
        a.len() == b.len(),
        forall|p: int| 0 <= p < a.len() ==> (#[trigger] a[p]).word@ == b[p].word@,
    ensures
        count_eq(a, w) == count_eq(b, w),
    decreases a.len(),
{
    if a.len() > 0 {
        assert(forall|p: int| 0 <= p < a.len() - 1 ==> a.drop_last()[p] == a[p]);
        assert(forall|p: int| 0 <= p < b.len() - 1 ==> b.drop_last()[p] == b[p]);
        lemma_count_eq_pointwise(a.drop_last(), b.drop_last(), w);
        assert(a.last() == a[a.len() - 1] && b.last() == b[b.len() - 1]);
    }
}

/// A word of an entry is counted at least once.
proof fn lemma_count_eq_lower(idx: Seq<SortedWord>, p: int)
    requires
        0 <= p < idx.len(),
    ensures
        count_eq(idx, idx[p].word@) >= 1,
    decreases idx.len(),
{
    if p == idx.len() - 1 {
        assert(idx.last() == idx[p]);
    } else {
        assert(idx.drop_last()[p] == idx[p]);
        lemma_count_eq_lower(idx.drop_last(), p);
    }
}

/// Removing one entry removes exactly its own contribution to the count.
proof fn lemma_count_eq_remove(idx: Seq<SortedWord>, j: int, w: Seq<char>)
    requires
        0 <= j < idx.len(),
    ensures
        count_eq(idx, w) == count_eq(idx.remove(j), w) + (if idx[j].word@ == w {
            1nat
        } else {
            0nat
        }),
    decreases idx.len(),
{
    if j == idx.len() - 1 {
        assert(idx.remove(j) =~= idx.drop_last());
        assert(idx.last() == idx[j]);
    } else {
        assert(idx.remove(j).drop_last() =~= idx.drop_last().remove(j));
        assert(idx.remove(j).last() == idx.last());
        lemma_count_eq_remove(idx.drop_last(), j, w);
        assert(idx.drop_last()[j] == idx[j]);
    }
}

/// Sequences holding the same entries count every word alike.
proof fn lemma_count_eq_perm(s: Seq<SortedWord>, t: Seq<SortedWord>, w: Seq<char>)
    requires
        s.to_multiset() == t.to_multiset(),
    ensures
        count_eq(s, w) == count_eq(t, w),
    decreases s.len(),
{
    if s.len() == 0 {
        assert(s.to_multiset().len() == 0);
        assert(t.len() == 0);
    } else {
        let e = s.last();
        assert(s[s.len() - 1] == e);
        assert(s.contains(e));
        assert(t.to_multiset().count(e) > 0);
        assert(t.contains(e));
        let j = choose|j: int| 0 <= j < t.len() && t[j] == e;
        assert(s.remove(s.len() - 1) =~= s.drop_last());
        assert(s.drop_last().to_multiset() =~= s.to_multiset().remove(e));
        assert(t.remove(j).to_multiset() =~= t.to_multiset().remove(e));
        lemma_count_eq_perm(s.drop_last(), t.remove(j), w);
        lemma_count_eq_remove(t, j, w);
    }
}

/// An entry's word occurs among the entries exactly when its count is
/// positive.
pub proof fn lemma_count_eq_pos(idx: Seq<SortedWord>, w: Seq<char>)
    ensures
        count_eq(idx, w) >= 1 <==> exists|p: int|
            0 <= p < idx.len() && (#[trigger] idx[p]).word@ == w,
    decreases idx.len(),
{
    if idx.len() > 0 {
        lemma_count_eq_pos(idx.drop_last(), w);
        if idx.last().word@ == w {
            assert(idx[idx.len() - 1].word@ == w);
        }
        if count_eq(idx, w) >= 1 && idx.last().word@ != w {
            let p = choose|p: int|
                0 <= p < idx.drop_last().len() && (#[trigger] idx.drop_last()[p]).word@ == w;
            assert(idx[p].word@ == w);
        }
        if (exists|p: int| 0 <= p < idx.len() && (#[trigger] idx[p]).word@ == w) && idx.last().word@
            != w {
            let p = choose|p: int| 0 <= p < idx.len() && (#[trigger] idx[p]).word@ == w;
            assert(idx.drop_last()[p].word@ == w);
        }
    }
}

/// Index order: frequency descending, ties broken by the word ascending.
pub open spec fn word_le(a: SortedWord, b: SortedWord) -> bool {
    a.frequency > b.frequency || (a.frequency == b.frequency && lex_leq(a.word@, b.word@))
}

pub open spec fn sorted_words(s: Seq<SortedWord>) -> bool {
    forall|p: int, q: int| 0 <= p < q < s.len() ==> word_le(#[trigger] s[p], #[trigger] s[q])
}

/// What `count_words` promises: a faithful tally of the corpus tokens in
/// the deterministic index order.
pub open spec fn is_index(idx: Seq<SortedWord>, ms: Seq<Message>) -> bool {
    &&& tally_ok(idx, all_tokens(ms))
    &&& sorted_words(idx)
}

pub proof fn lemma_word_le_total(a: SortedWord, b: SortedWord)
    ensures
        word_le(a, b) || word_le(b, a),
{
    lemma_lex_total(a.word@, b.word@);
}

pub proof fn lemma_word_le_trans(a: SortedWord, b: SortedWord, c: SortedWord)
    requires
        word_le(a, b),
        word_le(b, c),
    ensures
        word_le(a, c),
{
    if a.frequency == b.frequency && b.frequency == c.frequency {
        lemma_lex_trans(a.word@, b.word@, c.word@);
    }
}

// --- tokenizing one message ---

/// The lowercased, trimmed tokens of one message body.
pub fn message_tokens(contents: &str) -> (r: Vec<String>)
    ensures
        r@.len() == msg_tokens(contents@).len(),
        forall|j: int| 0 <= j < r@.len() ==> r@[j]@ == msg_tokens(contents@)[j],
{
    let cs = str_chars(contents);
    let t = trim_chars(&cs);
    let n = normalize_chars(&t);
    let pieces = split_chars(&n);
    let ghost pv = pieces@.map_values(|t: Vec<char>| t@);
    let mut r: Vec<String> = Vec::new();
    let mut j: usize = 0;
    while j < pieces.len()
        invariant
            j <= pieces@.len(),
            pv == pieces@.map_values(|t: Vec<char>| t@),
            pv == split_spec(normalize_spec(trim_spec(contents@))),
            r@.len() == j,
            forall|q: int| 0 <= q < j ==> r@[q]@ == msg_tokens(contents@)[q],
        decreases pieces@.len() - j,
    {
        let piece = trim_chars(&pieces[j]);
        let s = chars_to_string(&piece);
        let low = lowercase(s.as_str());
        proof {
            assert(pv[j as int] == pieces@[j as int]@);
            assert(low@ == lower_of(trim_spec(pv[j as int])));
            assert(msg_tokens(contents@)[j as int] == lower_of(trim_spec(pv[j as int])));
        }
        r.push(low);
        j = j + 1;
    }
    r
}

// --- stepping through the corpus ---

pub proof fn lemma_all_tokens_step(ms: Seq<Message>, m: int)
    requires
        0 <= m < ms.len(),
    ensures
        all_tokens(ms.take(m + 1)) == all_tokens(ms.take(m)) + msg_tokens(ms[m].contents@),
{
    assert(ms.take(m + 1).drop_last() =~= ms.take(m));
    assert(ms.take(m + 1).last() == ms[m]);
}

pub proof fn lemma_all_tokens_prefix(ms: Seq<Message>, m: int)
    requires
        0 <= m <= ms.len(),
    ensures
        all_tokens(ms.take(m)).len() <= all_tokens(ms).len(),
    decreases ms.len() - m,
{
    if m == ms.len() {
        assert(ms.take(m) =~= ms);
    } else {
        lemma_all_tokens_step(ms, m);
        lemma_all_tokens_prefix(ms, m + 1);
    }
}

// --- tallying ---

/// The position of the entry holding `t`, if the word is already tallied.
fn find_word(r: &Vec<SortedWord>, t: &String) -> (res: Option<usize>)
    ensures
        match res {
            Some(k) => k < r@.len() && r@[k as int].word@ == t@,
            None => forall|k: int| 0 <= k < r@.len() ==> (#[trigger] r@[k]).word@ != t@,
        },
{
    let mut k: usize = 0;
    while k < r.len()
        invariant
            k <= r@.len(),
            forall|k0: int| 0 <= k0 < k ==> (#[trigger] r@[k0]).word@ != t@,
        decreases r@.len() - k,
    {
        if r[k].word == *t {
            return Some(k);
        }
        k = k + 1;
    }
    None
}

/// Tallies every token of the corpus, in corpus order.
fn tally_tokens(corpus: &Vec<Message>) -> (r: Vec<SortedWord>)
    requires
        all_tokens(corpus@).len() <= u64::MAX,
    ensures
        tally_ok(r@, all_tokens(corpus@)),
{
    let mut r: Vec<SortedWord> = Vec::new();
    let mut m: usize = 0;
    while m < corpus.len()
        invariant
            m <= corpus@.len(),
            all_tokens(corpus@).len() <= u64::MAX,
            tally_ok(r@, all_tokens(corpus@.take(m as int))),
        decreases corpus@.len() - m,
    {
        let toks = message_tokens(corpus[m].contents.as_str());
        let ghost base = all_tokens(corpus@.take(m as int));
        let ghost tv = msg_tokens(corpus@[m as int].contents@);
        proof {
            lemma_all_tokens_step(corpus@, m as int);
            lemma_all_tokens_prefix(corpus@, m as int + 1);
            assert((base + tv).len() <= all_tokens(corpus@).len());
            assert(base + tv.take(0) =~= base);
        }
        let mut j: usize = 0;
        while j < toks.len()
            invariant
                j <= toks@.len(),
                toks@.len() == tv.len(),
                forall|q: int| 0 <= q < toks@.len() ==> toks@[q]@ == tv[q],
                (base + tv).len() <= u64::MAX,
                tally_ok(r@, base + tv.take(j as int)),
            decreases toks@.len() - j,
        {
            let ghost ts = base + tv.take(j as int);
            let ghost ts2 = base + tv.take(j as int + 1);
            proof {
                assert(ts.push(tv[j as int]) =~= ts2);
                assert(ts2.len() <= (base + tv).len());
            }
            let t = &toks[j];
            let ghost old_r = r@;
            match find_word(&r, t) {
                Some(k) => {
                    proof {
                        lemma_occ_le_len(ts, t@);
                        assert forall|p: int|
                            0 <= p < old_r.len() implies occ(ts2, (#[trigger] old_r[p]).word@)
                            == occ(ts, old_r[p].word@) + (if old_r[p].word@ == t@ {
                            1nat
                        } else {
                            0nat
                        }) by {
                            lemma_occ_push(ts, old_r[p].word@, t@);
                        }
                    }
                    let mut e = r.remove(k);
                    let f = e.frequency;
                    e.frequency = f + 1;
                    r.insert(k, e);
                    proof {
                        assert(r@.len() == old_r.len());
                        assert(old_r.remove(k as int).insert(k as int, r@[k as int]) =~= r@);
                        assert(forall|p: int|
                            0 <= p < r@.len() && p != k ==> r@[p] == old_r[p]);
                        assert(r@[k as int].word@ == old_r[k as int].word@);
                        assert(r@[k as int].frequency == old_r[k as int].frequency + 1);
                        assert forall|i: int| 0 <= i < ts2.len() implies count_eq(
                            r@,
                            #[trigger] ts2[i],
                        ) >= 1 by {
                            lemma_count_eq_pointwise(old_r, r@, ts2[i]);
                            if i < ts.len() {
                                assert(ts2[i] == ts[i]);
                                assert(count_eq(old_r, ts[i]) >= 1);
                            } else {
                                assert(ts2[i] == t@);
                                assert(r@[k as int].word@ == t@);
                                lemma_count_eq_lower(r@, k as int);
                            }
                        }
                    }
                },
                None => {
                    let only = {
                        let wc = str_chars(t.as_str());
                        chars_all_alnum(&wc)
                    };
                    let entry = SortedWord { word: t.clone(), frequency: 1, only_text: only };
                    proof {
                        lemma_occ_pos(ts, t@);
                        assert(occ(ts, t@) == 0) by {
                            lemma_count_eq_zero(old_r, t@);
                            if ts.contains(t@) {
                                let i = choose|i: int| 0 <= i < ts.len() && ts[i] == t@;
                                assert(count_eq(old_r, ts[i]) >= 1);
                            }
                        }
                        assert forall|p: int|
                            0 <= p < old_r.len() implies occ(ts2, (#[trigger] old_r[p]).word@)
                            == occ(ts, old_r[p].word@) by {
                            lemma_occ_push(ts, old_r[p].word@, t@);
                        }
                        lemma_occ_push(ts, t@, t@);
                        assert(occ(ts2, t@) == 1);
                    }
                    r.push(entry);
                    proof {
                        assert(r@ =~= old_r.push(entry));
                        assert(r@[r@.len() - 1] == entry);
                        assert(forall|p: int| 0 <= p < old_r.len() ==> r@[p] == old_r[p]);
                        assert forall|i: int| 0 <= i < ts2.len() implies count_eq(
                            r@,
                            #[trigger] ts2[i],
                        ) >= 1 by {
                            lemma_count_eq_push(old_r, entry, ts2[i]);
                            if i < ts.len() {
                                assert(ts2[i] == ts[i]);
                                assert(count_eq(old_r, ts[i]) >= 1);
                            } else {
                                assert(ts2[i] == t@);
                                assert(entry.word@ == t@);
                            }
                        }
                    }
                },
            }
            j = j + 1;
        }
        proof {
            assert(tv.take(tv.len() as int) =~= tv);
            lemma_all_tokens_step(corpus@, m as int);
        }
        m = m + 1;
    }
    proof {
        assert(corpus@.take(corpus@.len() as int) =~= corpus@);
    }
    r
}

// --- sorting ---

/// Sorts the tally into the index order; a permutation of its input.
fn sort_words(v: Vec<SortedWord>) -> (r: Vec<SortedWord>)
    ensures
        r@.to_multiset() == v@.to_multiset(),
        sorted_words(r@),
{
    let mut r: Vec<SortedWord> = Vec::new();
    let mut i: usize = 0;
    proof {
        assert(v@.take(0) =~= Seq::<SortedWord>::empty());
        assert(r@.to_multiset() =~= v@.take(0).to_multiset());
    }
    while i < v.len()
        invariant
            i <= v@.len(),
            r@.to_multiset() == v@.take(i as int).to_multiset(),
            sorted_words(r@),
        decreases v@.len() - i,
    {
        let x = v[i].clone();
        let ghost old_r = r@;
        let mut p: usize = 0;
        while p < r.len() && word_before(&r[p], &x)
            invariant
                p <= r@.len(),
                r@ == old_r,
                forall|q: int| 0 <= q < p ==> word_le(#[trigger] r@[q], x),
            decreases r@.len() - p,
        {
            p = p + 1;
        }
        proof {
            if (p as int) < r@.len() {
                lemma_word_le_total(r@[p as int], x);
                assert forall|q: int| p <= q < r@.len() implies word_le(x, #[trigger] r@[q]) by {
                    if q > p {
                        lemma_word_le_trans(x, r@[p as int], r@[q]);
                    }
                }
            }
        }
        r.insert(p, x);
        proof {
            assert(r@ == old_r.insert(p as int, x));
            assert forall|p2: int, q2: int|
                0 <= p2 < q2 < r@.len() implies word_le(#[trigger] r@[p2], #[trigger] r@[q2]) by {
                assert(r@[p as int] == x);
                if p2 < p {
                    assert(r@[p2] == old_r[p2]);
                }
                if p2 > p {
                    assert(r@[p2] == old_r[p2 - 1]);
                }
                if q2 < p {
                    assert(r@[q2] == old_r[q2]);
                }
                if q2 > p {
                    assert(r@[q2] == old_r[q2 - 1]);
                }
            }
            assert(r@.remove(p as int) =~= old_r);
            assert(r@.to_multiset().remove(x) =~= old_r.to_multiset());
            assert(r@.contains(x)) by {
                assert(r@[p as int] == x);
            }
            assert(r@.to_multiset().count(x) > 0);
            assert(r@.to_multiset() =~= old_r.to_multiset().insert(x));
            assert(v@.take(i as int).push(v@[i as int]) =~= v@.take(i as int + 1));
        }
        i = i + 1;
    }
    proof {
        assert(v@.take(v@.len() as int) =~= v@);
    }
    r
}

/// Decides the index order between two entries.
fn word_before(a: &SortedWord, b: &SortedWord) -> (r: bool)
    ensures
        r == word_le(*a, *b),
{
    if a.frequency > b.frequency {
        true
    } else if a.frequency == b.frequency {
        let wa = str_chars(a.word.as_str());
        let wb = str_chars(b.word.as_str());
        if lex_lt_chars(&wa, &wb) {
            true
        } else {
            a.word == b.word
        }
    } else {
        false
    }
}

// --- the public construction ---

/// Builds the word-frequency index of the corpus: one entry per distinct
/// token carrying its exact occurrence count, sorted by frequency
/// descending with ties broken by the word ascending.
pub fn count_words(corpus: &Vec<Message>) -> (r: Vec<SortedWord>)
    requires
        all_tokens(corpus@).len() <= u64::MAX,
    ensures
        is_index(r@, corpus@),
{
    let tallied = tally_tokens(corpus);
    let ghost t = tallied@;
    let r = sort_words(tallied);
    proof {
        lemma_permutation_keeps_tally(t, r@, all_tokens(corpus@));
    }
    r
}

/// A permutation of a faithful tally is a faithful tally.
proof fn lemma_permutation_keeps_tally(t: Seq<SortedWord>, s: Seq<SortedWord>, ts: Seq<Seq<char>>)
    requires
        tally_ok(t, ts),
        s.to_multiset() == t.to_multiset(),
    ensures
        tally_ok(s, ts),
{
    {
        assert forall|p: int| 0 <= p < s.len() implies (#[trigger] s[p]).frequency == occ(
            ts,
            s[p].word@,
        ) && s[p].frequency >= 1 && s[p].only_text == all_alnum(s[p].word@) by {
            assert(s.contains(s[p]));
            assert(t.to_multiset().count(s[p]) > 0);
            assert(t.contains(s[p]));
            let q = choose|q: int| 0 <= q < t.len() && t[q] == s[p];
            assert(t[q].frequency == occ(ts, t[q].word@));
        }
        assert forall|p2: int, q2: int| 0 <= p2 < q2 < s.len() implies (#[trigger] s[p2]).word@
            != (#[trigger] s[q2]).word@ by {
            if s[p2] == s[q2] {
                let e = s[p2];
                assert(s.remove(p2).to_multiset() =~= s.to_multiset().remove(e));
                assert(s.remove(p2)[q2 - 1] == e);
                assert(s.remove(p2).contains(e));
                assert(s.remove(p2).to_multiset().count(e) > 0);
                assert(t.to_multiset().count(e) >= 2);
                lemma_count_at_most_one(t, e);
            } else {
                assert(s.contains(s[p2]));
                assert(s.contains(s[q2]));
                assert(t.to_multiset().count(s[p2]) > 0);
                assert(t.to_multiset().count(s[q2]) > 0);
                assert(t.contains(s[p2]));
                assert(t.contains(s[q2]));
                let a = choose|a: int| 0 <= a < t.len() && t[a] == s[p2];
                let b = choose|b: int| 0 <= b < t.len() && t[b] == s[q2];
                if t[a].word@ == t[b].word@ {
                    assert(a != b);
                }
            }
        }
        assert forall|i: int| 0 <= i < ts.len() implies count_eq(s, #[trigger] ts[i]) >= 1 by {
            lemma_count_eq_perm(s, t, ts[i]);
            assert(count_eq(t, ts[i]) >= 1);
        }
    }
}

/// A sequence of entries with pairwise distinct words holds any one entry
/// at most once.
proof fn lemma_count_at_most_one(t: Seq<SortedWord>, e: SortedWord)
    requires
        forall|p: int, q: int|
            0 <= p < q < t.len() ==> (#[trigger] t[p]).word@ != (#[trigger] t[q]).word@,
    ensures
        t.to_multiset().count(e) <= 1,
{
    if t.to_multiset().count(e) >= 2 {
        assert(t.to_multiset().count(e) > 0);
        assert(t.contains(e));
        let a = choose|a: int| 0 <= a < t.len() && t[a] == e;
        let t2 = t.remove(a);
        assert(t2.to_multiset() =~= t.to_multiset().remove(e));
        assert(t2.to_multiset().count(e) > 0);
        assert(t2.contains(e));
        let b = choose|b: int| 0 <= b < t2.len() && t2[b] == e;
        if b < a {
            assert(t[b] == e);
            assert(t[b].word@ != t[a].word@);
        } else {
            assert(t[b + 1] == e);
            assert(t[a].word@ != t[b + 1].word@);
        }
    }
}

// --- the size guard ---

/// One more than the character count of each message body, summed; a
/// cheap upper bound on the number of tokens.
pub open spec fn char_budget(ms: Seq<Message>) -> nat
    decreases ms.len(),
{
    if ms.len() == 0 {
        0
    } else {
        char_budget(ms.drop_last()) + ms.last().contents@.len() + 1
    }
}

pub proof fn lemma_msg_tokens_budget(c: Seq<char>)
    ensures
        msg_tokens(c).len() <= c.len() + 1,
{
    lemma_split_len(normalize_spec(trim_spec(c)));
    lemma_trim_len(c);
}

pub proof fn lemma_tokens_budget(ms: Seq<Message>)
    ensures
        all_tokens(ms).len() <= char_budget(ms),
    decreases ms.len(),
{
    if ms.len() > 0 {
        lemma_tokens_budget(ms.drop_last());
        lemma_msg_tokens_budget(ms.last().contents@);
    }
}

/// Builds the index after checking that the corpus is small enough for
/// exact 64-bit counts; a corpus whose bodies hold more characters than a
/// `u64` counts is refused rather than miscounted.
pub fn build_index(corpus: &Vec<Message>) -> (r: Option<Vec<SortedWord>>)
    ensures
        match r {
            Some(idx) => all_tokens(corpus@).len() <= u64::MAX && is_index(idx@, corpus@),
            None => char_budget(corpus@) > u64::MAX,
        },
{
    let mut budget: u64 = 0;
    let mut m: usize = 0;
    proof {
        assert(corpus@.take(0) =~= Seq::<Message>::empty());
    }
    while m < corpus.len()
        invariant
            m <= corpus@.len(),
            budget == char_budget(corpus@.take(m as int)),
        decreases corpus@.len() - m,
    {
        let len = corpus[m].contents.as_str().unicode_len();
        proof {
            assert(corpus@.take(m as int + 1).drop_last() =~= corpus@.take(m as int));
            assert(corpus@.take(m as int + 1).last() == corpus@[m as int]);
        }
        let step = match (len as u64).checked_add(1) {
            Some(s) => s,
            None => {
                proof {
                    lemma_char_budget_prefix(corpus@, m as int + 1);
                }
                return None;
            },
        };
        budget = match budget.checked_add(step) {
            Some(b) => b,
            None => {
                proof {
                    lemma_char_budget_prefix(corpus@, m as int + 1);
                }
                return None;
            },
        };
        m = m + 1;
    }
    proof {
        assert(corpus@.take(corpus@.len() as int) =~= corpus@);
        lemma_tokens_budget(corpus@);
    }
    Some(count_words(corpus))
}

/// The budget only grows with the corpus prefix.
proof fn lemma_char_budget_prefix(ms: Seq<Message>, m: int)
    requires
        0 <= m <= ms.len(),
    ensures
        char_budget(ms.take(m)) <= char_budget(ms),
    decreases ms.len() - m,
{
    if m == ms.len() {
        assert(ms.take(m) =~= ms);
    } else {
        assert(ms.take(m + 1).drop_last() =~= ms.take(m));
        assert(ms.take(m + 1).last() == ms[m]);
        lemma_char_budget_prefix(ms, m + 1);
    }
}

// --- stated properties of the index ---

/// The words of the index are exactly the distinct tokens of the corpus.
pub proof fn lemma_index_words_are_tokens(idx: Seq<SortedWord>, ms: Seq<Message>)
    requires
        is_index(idx, ms),
    ensures
        forall|w: Seq<char>|
            (exists|p: int| 0 <= p < idx.len() && (#[trigger] idx[p]).word@ == w) <==> #[trigger]
                all_tokens(ms).contains(w),
{
    let ts = all_tokens(ms);
    assert forall|w: Seq<char>|
        (exists|p: int| 0 <= p < idx.len() && (#[trigger] idx[p]).word@ == w) implies #[trigger]
        ts.contains(w) by {
        let p = choose|p: int| 0 <= p < idx.len() && idx[p].word@ == w;
        lemma_occ_pos(ts, w);
        assert(occ(ts, w) == idx[p].frequency >= 1);
    }
    assert forall|w: Seq<char>| #[trigger]
        ts.contains(w) implies (exists|p: int|
        0 <= p < idx.len() && (#[trigger] idx[p]).word@ == w) by {
        let i = choose|i: int| 0 <= i < ts.len() && ts[i] == w;
        assert(count_eq(idx, ts[i]) >= 1);
        lemma_count_eq_pos(idx, w);
    }
}

/// The frequencies of the index, summed in index order.
pub open spec fn sum_freq(idx: Seq<SortedWord>) -> nat
    decreases idx.len(),
{
    if idx.len() == 0 {
        0
    } else {
        (sum_freq(idx.drop_last()) + idx.last().frequency) as nat
    }
}

/// The occurrence counts of every indexed word, summed in index order.
spec fn occ_sum(idx: Seq<SortedWord>, ts: Seq<Seq<char>>) -> nat
    decreases idx.len(),
{
    if idx.len() == 0 {
        0
    } else {
        occ_sum(idx.drop_last(), ts) + occ(ts, idx.last().word@)
    }
}

proof fn lemma_sum_freq_is_occ_sum(idx: Seq<SortedWord>, ts: Seq<Seq<char>>)
    requires
        forall|p: int|
            0 <= p < idx.len() ==> (#[trigger] idx[p]).frequency == occ(ts, idx[p].word@),
    ensures
        sum_freq(idx) == occ_sum(idx, ts),
    decreases idx.len(),
{
    if idx.len() > 0 {
        assert(forall|p: int| 0 <= p < idx.len() - 1 ==> idx.drop_last()[p] == idx[p]);
        lemma_sum_freq_is_occ_sum(idx.drop_last(), ts);
        assert(idx.last() == idx[idx.len() - 1]);
    }
}

proof fn lemma_occ_sum_empty(idx: Seq<SortedWord>, ts: Seq<Seq<char>>)
    requires
        ts.len() == 0,
    ensures
        occ_sum(idx, ts) == 0,
    decreases idx.len(),
{
    if idx.len() > 0 {
        lemma_occ_sum_empty(idx.drop_last(), ts);
    }
}

proof fn lemma_occ_sum_drop(idx: Seq<SortedWord>, ts: Seq<Seq<char>>)
    requires
        ts.len() > 0,
    ensures
        occ_sum(idx, ts) == occ_sum(idx, ts.drop_last()) + count_eq(idx, ts.last()),
    decreases idx.len(),
{
    if idx.len() > 0 {
        lemma_occ_sum_drop(idx.drop_last(), ts);
    }
}

/// Distinct words are counted at most once.
proof fn lemma_count_eq_at_most_one(idx: Seq<SortedWord>, w: Seq<char>)
    requires
        forall|p: int, q: int|
            0 <= p < q < idx.len() ==> (#[trigger] idx[p]).word@ != (#[trigger] idx[q]).word@,
    ensures
        count_eq(idx, w) <= 1,
    decreases idx.len(),
{
    if idx.len() > 0 {
        assert(forall|p: int| 0 <= p < idx.len() - 1 ==> idx.drop_last()[p] == idx[p]);
        if idx.last().word@ == w {
            assert(idx.last() == idx[idx.len() - 1]);
            assert(forall|p: int|
                0 <= p < idx.len() - 1 ==> (#[trigger] idx.drop_last()[p]).word@ != w);
            lemma_count_eq_zero(idx.drop_last(), w);
        } else {
            lemma_count_eq_at_most_one(idx.drop_last(), w);
        }
    }
}

proof fn lemma_occ_sum_counts(idx: Seq<SortedWord>, ts: Seq<Seq<char>>)
    requires
        forall|i: int| 0 <= i < ts.len() ==> count_eq(idx, #[trigger] ts[i]) == 1,
    ensures
        occ_sum(idx, ts) == ts.len(),
    decreases ts.len(),
{
    if ts.len() == 0 {
        lemma_occ_sum_empty(idx, ts);
    } else {
        let dl = ts.drop_last();
        assert forall|i: int| 0 <= i < dl.len() implies count_eq(idx, #[trigger] dl[i]) == 1 by {
            assert(dl[i] == ts[i]);
        }
        lemma_occ_sum_counts(idx, dl);
        lemma_occ_sum_drop(idx, ts);
        assert(ts.last() == ts[ts.len() - 1]);
        assert(count_eq(idx, ts.last()) == 1);
    }
}

/// The frequencies of the index sum to the total token count of the
/// corpus, the empty tokens of collapsed delimiters included.
pub proof fn lemma_frequency_sum(idx: Seq<SortedWord>, ms: Seq<Message>)
    requires
        is_index(idx, ms),
    ensures
        sum_freq(idx) == all_tokens(ms).len(),
{
    lemma_sum_freq_is_occ_sum(idx, all_tokens(ms));
    assert forall|i: int| 0 <= i < all_tokens(ms).len() implies count_eq(
        idx,
        #[trigger] all_tokens(ms)[i],
    ) == 1 by {
        assert(count_eq(idx, all_tokens(ms)[i]) >= 1);
        lemma_count_eq_at_most_one(idx, all_tokens(ms)[i]);
    }
    lemma_occ_sum_counts(idx, all_tokens(ms));
}

/// An empty corpus yields an empty index.
pub proof fn lemma_empty_corpus_empty_index(idx: Seq<SortedWord>, ms: Seq<Message>)
    requires
        is_index(idx, ms),
        ms.len() == 0,
    ensures
        idx.len() == 0,
{
    if idx.len() > 0 {
        assert(idx[0].frequency == occ(all_tokens(ms), idx[0].word@));
        assert(occ(all_tokens(ms), idx[0].word@) == 0);
    }
}

/// A non-empty index word is flagged alphanumeric-only exactly when every
/// one of its characters is alphanumeric. The empty token, which arises
/// from consecutive delimiters, carries the flag vacuously.
pub proof fn lemma_only_text_meaning(idx: Seq<SortedWord>, ms: Seq<Message>, p: int)
    requires
        is_index(idx, ms),
        0 <= p < idx.len(),
        idx[p].word@.len() > 0,
    ensures
        idx[p].only_text <==> (idx[p].word@.len() > 0 && forall|i: int|
            0 <= i < idx[p].word@.len() ==> is_alnum(#[trigger] idx[p].word@[i])),
{
}


/// Entries whose keys dominate each other carry the same key.
proof fn lemma_word_key_antisym(x1: SortedWord, x2: SortedWord, y1: SortedWord, y2: SortedWord)
    requires
        word_le(x1, y1),
        word_le(x2, y2),
        y1.word@ == x2.word@,
        y1.frequency == x2.frequency,
        y2.word@ == x1.word@,
        y2.frequency == x1.frequency,
    ensures
        x1.word@ == x2.word@,
        x1.frequency == x2.frequency,
{
    if x1.word@ != x2.word@ {
        crate::text::lemma_lex_asym(x1.word@, x2.word@);
    }
}

/// Sorted sequences of distinct entries that hold every word equally
/// often, with the frequency and the classification a function of the
/// word, are equal position by position.
proof fn lemma_sorted_unique(a: Seq<SortedWord>, b: Seq<SortedWord>)
    requires
        sorted_words(a),
        sorted_words(b),
        forall|p: int, q: int|
            0 <= p < q < a.len() ==> (#[trigger] a[p]).word@ != (#[trigger] a[q]).word@,
        forall|p: int, q: int|
            0 <= p < q < b.len() ==> (#[trigger] b[p]).word@ != (#[trigger] b[q]).word@,
        forall|w: Seq<char>| #[trigger] count_eq(a, w) == count_eq(b, w),
        forall|p: int, q: int|
            0 <= p < a.len() && 0 <= q < b.len() && (#[trigger] a[p]).word@ == (#[trigger] b[q]).word@
                ==> a[p].frequency == b[q].frequency && a[p].only_text == b[q].only_text,
    ensures
        a.len() == b.len(),
        forall|p: int|
            0 <= p < a.len() ==> (#[trigger] a[p]).word@ == b[p].word@ && a[p].frequency
                == b[p].frequency && a[p].only_text == b[p].only_text,
    decreases a.len(),
{
    if a.len() == 0 {
        if b.len() > 0 {
            lemma_count_eq_lower(b, 0);
            lemma_count_eq_zero(a, b[0].word@);
        }
    } else if b.len() == 0 {
        lemma_count_eq_lower(a, 0);
        lemma_count_eq_zero(b, a[0].word@);
    } else {
        // the first entries carry the same word
        lemma_count_eq_lower(a, 0);
        lemma_count_eq_pos(b, a[0].word@);
        let q0 = choose|q: int| 0 <= q < b.len() && (#[trigger] b[q]).word@ == a[0].word@;
        lemma_count_eq_lower(b, 0);
        lemma_count_eq_pos(a, b[0].word@);
        let p0 = choose|p: int| 0 <= p < a.len() && (#[trigger] a[p]).word@ == b[0].word@;
        assert(word_le(a[0], a[p0]));
        assert(word_le(b[0], b[q0]));
        lemma_word_key_antisym(a[0], b[0], a[p0], b[q0]);
        assert(a[0].word@ == b[0].word@);
        // the tails satisfy the same hypotheses
        let a2 = a.drop_first();
        let b2 = b.drop_first();
        assert(forall|p: int| 0 <= p < a2.len() ==> a2[p] == a[p + 1]);
        assert(forall|q: int| 0 <= q < b2.len() ==> b2[q] == b[q + 1]);
        assert forall|w: Seq<char>| #[trigger] count_eq(a2, w) == count_eq(b2, w) by {
            lemma_count_eq_remove(a, 0, w);
            lemma_count_eq_remove(b, 0, w);
            assert(a.remove(0) =~= a2);
            assert(b.remove(0) =~= b2);
        }
        lemma_sorted_unique(a2, b2);
        assert forall|p: int|
            0 <= p < a.len() implies (#[trigger] a[p]).word@ == b[p].word@ && a[p].frequency
            == b[p].frequency && a[p].only_text == b[p].only_text by {
            if p > 0 {
                assert(a2[p - 1] == a[p]);
                assert(b2[p - 1] == b[p]);
            }
        }
    }
}

/// Re-running the derivation on the same corpus yields the same index,
/// entry for entry and in the same order: the deterministic secondary
/// sort key makes the whole presentation reproducible.
pub proof fn lemma_index_unique(idx1: Seq<SortedWord>, idx2: Seq<SortedWord>, ms: Seq<Message>)
    requires
        is_index(idx1, ms),
        is_index(idx2, ms),
    ensures
        idx1.len() == idx2.len(),
        forall|p: int|
            0 <= p < idx1.len() ==> (#[trigger] idx1[p]).word@ == idx2[p].word@
                && idx1[p].frequency == idx2[p].frequency && idx1[p].only_text
                == idx2[p].only_text,
{
    let ts = all_tokens(ms);
    assert forall|w: Seq<char>| #[trigger] count_eq(idx1, w) == count_eq(idx2, w) by {
        lemma_count_eq_at_most_one(idx1, w);
        lemma_count_eq_at_most_one(idx2, w);
        if count_eq(idx1, w) >= 1 {
            lemma_count_eq_pos(idx1, w);
            let p = choose|p: int| 0 <= p < idx1.len() && (#[trigger] idx1[p]).word@ == w;
            lemma_occ_pos(ts, w);
            assert(idx1[p].frequency == occ(ts, w) >= 1);
            let i = choose|i: int| 0 <= i < ts.len() && ts[i] == w;
            assert(count_eq(idx2, ts[i]) >= 1);
        }
        if count_eq(idx2, w) >= 1 {
            lemma_count_eq_pos(idx2, w);
            let q = choose|q: int| 0 <= q < idx2.len() && (#[trigger] idx2[q]).word@ == w;
            lemma_occ_pos(ts, w);
            assert(idx2[q].frequency == occ(ts, w) >= 1);
            let i = choose|i: int| 0 <= i < ts.len() && ts[i] == w;
            assert(count_eq(idx1, ts[i]) >= 1);
        }
    }
    lemma_sorted_unique(idx1, idx2);
}

} // verus!
