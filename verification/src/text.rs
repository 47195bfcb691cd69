//! Text primitives the indexer and the search engine are built on:
//! character classification, trimming, newline normalization, splitting
//! on the space delimiter, alphanumeric filtering, substring containment
//! and lexicographic comparison.
use vstd::prelude::*;
use vstd::std_specs::iter::IteratorSpec;

verus! {

// --- character classification and case folding (trusted) ---

/// The classification `char::is_alphanumeric` computes for each character.
pub uninterp spec fn is_alnum(c: char) -> bool;

/// The classification `char::is_whitespace` computes for each character.
pub uninterp spec fn is_space(c: char) -> bool;

/// The character sequence `str::to_lowercase` produces for a given input.
pub uninterp spec fn lower_of(s: Seq<char>) -> Seq<char>;

/// Relies on char::is_alphanumeric: a fixed classification of the
/// character alone.
pub assume_specification[ char::is_alphanumeric ](c: char) -> (r: bool)
    ensures
        r == is_alnum(c),
;

/// Relies on char::is_whitespace: a fixed classification of the
/// character alone.
pub assume_specification[ char::is_whitespace ](c: char) -> (r: bool)
    ensures
        r == is_space(c),
;

/// Relies on String::push: appends the given character at the end.
pub assume_specification[ String::push ](s: &mut String, c: char)
    ensures
        final(s)@ == old(s)@.push(c),
;

/// Relies on str::to_lowercase: the lowercased text is a function of the
/// input characters alone, and an empty input yields an empty result.
#[verifier::external_body]
pub(crate) fn lowercase(s: &str) -> (r: String)
    ensures
        r@ == lower_of(s@),
        s@.len() == 0 ==> r@.len() == 0,
{
    s.to_lowercase()
}

// --- characters of a string ---

/// Collects the characters of a string slice into a vector.
pub fn str_chars(s: &str) -> (r: Vec<char>)
    ensures
        r@ == s@,
{
    let mut r: Vec<char> = Vec::new();
    for c in it: s.chars()
        invariant
            it.seq() == s@,
            r@ == it.seq().take(it.index() as int),
    {
        r.push(c);
        proof {
            assert(it.seq().take(it.index() as int).push(c) =~= it.seq().take(
                it.index() as int + 1,
            ));
        }
    }
    proof {
        assert(r@ =~= s@);
    }
    r
}

/// Builds a string whose characters are exactly those of the vector.
pub fn chars_to_string(v: &Vec<char>) -> (r: String)
    ensures
        r@ == v@,
{
    let mut r = String::new();
    let mut i: usize = 0;
    while i < v.len()
        invariant
            i <= v@.len(),
            r@ == v@.take(i as int),
        decreases v@.len() - i,
    {
        r.push(v[i]);
        proof {
            assert(v@.take(i as int).push(v@[i as int]) =~= v@.take(i as int + 1));
        }
        i = i + 1;
    }
    proof {
        assert(v@.take(v@.len() as int) =~= v@);
    }
    r
}

// --- trimming ---

/// The sequence with its leading whitespace removed.
pub open spec fn trim_front(s: Seq<char>) -> Seq<char>
    decreases s.len(),
{
    if s.len() > 0 && is_space(s[0]) {
        trim_front(s.drop_first())
    } else {
        s
    }
}

/// The sequence with its trailing whitespace removed.
pub open spec fn trim_back(s: Seq<char>) -> Seq<char>
    decreases s.len(),
{
    if s.len() > 0 && is_space(s.last()) {
        trim_back(s.drop_last())
    } else {
        s
    }
}

/// The sequence with leading and trailing whitespace removed, as
/// `str::trim` computes it.
pub open spec fn trim_spec(s: Seq<char>) -> Seq<char> {
    trim_back(trim_front(s))
}

pub proof fn lemma_trim_front_len(s: Seq<char>)
    ensures
        trim_front(s).len() <= s.len(),
    decreases s.len(),
{
    if s.len() > 0 && is_space(s[0]) {
        lemma_trim_front_len(s.drop_first());
    }
}

pub proof fn lemma_trim_back_len(s: Seq<char>)
    ensures
        trim_back(s).len() <= s.len(),
    decreases s.len(),
{
    if s.len() > 0 && is_space(s.last()) {
        lemma_trim_back_len(s.drop_last());
    }
}

/// Trimming never lengthens a sequence.
pub proof fn lemma_trim_len(s: Seq<char>)
    ensures
        trim_spec(s).len() <= s.len(),
{
    lemma_trim_front_len(s);
    lemma_trim_back_len(trim_front(s));
}

/// Removes leading and trailing whitespace characters.
pub fn trim_chars(v: &Vec<char>) -> (r: Vec<char>)
    ensures
        r@ == trim_spec(v@),
{
    let n = v.len();
    proof {
        assert(v@.skip(0) =~= v@);
    }
    let mut a: usize = 0;
    while a < n && v[a].is_whitespace()
        invariant
            n == v@.len(),
            a <= n,
            trim_front(v@) == trim_front(v@.skip(a as int)),
        decreases n - a,
    {
        proof {
            assert(v@.skip(a as int).drop_first() =~= v@.skip(a as int + 1));
        }
        a = a + 1;
    }
    proof {
        if a < n {
            assert(trim_front(v@.skip(a as int)) == v@.skip(a as int));
        } else {
            assert(v@.skip(a as int) =~= Seq::<char>::empty());
        }
        assert(trim_front(v@) == v@.skip(a as int));
        assert(v@.skip(a as int) =~= v@.subrange(a as int, n as int));
    }
    let mut b: usize = n;
    while b > a && v[b - 1].is_whitespace()
        invariant
            n == v@.len(),
            a <= b <= n,
            trim_back(v@.skip(a as int)) == trim_back(v@.subrange(a as int, b as int)),
        decreases b,
    {
        proof {
            assert(v@.subrange(a as int, b as int).drop_last() =~= v@.subrange(
                a as int,
                b as int - 1,
            ));
            assert(v@.subrange(a as int, b as int).last() == v@[b as int - 1]);
        }
        b = b - 1;
    }
    proof {
        if b > a {
            assert(v@.subrange(a as int, b as int).last() == v@[b as int - 1]);
            assert(trim_back(v@.subrange(a as int, b as int)) == v@.subrange(a as int, b as int));
        } else {
            assert(v@.subrange(a as int, b as int) =~= Seq::<char>::empty());
        }
        assert(trim_spec(v@) == v@.subrange(a as int, b as int));
    }
    let mut r: Vec<char> = Vec::new();
    let mut i: usize = a;
    while i < b
        invariant
            a <= i <= b <= n,
            n == v@.len(),
            r@ == v@.subrange(a as int, i as int),
        decreases b - i,
    {
        r.push(v[i]);
        proof {
            assert(v@.subrange(a as int, i as int).push(v@[i as int]) =~= v@.subrange(
                a as int,
                i as int + 1,
            ));
        }
        i = i + 1;
    }
    r
}

// --- newline normalization ---

/// Line breaks replaced by single spaces, as the indexer normalizes
/// message bodies.
pub open spec fn normalize_spec(s: Seq<char>) -> Seq<char> {
    s.map_values(|c: char| if c == '\n' { ' ' } else { c })
}

/// Replaces each newline character by a space.
pub fn normalize_chars(v: &Vec<char>) -> (r: Vec<char>)
    ensures
        r@ == normalize_spec(v@),
{
    let mut r: Vec<char> = Vec::new();
    let mut i: usize = 0;
    while i < v.len()
        invariant
            i <= v@.len(),
            r@.len() == i,
            forall|j: int| 0 <= j < i ==> r@[j] == (if v@[j] == '\n' {
                ' '
            } else {
                v@[j]
            }),
        decreases v@.len() - i,
    {
        let c = v[i];
        if c == '\n' {
            r.push(' ');
        } else {
            r.push(c);
        }
        i = i + 1;
    }
    proof {
        assert(r@ =~= normalize_spec(v@));
    }
    r
}

// --- splitting on the space delimiter ---

/// The pieces of `s` between occurrences of the space character, empty
/// pieces included, exactly as `str::split(" ")` yields them.
pub open spec fn split_spec(s: Seq<char>) -> Seq<Seq<char>>
    decreases s.len(),
{
    if s.len() == 0 {
        seq![Seq::<char>::empty()]
    } else if s[0] == ' ' {
        seq![Seq::<char>::empty()] + split_spec(s.drop_first())
    } else {
        let rest = split_spec(s.drop_first());
        seq![seq![s[0]] + rest[0]] + rest.drop_first()
    }
}

pub proof fn lemma_split_nonempty(s: Seq<char>)
    ensures
        split_spec(s).len() >= 1,
    decreases s.len(),
{
    if s.len() > 0 && s[0] != ' ' {
        lemma_split_nonempty(s.drop_first());
    }
}

/// Splitting yields at most one piece per character, plus one.
pub proof fn lemma_split_len(s: Seq<char>)
    ensures
        split_spec(s).len() <= s.len() + 1,
    decreases s.len(),
{
    if s.len() > 0 {
        lemma_split_len(s.drop_first());
    }
}

spec fn glue(cur: Seq<char>, rest: Seq<Seq<char>>) -> Seq<Seq<char>> {
    seq![cur + rest[0]] + rest.drop_first()
}

/// Splits on the space character, keeping empty pieces.
pub fn split_chars(v: &Vec<char>) -> (r: Vec<Vec<char>>)
    ensures
        r@.map_values(|t: Vec<char>| t@) == split_spec(v@),
{
    let mut r: Vec<Vec<char>> = Vec::new();
    let mut cur: Vec<char> = Vec::new();
    let ghost f = |t: Vec<char>| t@;
    let mut i: usize = 0;
    proof {
        assert(v@.skip(0) =~= v@);
        assert(r@.map_values(f) + glue(cur@, split_spec(v@)) =~~= glue(cur@, split_spec(v@)));
    }
    while i < v.len()
        invariant
            i <= v@.len(),
            split_spec(v@) == r@.map_values(f) + glue(cur@, split_spec(v@.skip(i as int))),
            f == (|t: Vec<char>| t@),
        decreases v@.len() - i,
    {
        let ghost s_i = v@.skip(i as int);
        let ghost s_n = v@.skip(i as int + 1);
        proof {
            lemma_split_nonempty(s_n);
            assert(s_i.len() > 0 && s_i[0] == v@[i as int]);
            assert(s_i.drop_first() =~= s_n);
        }
        let c = v[i];
        if c == ' ' {
            proof {
                assert(split_spec(s_i) == seq![Seq::<char>::empty()] + split_spec(s_n));
                assert(glue(cur@, split_spec(s_i)) =~~= seq![cur@] + split_spec(s_n));
                assert(seq![split_spec(s_n)[0]] + split_spec(s_n).drop_first() =~= split_spec(
                    s_n,
                ));
                assert(seq![cur@] + split_spec(s_n) =~~= seq![cur@] + glue(
                    Seq::<char>::empty(),
                    split_spec(s_n),
                ));
                assert(r@.map_values(f) + glue(cur@, split_spec(s_i)) =~~= r@.map_values(f).push(
                    cur@,
                ) + glue(Seq::<char>::empty(), split_spec(s_n)));
                assert(r@.push(cur).map_values(f) =~= r@.map_values(f).push(cur@));
            }
            r.push(cur);
            cur = Vec::new();
        } else {
            proof {
                let rest = split_spec(s_n);
                assert(split_spec(s_i) == seq![seq![v@[i as int]] + rest[0]] + rest.drop_first());
                assert(glue(cur@, split_spec(s_i)) =~~= glue(cur@.push(v@[i as int]), rest));
            }
            cur.push(c);
        }
        i = i + 1;
    }
    proof {
        assert(v@.skip(v@.len() as int) =~= Seq::<char>::empty());
        assert(split_spec(Seq::<char>::empty()) == seq![Seq::<char>::empty()]);
        assert(glue(cur@, seq![Seq::<char>::empty()]) =~~= seq![cur@]);
        assert(r@.push(cur).map_values(f) =~= r@.map_values(f).push(cur@));
        assert(r@.map_values(f).push(cur@) =~~= r@.map_values(f) + seq![cur@]);
    }
    r.push(cur);
    proof {
        assert(r@.map_values(f) =~~= split_spec(v@));
    }
    r
}

// --- substring containment ---

/// `needle` occurs contiguously somewhere inside `hay`; the meaning of
/// `str::contains` with a string pattern.
pub open spec fn contains_sub(hay: Seq<char>, needle: Seq<char>) -> bool {
    exists|k: int|
        0 <= k && k + needle.len() <= hay.len() && #[trigger] hay.subrange(k, k + needle.len())
            == needle
}

/// Substring search; reports whether `needle` occurs inside `hay`.
pub fn contains_chars(hay: &Vec<char>, needle: &Vec<char>) -> (r: bool)
    ensures
        r == contains_sub(hay@, needle@),
{
    let n = needle.len();
    let h = hay.len();
    if n > h {
        return false;
    }
    let mut k: usize = 0;
    while k <= h - n
        invariant
            n == needle@.len(),
            h == hay@.len(),
            n <= h,
            k <= h - n + 1,
            forall|k0: int|
                0 <= k0 < k ==> #[trigger] hay@.subrange(k0, k0 + needle@.len()) != needle@,
        decreases h - n - k + 1,
    {
        let mut j: usize = 0;
        let mut ok = true;
        while j < n
            invariant
                n == needle@.len(),
                h == hay@.len(),
                k + n <= h,
                j <= n,
                ok <==> (forall|j0: int| 0 <= j0 < j ==> hay@[k + j0] == needle@[j0]),
            decreases n - j,
        {
            if hay[k + j] != needle[j] {
                ok = false;
            }
            j = j + 1;
        }
        if ok {
            proof {
                assert(hay@.subrange(k as int, k as int + needle@.len()) =~= needle@);
            }
            return true;
        }
        proof {
            let j0 = choose|j0: int| 0 <= j0 < n && hay@[k + j0] != needle@[j0];
            assert(hay@.subrange(k as int, k as int + needle@.len())[j0] == hay@[k + j0]);
        }
        k = k + 1;
    }
    proof {
        assert forall|k0: int|
            0 <= k0 && k0 + needle@.len() <= hay@.len() implies #[trigger] hay@.subrange(
            k0,
            k0 + needle@.len(),
        ) != needle@ by {
            assert(k0 < k);
        }
    }
    false
}

// --- alphanumeric classification and filtering ---

/// Every character of the sequence is alphanumeric; vacuously true of the
/// empty sequence.
pub open spec fn all_alnum(s: Seq<char>) -> bool {
    forall|i: int| 0 <= i < s.len() ==> is_alnum(#[trigger] s[i])
}

/// Reports whether every character is alphanumeric.
pub fn chars_all_alnum(v: &Vec<char>) -> (r: bool)
    ensures
        r == all_alnum(v@),
{
    let mut i: usize = 0;
    while i < v.len()
        invariant
            i <= v@.len(),
            forall|j: int| 0 <= j < i ==> is_alnum(#[trigger] v@[j]),
        decreases v@.len() - i,
    {
        if !v[i].is_alphanumeric() {
            return false;
        }
        i = i + 1;
    }
    true
}

/// The subsequence of alphanumeric characters, in order.
pub open spec fn alnum_only(s: Seq<char>) -> Seq<char> {
    s.filter(|c: char| is_alnum(c))
}

/// Keeps the alphanumeric characters, dropping everything else.
pub fn filter_alnum(v: &Vec<char>) -> (r: Vec<char>)
    ensures
        r@ == alnum_only(v@),
{
    let ghost p = |c: char| is_alnum(c);
    let mut r: Vec<char> = Vec::new();
    let mut i: usize = 0;
    proof {
        reveal(Seq::filter);
        assert(v@.take(0) =~= Seq::<char>::empty());
    }
    while i < v.len()
        invariant
            i <= v@.len(),
            r@ == v@.take(i as int).filter(|c: char| is_alnum(c)),
        decreases v@.len() - i,
    {
        proof {
            reveal(Seq::filter);
            assert(v@.take(i as int + 1).drop_last() =~= v@.take(i as int));
            assert(v@.take(i as int + 1).last() == v@[i as int]);
        }
        let c = v[i];
        if c.is_alphanumeric() {
            r.push(c);
        }
        i = i + 1;
    }
    proof {
        assert(v@.take(v@.len() as int) =~= v@);
    }
    r
}

// --- lexicographic order on character sequences ---

/// Strict lexicographic order by character code; the deterministic
/// secondary sort key of the word index.
pub open spec fn lex_lt(a: Seq<char>, b: Seq<char>) -> bool
    decreases a.len(),
{
    if b.len() == 0 {
        false
    } else if a.len() == 0 {
        true
    } else if a[0] != b[0] {
        a[0] < b[0]
    } else {
        lex_lt(a.drop_first(), b.drop_first())
    }
}

/// Lexicographic order, allowing equality.
pub open spec fn lex_leq(a: Seq<char>, b: Seq<char>) -> bool {
    lex_lt(a, b) || a == b
}

/// The lexicographic order is total.
pub proof fn lemma_lex_total(a: Seq<char>, b: Seq<char>)
    ensures
        lex_leq(a, b) || lex_leq(b, a),
    decreases a.len(),
{
    if a.len() == 0 && b.len() == 0 {
        assert(a =~= b);
    } else if a.len() > 0 && b.len() > 0 {
        if a[0] == b[0] {
            lemma_lex_total(a.drop_first(), b.drop_first());
            if a.drop_first() == b.drop_first() {
                assert(a.drop_first().len() == b.drop_first().len());
                assert(a.len() == b.len());
                assert forall|j: int| 0 <= j < a.len() implies a[j] == b[j] by {
                    if j > 0 {
                        assert(a[j] == a.drop_first()[j - 1]);
                        assert(b[j] == b.drop_first()[j - 1]);
                    }
                }
                assert(a =~= b);
            }
        } else {
            assert(a[0] < b[0] || b[0] < a[0]);
        }
    }
}

/// The strict lexicographic order is transitive.
pub proof fn lemma_lex_lt_trans(a: Seq<char>, b: Seq<char>, c: Seq<char>)
    requires
        lex_lt(a, b),
        lex_lt(b, c),
    ensures
        lex_lt(a, c),
    decreases a.len(),
{
    if a.len() > 0 && b.len() > 0 && c.len() > 0 {
        if a[0] == b[0] && b[0] == c[0] {
            lemma_lex_lt_trans(a.drop_first(), b.drop_first(), c.drop_first());
        }
    }
}

/// The strict lexicographic order is asymmetric.
pub proof fn lemma_lex_asym(a: Seq<char>, b: Seq<char>)
    requires
        lex_lt(a, b),
    ensures
        !lex_lt(b, a),
    decreases a.len(),
{
    if a.len() > 0 && b.len() > 0 && a[0] == b[0] {
        lemma_lex_asym(a.drop_first(), b.drop_first());
    }
}

/// The lexicographic order with equality is transitive.
pub proof fn lemma_lex_trans(a: Seq<char>, b: Seq<char>, c: Seq<char>)
    requires
        lex_leq(a, b),
        lex_leq(b, c),
    ensures
        lex_leq(a, c),
{
    if a != b && b != c {
        lemma_lex_lt_trans(a, b, c);
    }
}

/// Decides the strict lexicographic order on character vectors.
pub fn lex_lt_chars(a: &Vec<char>, b: &Vec<char>) -> (r: bool)
    ensures
        r == lex_lt(a@, b@),
{
    let mut i: usize = 0;
    proof {
        assert(a@.skip(0) =~= a@);
        assert(b@.skip(0) =~= b@);
    }
    while i < a.len() && i < b.len() && a[i] == b[i]
        invariant
            i <= a@.len(),
            i <= b@.len(),
            lex_lt(a@, b@) == lex_lt(a@.skip(i as int), b@.skip(i as int)),
        decreases a@.len() - i,
    {
        proof {
            assert(a@.skip(i as int).drop_first() =~= a@.skip(i as int + 1));
            assert(b@.skip(i as int).drop_first() =~= b@.skip(i as int + 1));
        }
        i = i + 1;
    }
    proof {
        assert(a@.skip(i as int).len() == a@.len() - i);
        assert(b@.skip(i as int).len() == b@.len() - i);
    }
    if i >= b.len() {
        false
    } else if i >= a.len() {
        true
    } else {
        proof {
            assert(a@.skip(i as int)[0] == a@[i as int]);
            assert(b@.skip(i as int)[0] == b@[i as int]);
        }
        a[i] < b[i]
    }
}

} // verus!
