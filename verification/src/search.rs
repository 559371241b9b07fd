//! Find and find-and-replace over the text of a document.
//!
//! Matches are half-open ranges `[start, end)` of character indices into the
//! document. Matching is leftmost-first and non-overlapping, optionally
//! ignoring case and optionally restricted to whole words.

use vstd::prelude::*;
use crate::text::{chars_of, decimal, push_chars, push_decimal, push_str_chars, string_from_chars, fold_lowercase, is_alphanumeric, alphanumeric, fold_char, ascii_lower};

verus! {

/// The characters `s` as compared by the search: unchanged when case
/// matters, else each folded to (the first character of) its lowercase form.
pub open spec fn fold_seq(s: Seq<char>, case_sensitive: bool) -> Seq<char> {
    if case_sensitive {
        s
    } else {
        s.map_values(|c: char| fold_char(c))
    }
}

/// A character that belongs to a word: alphanumeric or an underscore.
pub open spec fn is_word_char(c: char) -> bool {
    alphanumeric(c) || c == '_'
}

/// Whether an occurrence of `query` starts at character index `p` of `hay`.
#[verifier::opaque]
pub open spec fn is_match_at(
    hay: Seq<char>,
    query: Seq<char>,
    case_sensitive: bool,
    whole_word: bool,
    p: int,
) -> bool {
    let n = query.len() as int;
    &&& n > 0
    &&& 0 <= p && p + n <= hay.len()
    &&& fold_seq(hay, case_sensitive).subrange(p, p + n) == fold_seq(query, case_sensitive)
    &&& whole_word ==> {
        &&& (p == 0 || !is_word_char(hay[p - 1]))
        &&& (p + n == hay.len() || !is_word_char(hay[p + n]))
    }
}

/// Whole-word search keeps exactly the occurrences that neither follow nor
/// precede a word character, a word character being an alphanumeric
/// character (as `char::is_alphanumeric` says) or `_`: a character such
/// as a curly quote, a dash or a space next to an occurrence leaves it a
/// whole word.
pub proof fn lemma_whole_word_means_no_adjacent_word_character(
    hay: Seq<char>,
    query: Seq<char>,
    case_sensitive: bool,
    p: int,
)
    ensures
        is_match_at(hay, query, case_sensitive, true, p) <==> {
            &&& is_match_at(hay, query, case_sensitive, false, p)
            &&& (p == 0 || !(alphanumeric(hay[p - 1]) || hay[p - 1] == '_'))
            &&& (p + query.len() == hay.len() || !(alphanumeric(hay[p + query.len()]) || hay[p
                + query.len()] == '_'))
        },
{
    reveal(is_match_at);
}

/// `ms` is exactly the leftmost-first, non-overlapping sequence of
/// occurrences of `query` in `hay`: each entry is an occurrence, the entries
/// come in document order without overlapping, and every occurrence in
/// `hay` starts inside one of the entries (an occurrence that starts inside
/// an earlier one is skipped by the scan).
#[verifier::opaque]
pub open spec fn are_matches(
    hay: Seq<char>,
    query: Seq<char>,
    case_sensitive: bool,
    whole_word: bool,
    ms: Seq<(usize, usize)>,
) -> bool {
    &&& forall|k: int|
        #![trigger ms[k]]
        0 <= k < ms.len() ==> {
            &&& ms[k].1 == ms[k].0 + query.len()
            &&& is_match_at(hay, query, case_sensitive, whole_word, ms[k].0 as int)
        }
    &&& forall|i: int, j: int| 0 <= i < j < ms.len() ==> #[trigger] ms[i].1 <= #[trigger] ms[j].0
    &&& forall|p: int|
        #[trigger] is_match_at(hay, query, case_sensitive, whole_word, p) ==> exists|k: int|
            0 <= k < ms.len() && #[trigger] ms[k].0 <= p < ms[k].1
}

#[verifier::spinoff_prover]
proof fn lemma_matches_agree_up_to(
    hay: Seq<char>,
    query: Seq<char>,
    case_sensitive: bool,
    whole_word: bool,
    ms1: Seq<(usize, usize)>,
    ms2: Seq<(usize, usize)>,
    j: int,
)
    requires
        are_matches(hay, query, case_sensitive, whole_word, ms1),
        are_matches(hay, query, case_sensitive, whole_word, ms2),
        0 <= j < ms1.len(),
        j < ms2.len(),
        forall|i: int| 0 <= i < j ==> ms1[i] == ms2[i],
    ensures
        ms1[j] == ms2[j],
{
    reveal(are_matches);
    let a = ms1[j].0 as int;
    let b = ms2[j].0 as int;
    if a < b {
        assert(is_match_at(hay, query, case_sensitive, whole_word, a));
        let k = choose|k: int| 0 <= k < ms2.len() && #[trigger] ms2[k].0 <= a < ms2[k].1;
        if k < j {
            assert(ms1[k] == ms2[k]);
            assert(ms1[k].1 <= ms1[j].0);
        } else if k > j {
            assert(ms2[j].1 <= ms2[k].0);
        }
    } else if b < a {
        assert(is_match_at(hay, query, case_sensitive, whole_word, b));
        let k = choose|k: int| 0 <= k < ms1.len() && #[trigger] ms1[k].0 <= b < ms1[k].1;
        if k < j {
            assert(ms1[k] == ms2[k]);
            assert(ms2[k].1 <= ms2[j].0);
        } else if k > j {
            assert(ms1[j].1 <= ms1[k].0);
        }
    }
    assert(ms1[j].1 == ms1[j].0 + query.len());
    assert(ms2[j].1 == ms2[j].0 + query.len());
}

proof fn lemma_matches_prefix(
    hay: Seq<char>,
    query: Seq<char>,
    case_sensitive: bool,
    whole_word: bool,
    ms1: Seq<(usize, usize)>,
    ms2: Seq<(usize, usize)>,
    n: int,
)
    requires
        are_matches(hay, query, case_sensitive, whole_word, ms1),
        are_matches(hay, query, case_sensitive, whole_word, ms2),
        0 <= n <= ms1.len(),
        n <= ms2.len(),
    ensures
        forall|i: int| 0 <= i < n ==> ms1[i] == ms2[i],
    decreases n,
{
    if n > 0 {
        lemma_matches_prefix(hay, query, case_sensitive, whole_word, ms1, ms2, n - 1);
        lemma_matches_agree_up_to(hay, query, case_sensitive, whole_word, ms1, ms2, n - 1);
    }
}

proof fn lemma_no_extra_match(
    hay: Seq<char>,
    query: Seq<char>,
    case_sensitive: bool,
    whole_word: bool,
    short: Seq<(usize, usize)>,
    long: Seq<(usize, usize)>,
)
    requires
        are_matches(hay, query, case_sensitive, whole_word, short),
        are_matches(hay, query, case_sensitive, whole_word, long),
        short.len() <= long.len(),
        forall|i: int| 0 <= i < short.len() ==> short[i] == long[i],
    ensures
        short.len() == long.len(),
{
    reveal(are_matches);
    if short.len() == long.len() {
        return;
    }
    let j = short.len() as int;
    let b = long[j].0 as int;
    assert(is_match_at(hay, query, case_sensitive, whole_word, b));
    let k = choose|k: int| 0 <= k < short.len() && #[trigger] short[k].0 <= b < short[k].1;
    assert(short[k] == long[k]);
    assert(long[k].1 <= long[j].0);
}

/// The occurrences that `find_matches` reports are determined by the text,
/// the query and the two options: two sequences that both meet
/// `are_matches` are the same sequence.
pub proof fn lemma_matches_unique(
    hay: Seq<char>,
    query: Seq<char>,
    case_sensitive: bool,
    whole_word: bool,
    ms1: Seq<(usize, usize)>,
    ms2: Seq<(usize, usize)>,
)
    requires
        are_matches(hay, query, case_sensitive, whole_word, ms1),
        are_matches(hay, query, case_sensitive, whole_word, ms2),
    ensures
        ms1 == ms2,
{
    if ms1.len() <= ms2.len() {
        lemma_matches_prefix(hay, query, case_sensitive, whole_word, ms1, ms2, ms1.len() as int);
        if ms1.len() < ms2.len() {
            lemma_no_extra_match(hay, query, case_sensitive, whole_word, ms1, ms2);
        }
    } else {
        lemma_matches_prefix(hay, query, case_sensitive, whole_word, ms1, ms2, ms2.len() as int);
        lemma_no_extra_match(hay, query, case_sensitive, whole_word, ms2, ms1);
    }
    reveal(are_matches);
    assert(ms1 =~= ms2);
}

/// The folded characters of `cs`.
fn fold_chars(cs: &Vec<char>, case_sensitive: bool) -> (out: Vec<char>)
    ensures
        out@ == fold_seq(cs@, case_sensitive),
{
    if case_sensitive {
        return cs.clone();
    }
    let mut out: Vec<char> = Vec::new();
    let mut i: usize = 0;
    while i < cs.len()
        invariant
            i <= cs.len(),
            out@ == cs@.take(i as int).map_values(|c: char| fold_char(c)),
        decreases cs.len() - i,
    {
        out.push(fold_lowercase(cs[i]));
        assert(cs@.take(i + 1) == cs@.take(i as int).push(cs@[i as int]));
        i += 1;
    }
    assert(cs@.take(cs.len() as int) == cs@);
    out
}

/// Whether `hay[start..start + needle.len()]` equals `needle`.
fn segment_equals(hay: &Vec<char>, needle: &Vec<char>, start: usize) -> (r: bool)
    requires
        start + needle.len() <= hay.len(),
    ensures
        r == (hay@.subrange(start as int, start + needle.len()) == needle@),
{
    let mut j: usize = 0;
    while j < needle.len()
        invariant
            start + needle.len() <= hay.len(),
            j <= needle.len(),
            forall|i: int| 0 <= i < j ==> hay@[start + i] == needle@[i],
        decreases needle.len() - j,
    {
        if hay[start + j] != needle[j] {
            assert(hay@.subrange(start as int, start + needle.len())[j as int] != needle@[j as int]);
            return false;
        }
        j += 1;
    }
    assert(hay@.subrange(start as int, start + needle.len()) =~= needle@);
    true
}

/// Find all non-overlapping occurrences of `query` in `text`, returning
/// character-index ranges `[start, end)` in document order.
pub fn find_matches(text: &str, query: &str, case_sensitive: bool, whole_word: bool) -> (result: Vec<
    (usize, usize),
>)
    ensures
        are_matches(text@, query@, case_sensitive, whole_word, result@),
{
    let mut result: Vec<(usize, usize)> = Vec::new();
    let hay = chars_of(text);
    let needle = chars_of(query);
    proof {
        lemma_scan_start(text@, query@, case_sensitive, whole_word);
    }
    if needle.len() == 0 {
        proof {
            lemma_scan_done(text@, query@, case_sensitive, whole_word, result@, 0);
        }
        return result;
    }
    let hay_f = fold_chars(&hay, case_sensitive);
    let needle_f = fold_chars(&needle, case_sensitive);
    if needle_f.len() > hay_f.len() {
        proof {
            lemma_scan_done(text@, query@, case_sensitive, whole_word, result@, 0);
        }
        return result;
    }
    let n = needle_f.len();
    let last_start = hay_f.len() - n;
    let mut start: usize = 0;
    while start <= last_start
        invariant
            hay@ == text@,
            needle@ == query@,
            hay_f@ == fold_seq(text@, case_sensitive),
            needle_f@ == fold_seq(query@, case_sensitive),
            n == query@.len() > 0,
            last_start + n == hay_f.len() == text@.len(),
            start <= text@.len(),
            scan_inv(text@, query@, case_sensitive, whole_word, result@, start as int),
        decreases text@.len() - start,
    {
        let seg = segment_equals(&hay_f, &needle_f, start);
        let mut accepted = false;
        if seg {
            let end = start + n;
            let ok = !whole_word || {
                let before_ok = start == 0 || !is_word_char_exec(hay[start - 1]);
                let after_ok = end == hay.len() || !is_word_char_exec(hay[end]);
                before_ok && after_ok
            };
            if ok {
                assert(is_match_at(text@, query@, case_sensitive, whole_word, start as int)) by {
                    reveal(is_match_at);
                }
                proof {
                    lemma_scan_take(text@, query@, case_sensitive, whole_word, result@, start as int);
                }
                result.push((start, end));
                accepted = true;
                start = end;
            } else {
                assert(!is_match_at(text@, query@, case_sensitive, whole_word, start as int)) by {
                    reveal(is_match_at);
                }
            }
        } else {
            assert(!is_match_at(text@, query@, case_sensitive, whole_word, start as int)) by {
                reveal(is_match_at);
            }
        }
        if !accepted {
            proof {
                lemma_scan_skip(text@, query@, case_sensitive, whole_word, result@, start as int);
            }
            start += 1;
        }
    }
    proof {
        lemma_scan_done(text@, query@, case_sensitive, whole_word, result@, start as int);
    }
    result
}

/// What the left-to-right scan of `find_matches` knows once it reaches
/// `start`: `ms` are occurrences in order, all ending by `start`, and every
/// occurrence before `start` lies inside one of them.
#[verifier::opaque]
spec fn scan_inv(
    hay: Seq<char>,
    query: Seq<char>,
    case_sensitive: bool,
    whole_word: bool,
    ms: Seq<(usize, usize)>,
    start: int,
) -> bool {
    &&& forall|k: int|
        #![trigger ms[k]]
        0 <= k < ms.len() ==> {
            &&& ms[k].1 == ms[k].0 + query.len()
            &&& is_match_at(hay, query, case_sensitive, whole_word, ms[k].0 as int)
            &&& ms[k].1 <= start
        }
    &&& forall|i: int, j: int| 0 <= i < j < ms.len() ==> #[trigger] ms[i].1 <= #[trigger] ms[j].0
    &&& forall|p: int|
        p < start && #[trigger] is_match_at(hay, query, case_sensitive, whole_word, p) ==> exists|
            k: int,
        | 0 <= k < ms.len() && #[trigger] ms[k].0 <= p < ms[k].1
}

proof fn lemma_scan_start(hay: Seq<char>, query: Seq<char>, case_sensitive: bool, whole_word: bool)
    ensures
        scan_inv(hay, query, case_sensitive, whole_word, seq![], 0),
{
    reveal(scan_inv);
    assert forall|p: int|
        p < 0 implies !#[trigger] is_match_at(hay, query, case_sensitive, whole_word, p) by {
        reveal(is_match_at);
    }
}

proof fn lemma_scan_skip(
    hay: Seq<char>,
    query: Seq<char>,
    case_sensitive: bool,
    whole_word: bool,
    ms: Seq<(usize, usize)>,
    start: int,
)
    requires
        scan_inv(hay, query, case_sensitive, whole_word, ms, start),
        !is_match_at(hay, query, case_sensitive, whole_word, start),
    ensures
        scan_inv(hay, query, case_sensitive, whole_word, ms, start + 1),
{
    reveal(scan_inv);
}

proof fn lemma_scan_take(
    hay: Seq<char>,
    query: Seq<char>,
    case_sensitive: bool,
    whole_word: bool,
    ms: Seq<(usize, usize)>,
    start: int,
)
    requires
        scan_inv(hay, query, case_sensitive, whole_word, ms, start),
        is_match_at(hay, query, case_sensitive, whole_word, start),
        0 <= start,
        start + query.len() <= usize::MAX,
    ensures
        scan_inv(
            hay,
            query,
            case_sensitive,
            whole_word,
            ms.push((start as usize, (start + query.len()) as usize)),
            start + query.len(),
        ),
{
    reveal(scan_inv);
    let end = start + query.len();
    let ms2 = ms.push((start as usize, end as usize));
    assert(query.len() > 0) by {
        reveal(is_match_at);
    }
    assert forall|p: int|
        p < end && #[trigger] is_match_at(hay, query, case_sensitive, whole_word, p) implies exists|
        k: int,
    | 0 <= k < ms2.len() && #[trigger] ms2[k].0 <= p < ms2[k].1 by {
        if p < start {
            let k = choose|k: int| 0 <= k < ms.len() && #[trigger] ms[k].0 <= p < ms[k].1;
            assert(ms2[k] == ms[k]);
        } else {
            assert(ms2[ms.len() as int] == (start as usize, end as usize));
            assert(ms2[ms.len() as int].0 <= p < ms2[ms.len() as int].1);
        }
    }
    assert forall|i: int, j: int| 0 <= i < j < ms2.len() implies #[trigger] ms2[i].1
        <= #[trigger] ms2[j].0 by {
        assert(ms2[i] == ms[i]);
        if j < ms.len() {
            assert(ms2[j] == ms[j]);
        }
    }
    assert forall|k: int| #![trigger ms2[k]] 0 <= k < ms2.len() implies {
        &&& ms2[k].1 == ms2[k].0 + query.len()
        &&& is_match_at(hay, query, case_sensitive, whole_word, ms2[k].0 as int)
        &&& ms2[k].1 <= end
    } by {
        if k < ms.len() {
            assert(ms2[k] == ms[k]);
        }
    }
}

proof fn lemma_scan_done(
    hay: Seq<char>,
    query: Seq<char>,
    case_sensitive: bool,
    whole_word: bool,
    ms: Seq<(usize, usize)>,
    start: int,
)
    requires
        scan_inv(hay, query, case_sensitive, whole_word, ms, start),
        start + query.len() > hay.len() || query.len() == 0,
    ensures
        are_matches(hay, query, case_sensitive, whole_word, ms),
{
    reveal(scan_inv);
    reveal(are_matches);
    assert forall|p: int| #[trigger] is_match_at(hay, query, case_sensitive, whole_word, p) implies exists|
        k: int,
    | 0 <= k < ms.len() && #[trigger] ms[k].0 <= p < ms[k].1 by {
        if p >= start {
            reveal(is_match_at);
        }
    }
}

/// Whether `c` belongs to a word.
fn is_word_char_exec(c: char) -> (r: bool)
    ensures
        r == is_word_char(c),
{
    is_alphanumeric(c) || c == '_'
}


/// `t` with each range of `ms` replaced by `r`, the ranges being taken
/// from the last to the first (so that earlier indices stay valid).
pub open spec fn splice_all(t: Seq<char>, ms: Seq<(usize, usize)>, r: Seq<char>) -> Seq<char>
    decreases ms.len(),
{
    if ms.len() == 0 {
        t
    } else {
        let (s, e) = ms.last();
        splice_all(t.take(s as int), ms.drop_last(), r) + r + t.skip(e as int)
    }
}

/// The ranges of `ms` lie in order inside `[0, len)`, none overlapping.
pub open spec fn ranges_in_order(ms: Seq<(usize, usize)>, len: int) -> bool {
    &&& forall|k: int| #![trigger ms[k]] 0 <= k < ms.len() ==> ms[k].0 <= ms[k].1 <= len
    &&& forall|i: int, j: int| 0 <= i < j < ms.len() ==> #[trigger] ms[i].1 <= #[trigger] ms[j].0
}

/// `a` and `b` differ at most in whether ASCII letters are capitals or
/// small letters.
pub open spec fn same_up_to_ascii_case(a: Seq<char>, b: Seq<char>) -> bool {
    &&& a.len() == b.len()
    &&& forall|i: int| 0 <= i < a.len() ==> #[trigger] ascii_lower(a[i]) == ascii_lower(b[i])
}

proof fn lemma_ascii_case_char(a: char, b: char)
    requires
        ascii_lower(a) == ascii_lower(b),
    ensures
        fold_char(a) == fold_char(b),
        is_word_char(a) == is_word_char(b),
{
    if a != b {
        if 'A' <= a <= 'Z' {
            assert(((a as u32) + 32) as char == ascii_lower(a));
            assert(!('A' <= b <= 'Z'));
            assert(b == ascii_lower(b));
            assert(b as u32 == (a as u32) + 32);
        } else {
            assert('A' <= b <= 'Z');
            assert(a as u32 == (b as u32) + 32);
        }
    }
}

proof fn lemma_fold_same_up_to_ascii_case(a: Seq<char>, b: Seq<char>)
    requires
        same_up_to_ascii_case(a, b),
    ensures
        fold_seq(a, false) == fold_seq(b, false),
        forall|i: int| 0 <= i < a.len() ==> #[trigger] is_word_char(a[i]) == is_word_char(b[i]),
{
    assert forall|i: int| 0 <= i < a.len() implies fold_char(a[i]) == fold_char(b[i]) && #[trigger] is_word_char(
        a[i],
    ) == is_word_char(b[i]) by {
        assert(ascii_lower(a[i]) == ascii_lower(b[i]));
        lemma_ascii_case_char(a[i], b[i]);
    }
    let fa = fold_seq(a, false);
    let fb = fold_seq(b, false);
    assert(fa.len() == fb.len());
    assert forall|i: int| 0 <= i < fa.len() implies #[trigger] fa[i] == fb[i] by {
        assert(fa[i] == fold_char(a[i]));
        assert(fb[i] == fold_char(b[i]));
        assert(is_word_char(a[i]) == is_word_char(b[i]));
    }
    assert(fa =~= fb);
}

/// A search that ignores case finds the same occurrences when letters of
/// the text or of the query change between ASCII capitals and small
/// letters.
pub proof fn lemma_ignoring_case_ignores_ascii_case(
    t1: Seq<char>,
    t2: Seq<char>,
    q1: Seq<char>,
    q2: Seq<char>,
    whole_word: bool,
    ms: Seq<(usize, usize)>,
)
    requires
        same_up_to_ascii_case(t1, t2),
        same_up_to_ascii_case(q1, q2),
        are_matches(t1, q1, false, whole_word, ms),
    ensures
        are_matches(t2, q2, false, whole_word, ms),
{
    lemma_fold_same_up_to_ascii_case(t1, t2);
    lemma_fold_same_up_to_ascii_case(q1, q2);
    assert forall|p: int| #[trigger]
        is_match_at(t1, q1, false, whole_word, p) == is_match_at(t2, q2, false, whole_word, p) by {
        reveal(is_match_at);
        let n = q1.len() as int;
        if 0 <= p && p + n <= t1.len() && whole_word {
            if p > 0 {
                assert(is_word_char(t1[p - 1]) == is_word_char(t2[p - 1]));
            }
            if p + n < t1.len() {
                assert(is_word_char(t1[p + n]) == is_word_char(t2[p + n]));
            }
        }
    }
    reveal(are_matches);
    assert forall|p: int| #[trigger] is_match_at(t2, q2, false, whole_word, p) implies exists|k: int|
        0 <= k < ms.len() && #[trigger] ms[k].0 <= p < ms[k].1 by {
        assert(is_match_at(t1, q1, false, whole_word, p));
    }
    assert forall|k: int| 0 <= k < ms.len() implies #[trigger] is_match_at(t2, q2, false, whole_word, ms[k].0 as int) by {
        assert(is_match_at(t1, q1, false, whole_word, ms[k].0 as int));
    }
}

/// The occurrences reported for `hay` lie in order inside it, each as long
/// as the query.
pub proof fn lemma_matches_in_order(
    hay: Seq<char>,
    query: Seq<char>,
    case_sensitive: bool,
    whole_word: bool,
    ms: Seq<(usize, usize)>,
)
    requires
        are_matches(hay, query, case_sensitive, whole_word, ms),
    ensures
        ranges_in_order(ms, hay.len() as int),
        forall|k: int| #![trigger ms[k]] 0 <= k < ms.len() ==> ms[k].1 == ms[k].0 + query.len(),
        query.len() == 0 ==> ms.len() == 0,
{
    reveal(are_matches);
    reveal(is_match_at);
    if ms.len() > 0 {
        assert(is_match_at(hay, query, case_sensitive, whole_word, ms[0].0 as int));
    }
}

proof fn lemma_splice_prefix(t: Seq<char>, ms: Seq<(usize, usize)>, r: Seq<char>, pos: int)
    requires
        ranges_in_order(ms, pos),
        0 <= pos <= t.len(),
    ensures
        splice_all(t.take(pos), ms, r) + t.skip(pos) == splice_all(t, ms, r),
{
    if ms.len() == 0 {
        assert(t.take(pos) + t.skip(pos) =~= t);
    } else {
        let (s, e) = ms.last();
        assert(ms[ms.len() - 1] == ms.last());
        assert(t.take(pos).take(s as int) =~= t.take(s as int));
        assert(t.take(pos).skip(e as int) + t.skip(pos) =~= t.skip(e as int));
        assert(splice_all(t.take(pos), ms, r) == splice_all(t.take(pos).take(s as int), ms.drop_last(), r)
            + r + t.take(pos).skip(e as int));
        assert(splice_all(t.take(pos), ms, r) + t.skip(pos) =~= splice_all(t.take(s as int), ms.drop_last(), r)
            + r + (t.take(pos).skip(e as int) + t.skip(pos)));
    }
}

proof fn lemma_ranges_take(ms: Seq<(usize, usize)>, len: int, k: int, bound: int)
    requires
        ranges_in_order(ms, len),
        0 <= k < ms.len(),
        bound == ms[k].0,
    ensures
        ranges_in_order(ms.take(k), bound),
{
    assert forall|i: int| #![trigger ms.take(k)[i]] 0 <= i < k implies ms.take(k)[i].0 <= ms.take(k)[i].1 <= bound by {
        assert(ms.take(k)[i] == ms[i]);
        assert(ms[i].1 <= ms[k].0);
    }
}

/// Replacing every occurrence by the text of the query itself, when case
/// matters, gives back the same text.
pub proof fn lemma_replace_all_by_query_is_identity(
    t: Seq<char>,
    query: Seq<char>,
    whole_word: bool,
    ms: Seq<(usize, usize)>,
)
    requires
        are_matches(t, query, true, whole_word, ms),
    ensures
        splice_all(t, ms, query) == t,
{
    lemma_matches_in_order(t, query, true, whole_word, ms);
    assert forall|k: int| 0 <= k < ms.len() implies #[trigger] t.subrange(ms[k].0 as int, ms[k].1 as int)
        == query by {
        reveal(are_matches);
        reveal(is_match_at);
        assert(is_match_at(t, query, true, whole_word, ms[k].0 as int));
    }
    lemma_splice_identity(t, ms, query);
}

proof fn lemma_splice_identity(t: Seq<char>, ms: Seq<(usize, usize)>, r: Seq<char>)
    requires
        ranges_in_order(ms, t.len() as int),
        forall|k: int| 0 <= k < ms.len() ==> #[trigger] t.subrange(ms[k].0 as int, ms[k].1 as int) == r,
    ensures
        splice_all(t, ms, r) == t,
    decreases ms.len(),
{
    if ms.len() > 0 {
        let k = ms.len() - 1;
        let (s, e) = ms.last();
        assert(ms[k] == ms.last());
        let p = t.take(s as int);
        let ms2 = ms.drop_last();
        assert forall|j: int| #![trigger ms2[j]] 0 <= j < ms2.len() implies ms2[j].0 <= ms2[j].1 <= p.len() by {
            assert(ms2[j] == ms[j]);
            assert(ms[j].1 <= ms[k].0);
        }
        assert forall|i: int, j: int| 0 <= i < j < ms2.len() implies #[trigger] ms2[i].1 <= #[trigger] ms2[j].0 by {
            assert(ms2[i] == ms[i]);
            assert(ms2[j] == ms[j]);
        }
        assert forall|j: int| 0 <= j < ms2.len() implies #[trigger] p.subrange(ms2[j].0 as int, ms2[j].1 as int) == r by {
            assert(ms2[j] == ms[j]);
            assert(ms[j].1 <= ms[k].0);
            assert(t.subrange(ms[j].0 as int, ms[j].1 as int) == r);
            assert(p.subrange(ms2[j].0 as int, ms2[j].1 as int) =~= t.subrange(ms[j].0 as int, ms[j].1 as int));
        }
        lemma_splice_identity(p, ms2, r);
        assert(t.subrange(s as int, e as int) == r);
        assert(p + r + t.skip(e as int) =~= t);
    }
}


/// Find / find-and-replace state for the currently active document.
pub struct SearchState {
    pub open: bool,
    pub replace_mode: bool,
    pub query: String,
    pub replace_text: String,
    pub case_sensitive: bool,
    pub whole_word: bool,
    /// Character-index ranges (start, end) of every match, in document order.
    pub matches: Vec<(usize, usize)>,
    /// Index into `matches` of the currently selected/active match.
    pub current: Option<usize>,
    /// Set by the UI layer once a char index should be scrolled into view.
    pub pending_scroll: Option<usize>,
    /// Ask the UI to grab keyboard focus for the query field this frame.
    pub focus_query: bool,
    /// Small transient status text (e.g. "Replaced 4 occurrences").
    pub status: Option<String>,
}

/// The selection kept by a refresh: the old one while it still indexes a
/// match, else the first match, else none.
pub open spec fn kept_current(cur: Option<usize>, len: nat) -> Option<usize> {
    match cur {
        Some(c) => if c < len {
            Some(c)
        } else if len > 0 {
            Some(0)
        } else {
            None
        },
        None => if len > 0 {
            Some(0)
        } else {
            None
        },
    }
}

/// `idx` is the first match that starts at or after `from`, or the first
/// match at all when none does.
pub open spec fn first_at_or_after(ms: Seq<(usize, usize)>, from: int, idx: int) -> bool {
    &&& 0 <= idx < ms.len()
    &&& {
        ||| (ms[idx].0 >= from && forall|j: int| 0 <= j < idx ==> #[trigger] ms[j].0 < from)
        ||| (idx == 0 && forall|j: int| 0 <= j < ms.len() ==> #[trigger] ms[j].0 < from)
    }
}

/// `idx` is the last match that starts before `from`, or the last match at
/// all when none does.
pub open spec fn last_before(ms: Seq<(usize, usize)>, from: int, idx: int) -> bool {
    &&& 0 <= idx < ms.len()
    &&& {
        ||| (ms[idx].0 < from && forall|j: int| idx < j < ms.len() ==> #[trigger] ms[j].0 >= from)
        ||| (idx == ms.len() - 1 && forall|j: int| 0 <= j < ms.len() ==> #[trigger] ms[j].0 >= from)
    }
}

/// Replaces the characters `[start_char, end_char)` of `text` by
/// `replacement`, both bounds first clamped to the end of the text.
fn replace_char_range(text: &mut String, start_char: usize, end_char: usize, replacement: &str)
    requires
        (if start_char < old(text)@.len() {
            start_char as int
        } else {
            old(text)@.len() as int
        }) <= (if end_char < old(text)@.len() {
            end_char as int
        } else {
            old(text)@.len() as int
        }),
    ensures
        final(text)@ == splice_range(old(text)@, start_char as int, end_char as int, replacement@),
{
    let cs = chars_of(text.as_str());
    let len = cs.len();
    let s = if start_char < len {
        start_char
    } else {
        len
    };
    let e = if end_char < len {
        end_char
    } else {
        len
    };
    let mut out = string_from_chars(&cs, 0, s);
    push_str_chars(&mut out, replacement);
    push_chars(&mut out, &cs, e, len);
    proof {
        assert(cs@.subrange(0, s as int) == old(text)@.take(s as int));
        assert(cs@.subrange(e as int, len as int) == old(text)@.skip(e as int));
    }
    *text = out;
}

/// The first match starting at or after `from`, or the first match.
fn first_index_at_or_after(ms: &Vec<(usize, usize)>, from: usize) -> (idx: usize)
    requires
        ms.len() > 0,
    ensures
        first_at_or_after(ms@, from as int, idx as int),
{
    let mut i: usize = 0;
    while i < ms.len() && ms[i].0 < from
        invariant
            i <= ms.len(),
            forall|j: int| 0 <= j < i ==> #[trigger] ms@[j].0 < from,
        decreases ms.len() - i,
    {
        i += 1;
    }
    if i < ms.len() {
        i
    } else {
        0
    }
}

/// The last match starting before `from`, or the last match.
fn last_index_before(ms: &Vec<(usize, usize)>, from: usize) -> (idx: usize)
    requires
        ms.len() > 0,
    ensures
        last_before(ms@, from as int, idx as int),
{
    let mut i: usize = ms.len();
    while i > 0 && ms[i - 1].0 >= from
        invariant
            i <= ms.len(),
            forall|j: int| i <= j < ms.len() ==> #[trigger] ms@[j].0 >= from,
        decreases i,
    {
        i -= 1;
    }
    if i > 0 {
        i - 1
    } else {
        ms.len() - 1
    }
}

/// The status shown after replacing `n` occurrences.
pub open spec fn replaced_status(n: nat) -> Seq<char> {
    "Replaced "@ + decimal(n) + " occurrence"@ + if n == 1 {
        ""@
    } else {
        "s"@
    }
}

/// `t` with the characters in `[start, end)` replaced by `r`, both bounds
/// first clamped to the end of `t`.
pub open spec fn splice_range(t: Seq<char>, start: int, end: int, r: Seq<char>) -> Seq<char> {
    let s = if start < t.len() { start } else { t.len() as int };
    let e = if end < t.len() { end } else { t.len() as int };
    t.take(s) + r + t.skip(e)
}

impl SearchState {
    /// The active match, if the selection indexes one.
    pub open spec fn current_match_spec(&self) -> Option<(usize, usize)> {
        match self.current {
            Some(i) => if i < self.matches.len() {
                Some(self.matches@[i as int])
            } else {
                None
            },
            None => None,
        }
    }

    /// The selection indexes one of the matches, and there is one exactly
    /// when there are matches. Every method keeps this.
    pub open spec fn selection_valid(&self) -> bool {
        &&& (self.current is Some <==> self.matches@.len() > 0)
        &&& (self.current matches Some(c) ==> c < self.matches@.len())
    }

    /// `self` and `other` agree on everything but the match list, the
    /// selection and the status.
    pub open spec fn same_options(&self, other: &SearchState) -> bool {
        &&& self.open == other.open
        &&& self.replace_mode == other.replace_mode
        &&& self.query@ == other.query@
        &&& self.replace_text@ == other.replace_text@
        &&& self.case_sensitive == other.case_sensitive
        &&& self.whole_word == other.whole_word
        &&& self.pending_scroll == other.pending_scroll
        &&& self.focus_query == other.focus_query
    }

    /// The match list of `self` is the one for `text` under its query and
    /// options.
    pub open spec fn matches_text(&self, text: Seq<char>) -> bool {
        are_matches(text, self.query@, self.case_sensitive, self.whole_word, self.matches@)
    }

    pub fn new() -> (s: Self)
        ensures
            !s.open,
            !s.replace_mode,
            s.query@ == Seq::<char>::empty(),
            s.replace_text@ == Seq::<char>::empty(),
            !s.case_sensitive,
            !s.whole_word,
            s.matches@ == Seq::<(usize, usize)>::empty(),
            s.current is None,
            s.pending_scroll is None,
            !s.focus_query,
            s.status is None,
            s.selection_valid(),
    {
        SearchState {
            open: false,
            replace_mode: false,
            query: String::new(),
            replace_text: String::new(),
            case_sensitive: false,
            whole_word: false,
            matches: Vec::new(),
            current: None,
            pending_scroll: None,
            focus_query: false,
            status: None,
        }
    }

    pub fn open_find(&mut self)
        ensures
            *final(self) == (SearchState { open: true, replace_mode: false, focus_query: true, ..*old(self) }),
            old(self).selection_valid() ==> final(self).selection_valid(),
    {
        self.open = true;
        self.replace_mode = false;
        self.focus_query = true;
    }

    pub fn open_replace(&mut self)
        ensures
            *final(self) == (SearchState { open: true, replace_mode: true, focus_query: true, ..*old(self) }),
            old(self).selection_valid() ==> final(self).selection_valid(),
    {
        self.open = true;
        self.replace_mode = true;
        self.focus_query = true;
    }

    pub fn close(&mut self)
        ensures
            !final(self).open,
            final(self).matches@ == Seq::<(usize, usize)>::empty(),
            final(self).current is None,
            final(self).status is None,
            final(self).replace_mode == old(self).replace_mode,
            final(self).query == old(self).query,
            final(self).replace_text == old(self).replace_text,
            final(self).case_sensitive == old(self).case_sensitive,
            final(self).whole_word == old(self).whole_word,
            final(self).pending_scroll == old(self).pending_scroll,
            final(self).focus_query == old(self).focus_query,
            final(self).selection_valid(),
    {
        self.open = false;
        self.matches.clear();
        self.current = None;
        self.status = None;
    }

    /// Recompute all match positions for the current query against `text`.
    pub fn refresh_matches(&mut self, text: &str)
        ensures
            final(self).same_options(old(self)),
            final(self).query == old(self).query,
            final(self).replace_text == old(self).replace_text,
            final(self).matches_text(text@),
            final(self).status is None,
            final(self).current == kept_current(old(self).current, final(self).matches@.len()),
            final(self).selection_valid(),
    {
        self.matches = find_matches(text, self.query.as_str(), self.case_sensitive, self.whole_word);
        self.status = None;
        self.current = match self.current {
            Some(cur) if cur < self.matches.len() => Some(cur),
            _ => if self.matches.len() > 0 {
                Some(0)
            } else {
                None
            },
        };
    }

    pub fn current_match(&self) -> (r: Option<(usize, usize)>)
        ensures
            r == self.current_match_spec(),
    {
        match self.current {
            Some(i) => if i < self.matches.len() {
                Some(self.matches[i])
            } else {
                None
            },
            None => None,
        }
    }

    /// Move to the first match starting at or after `from_char`, wrapping around.
    pub fn find_next(&mut self, text: &str, from_char: usize) -> (r: Option<(usize, usize)>)
        ensures
            final(self).same_options(old(self)),
            final(self).query == old(self).query,
            final(self).replace_text == old(self).replace_text,
            final(self).matches_text(text@),
            final(self).matches@.len() == 0 ==> {
                &&& r is None
                &&& final(self).current is None
                &&& final(self).status matches Some(st) && st@ == "No matches"@
            },
            final(self).matches@.len() > 0 ==> {
                &&& final(self).current matches Some(i) && first_at_or_after(
                    final(self).matches@,
                    from_char as int,
                    i as int,
                )
                &&& r == final(self).current_match_spec()
                &&& r is Some
                &&& final(self).status is None
            },
            final(self).selection_valid(),
    {
        self.refresh_matches(text);
        if self.matches.len() == 0 {
            self.status = Some(String::from_str("No matches"));
            return None;
        }
        let idx = first_index_at_or_after(&self.matches, from_char);
        self.current = Some(idx);
        Some(self.matches[idx])
    }
}


impl SearchState {
    /// Move to the last match starting strictly before `from_char`, wrapping around.
    pub fn find_prev(&mut self, text: &str, from_char: usize) -> (r: Option<(usize, usize)>)
        ensures
            final(self).same_options(old(self)),
            final(self).query == old(self).query,
            final(self).replace_text == old(self).replace_text,
            final(self).matches_text(text@),
            final(self).matches@.len() == 0 ==> {
                &&& r is None
                &&& final(self).current is None
                &&& final(self).status matches Some(st) && st@ == "No matches"@
            },
            final(self).matches@.len() > 0 ==> {
                &&& final(self).current matches Some(i) && last_before(
                    final(self).matches@,
                    from_char as int,
                    i as int,
                )
                &&& r == final(self).current_match_spec()
                &&& r is Some
                &&& final(self).status is None
            },
            final(self).selection_valid(),
    {
        self.refresh_matches(text);
        if self.matches.len() == 0 {
            self.status = Some(String::from_str("No matches"));
            return None;
        }
        let idx = last_index_before(&self.matches, from_char);
        self.current = Some(idx);
        Some(self.matches[idx])
    }

    /// `self` is `old` with its search run again on `text` and the view
    /// asked to scroll to the start of the active match, if there is one.
    pub open spec fn researched(&self, old: &SearchState, text: Seq<char>) -> bool {
        &&& self.open == old.open
        &&& self.replace_mode == old.replace_mode
        &&& self.query == old.query
        &&& self.replace_text == old.replace_text
        &&& self.case_sensitive == old.case_sensitive
        &&& self.whole_word == old.whole_word
        &&& self.focus_query == old.focus_query
        &&& self.matches_text(text)
        &&& self.status is None
        &&& self.current == kept_current(old.current, self.matches@.len())
        &&& self.pending_scroll == match self.current_match_spec() {
            Some((s, _)) => Some(s),
            None => None,
        }
    }

    /// Runs the search again on `text` (after the query, an option or the
    /// text changed) and asks the view to scroll to the active match.
    pub fn update_query(&mut self, text: &str)
        ensures
            final(self).researched(old(self), text@),
            final(self).selection_valid(),
    {
        self.refresh_matches(text);
        self.pending_scroll = match self.current_match() {
            Some((s, _)) => Some(s),
            None => None,
        };
    }

    /// Keeps the matches with the active document: when `doc`, the active
    /// document, is not `*last_doc`, the one they were found in, the search
    /// runs again on `text`, the active document's text, and `*last_doc`
    /// becomes `doc`.
    pub fn follow_document(&mut self, last_doc: &mut usize, doc: usize, text: &str)
        ensures
            *final(last_doc) == doc,
            *old(last_doc) == doc ==> *final(self) == *old(self),
            *old(last_doc) != doc ==> final(self).researched(old(self), text@),
            *old(last_doc) != doc ==> final(self).selection_valid(),
    {
        if *last_doc != doc {
            *last_doc = doc;
            self.update_query(text);
        }
    }

    /// Replace the current match with `replace_text`. Returns the char index
    /// right after the inserted replacement, if there was a current match.
    pub fn replace_current(&mut self, text: &mut String) -> (r: Option<usize>)
        requires
            old(self).current_match_spec() matches Some((s, e)) ==> {
                &&& (if s < old(text)@.len() { s as int } else { old(text)@.len() as int }) <= (if e
                    < old(text)@.len() {
                    e as int
                } else {
                    old(text)@.len() as int
                })
                &&& s + old(self).replace_text@.len() <= usize::MAX
            },
        ensures
            old(self).current_match_spec() is None ==> {
                &&& r is None
                &&& *final(self) == *old(self)
                &&& *final(text) == *old(text)
            },
            old(self).current_match_spec() matches Some((s, e)) ==> {
                &&& final(text)@ == splice_range(old(text)@, s as int, e as int, old(self).replace_text@)
                &&& r == Some((s + old(self).replace_text@.len()) as usize)
                &&& final(self).same_options(old(self))
                &&& final(self).query == old(self).query
                &&& final(self).replace_text == old(self).replace_text
                &&& final(self).matches_text(final(text)@)
                &&& final(self).status is None
                &&& final(self).matches@.len() == 0 ==> final(self).current is None
                &&& final(self).matches@.len() > 0 ==> (final(self).current matches Some(i)
                    && first_at_or_after(final(self).matches@, s + old(self).replace_text@.len(), i as int))
            },
            old(self).selection_valid() ==> final(self).selection_valid(),
    {
        let (start, end) = match self.current_match() {
            Some(m) => m,
            None => return None,
        };
        replace_char_range(text, start, end, self.replace_text.as_str());
        let repl_len = self.replace_text.as_str().unicode_len();
        let new_pos = start + repl_len;
        self.refresh_matches(text.as_str());
        if self.matches.len() > 0 {
            self.current = Some(first_index_at_or_after(&self.matches, new_pos));
        } else {
            self.current = None;
        }
        Some(new_pos)
    }

    /// Replace every match. Returns the number of replacements made.
    pub fn replace_all(&mut self, text: &mut String) -> (count: usize)
        ensures
            forall|ms: Seq<(usize, usize)>|
                #[trigger] are_matches(
                    old(text)@,
                    old(self).query@,
                    old(self).case_sensitive,
                    old(self).whole_word,
                    ms,
                ) ==> {
                    &&& count == ms.len()
                    &&& final(text)@ == splice_all(old(text)@, ms, old(self).replace_text@)
                },
            final(self).same_options(old(self)),
            final(self).query == old(self).query,
            final(self).replace_text == old(self).replace_text,
            final(self).matches_text(final(text)@),
            count == 0 ==> {
                &&& *final(text) == *old(text)
                &&& final(self).status matches Some(st) && st@ == "No matches"@
                &&& final(self).current is None
            },
            count > 0 ==> {
                &&& final(self).status matches Some(st) && st@ == replaced_status(count as nat)
                &&& final(self).current == kept_current(
                    kept_current(old(self).current, count as nat),
                    final(self).matches@.len(),
                )
            },
            final(self).selection_valid(),
    {
        self.refresh_matches(text.as_str());
        let count = self.matches.len();
        let ghost ms = self.matches@;
        proof {
            lemma_matches_in_order(old(text)@, self.query@, self.case_sensitive, self.whole_word, ms);
        }
        if count == 0 {
            self.status = Some(String::from_str("No matches"));
            proof {
                assert forall|ms2: Seq<(usize, usize)>|
                    #[trigger] are_matches(
                        old(text)@,
                        old(self).query@,
                        old(self).case_sensitive,
                        old(self).whole_word,
                        ms2,
                    ) implies count == ms2.len() && text@ == splice_all(old(text)@, ms2, old(self).replace_text@) by {
                    lemma_matches_unique(old(text)@, old(self).query@, old(self).case_sensitive, old(self).whole_word, ms, ms2);
                }
            }
            return 0;
        }
        let cs = chars_of(text.as_str());
        let repl = chars_of(self.replace_text.as_str());
        let mut out = String::new();
        let mut pos: usize = 0;
        let mut k: usize = 0;
        while k < count
            invariant
                count == self.matches.len() == ms.len(),
                self.matches@ == ms,
                cs@ == old(text)@,
                repl@ == self.replace_text@,
                ranges_in_order(ms, cs@.len() as int),
                k <= count,
                pos <= cs@.len(),
                k == 0 ==> pos == 0,
                k > 0 ==> pos == ms[k - 1].1,
                out@ == splice_all(cs@.take(pos as int), ms.take(k as int), repl@),
            decreases count - k,
        {
            let (s, e) = self.matches[k];
            proof {
                assert(ms[k as int] == (s, e));
                if k > 0 {
                    assert(ms[k - 1].1 <= ms[k as int].0);
                }
                lemma_ranges_take(ms, cs@.len() as int, k as int, s as int);
                assert forall|i: int| #![trigger ms.take(k as int)[i]] 0 <= i < k implies ms.take(k as int)[i].1 <= pos by {
                    assert(ms.take(k as int)[i] == ms[i]);
                    if i < k - 1 {
                        assert(ms[i].1 <= ms[k - 1].0);
                    }
                }
                lemma_splice_prefix(cs@.take(s as int), ms.take(k as int), repl@, pos as int);
                assert(cs@.take(s as int).take(pos as int) =~= cs@.take(pos as int));
                assert(cs@.take(s as int).skip(pos as int) =~= cs@.subrange(pos as int, s as int));
                assert(ms.take(k + 1).drop_last() =~= ms.take(k as int));
                assert(ms.take(k + 1).last() == (s, e));
                assert(cs@.take(e as int).take(s as int) =~= cs@.take(s as int));
                assert(cs@.take(e as int).skip(e as int) =~= Seq::<char>::empty());
                assert(repl@.subrange(0, repl@.len() as int) =~= repl@);
            }
            push_chars(&mut out, &cs, pos, s);
            push_chars(&mut out, &repl, 0, repl.len());
            pos = e;
            k += 1;
        }
        proof {
            assert forall|i: int| #![trigger ms[i]] 0 <= i < ms.len() implies ms[i].0 <= ms[i].1 <= pos by {
                if i < ms.len() - 1 {
                    assert(ms[i].1 <= ms[ms.len() - 1].0);
                }
            }
            assert(ms.take(count as int) =~= ms);
            lemma_splice_prefix(cs@, ms, repl@, pos as int);
            assert(cs@.subrange(pos as int, cs@.len() as int) =~= cs@.skip(pos as int));
        }
        push_chars(&mut out, &cs, pos, cs.len());
        let ghost old_current = self.current;
        *text = out;
        self.refresh_matches(text.as_str());
        let mut status = String::from_str("Replaced ");
        push_decimal(&mut status, count);
        push_str_chars(&mut status, " occurrence");
        if count != 1 {
            push_str_chars(&mut status, "s");
        } else {
            proof {
                assert(status@ + ""@ =~= status@) by {
                    reveal_strlit("");
                }
            }
        }
        self.status = Some(status);
        proof {
            assert forall|ms2: Seq<(usize, usize)>|
                #[trigger] are_matches(
                    old(text)@,
                    old(self).query@,
                    old(self).case_sensitive,
                    old(self).whole_word,
                    ms2,
                ) implies count == ms2.len() && text@ == splice_all(old(text)@, ms2, old(self).replace_text@) by {
                lemma_matches_unique(old(text)@, old(self).query@, old(self).case_sensitive, old(self).whole_word, ms, ms2);
            }
        }
        count
    }

    /// Where "find next" starts: the end of the active match, or the
    /// start of the text.
    pub fn next_search_start(&self) -> (r: usize)
        ensures
            r == match self.current_match_spec() {
                Some((_, e)) => e,
                None => 0,
            },
    {
        match self.current_match() {
            Some((_, e)) => e,
            None => 0,
        }
    }

    /// Where "find previous" starts: the start of the active match, or the
    /// end of any text.
    pub fn prev_search_start(&self) -> (r: usize)
        ensures
            r == match self.current_match_spec() {
                Some((s, _)) => s,
                None => usize::MAX,
            },
    {
        match self.current_match() {
            Some((s, _)) => s,
            None => usize::MAX,
        }
    }

    /// The match counter shown beside the query: empty without a query,
    /// `No results` without matches, else `selected/total` (the selection
    /// counted from one, 0 when nothing is selected).
    pub fn counter_text(&self) -> (r: String)
        requires
            self.current matches Some(c) ==> c < usize::MAX,
        ensures
            self.query@.len() == 0 ==> r@ == Seq::<char>::empty(),
            self.query@.len() > 0 && self.matches@.len() == 0 ==> r@ == "No results"@,
            self.query@.len() > 0 && self.matches@.len() > 0 ==> r@ == decimal(
                match self.current {
                    Some(c) => (c + 1) as nat,
                    None => 0,
                },
            ) + "/"@ + decimal(self.matches@.len()),
    {
        let qlen = self.query.as_str().unicode_len();
        if qlen == 0 {
            return String::new();
        }
        if self.matches.len() == 0 {
            return String::from_str("No results");
        }
        let shown: usize = match self.current {
            Some(c) => c + 1,
            None => 0,
        };
        let mut r = String::new();
        push_decimal(&mut r, shown);
        push_str_chars(&mut r, "/");
        push_decimal(&mut r, self.matches.len());
        r
    }
}

/// How a stretch of the writing area is painted.
#[derive(Clone, Copy, Debug, PartialEq, Eq, Structural)]
pub enum Highlight {
    /// Ordinary text.
    Plain,
    /// A match other than the active one.
    Match,
    /// The active match.
    Current,
}

/// A stretch `[start, end)` of character indices and how it is painted.
#[derive(Clone, Copy, Debug, PartialEq, Eq, Structural)]
pub struct Segment {
    pub start: usize,
    pub end: usize,
    pub highlight: Highlight,
}

/// The stretches painted for matches `ms[i..]`, the text before `cursor`
/// being painted already: a plain stretch up to each match that starts
/// after the cursor, the match itself, and after the last match the plain
/// rest of the text.
pub open spec fn segments_from(
    ms: Seq<(usize, usize)>,
    current: Option<usize>,
    i: int,
    cursor: usize,
    len: usize,
) -> Seq<Segment>
    decreases ms.len() - i,
{
    if i >= ms.len() {
        if cursor < len {
            seq![Segment { start: cursor, end: len, highlight: Highlight::Plain }]
        } else {
            seq![]
        }
    } else {
        let (s, e) = ms[i];
        let before = if s > cursor {
            seq![Segment { start: cursor, end: s, highlight: Highlight::Plain }]
        } else {
            seq![]
        };
        let kind = if current == Some(i as usize) {
            Highlight::Current
        } else {
            Highlight::Match
        };
        before + seq![Segment { start: s, end: e, highlight: kind }] + segments_from(
            ms,
            current,
            i + 1,
            e,
            len,
        )
    }
}

/// The stretches in which the writing area paints `text` while matches are
/// highlighted: the whole text as one plain stretch when there are none.
pub open spec fn highlight_plan(ms: Seq<(usize, usize)>, current: Option<usize>, len: usize) -> Seq<
    Segment,
> {
    if ms.len() == 0 {
        seq![Segment { start: 0, end: len, highlight: Highlight::Plain }]
    } else {
        segments_from(ms, current, 0, 0, len)
    }
}

/// Split `text` into the stretches painted plain, as a match, or as the
/// active match (the `current`-th one).
pub fn highlight_segments(text: &str, matches: &Vec<(usize, usize)>, current: Option<usize>) -> (r: Vec<
    Segment,
>)
    requires
        forall|k: int| #![trigger matches@[k]] 0 <= k < matches.len() ==> matches@[k].0 <= matches@[k].1
            <= text@.len(),
    ensures
        r@ == highlight_plan(matches@, current, text@.len() as usize),
{
    let len = text.unicode_len();
    let mut out: Vec<Segment> = Vec::new();
    if matches.len() == 0 {
        out.push(Segment { start: 0, end: len, highlight: Highlight::Plain });
        return out;
    }
    let mut cursor: usize = 0;
    let mut i: usize = 0;
    while i < matches.len()
        invariant
            i <= matches.len(),
            len == text@.len(),
            out@ + segments_from(matches@, current, i as int, cursor, len) == segments_from(
                matches@,
                current,
                0,
                0,
                len,
            ),
        decreases matches.len() - i,
    {
        let (s, e) = matches[i];
        let ghost before = out@;
        if s > cursor {
            out.push(Segment { start: cursor, end: s, highlight: Highlight::Plain });
        }
        let kind = if current == Some(i) {
            Highlight::Current
        } else {
            Highlight::Match
        };
        out.push(Segment { start: s, end: e, highlight: kind });
        proof {
            let b = if s > cursor {
                seq![Segment { start: cursor, end: s, highlight: Highlight::Plain }]
            } else {
                seq![]
            };
            assert(out@ =~= before + b + seq![Segment { start: s, end: e, highlight: kind }]);
            assert(segments_from(matches@, current, i as int, cursor, len) == b + seq![
                Segment { start: s, end: e, highlight: kind },
            ] + segments_from(matches@, current, i + 1, e, len));
            assert(out@ + segments_from(matches@, current, i + 1, e, len) =~= before + segments_from(
                matches@,
                current,
                i as int,
                cursor,
                len,
            ));
        }
        cursor = e;
        i += 1;
    }
    let ghost before = out@;
    if cursor < len {
        out.push(Segment { start: cursor, end: len, highlight: Highlight::Plain });
    }
    proof {
        assert(out@ =~= before + segments_from(matches@, current, i as int, cursor, len));
    }
    out
}


/// After a refresh the selection indexes one of the matches whenever there
/// are any, and there is no selection when there are none.
pub proof fn lemma_kept_current_in_range(cur: Option<usize>, len: nat)
    ensures
        kept_current(cur, len) matches Some(i) ==> i < len,
        kept_current(cur, len) is None <==> len == 0,
{
}

/// Under a valid selection (which every method of `SearchState` keeps,
/// starting from `SearchState::new`), there is an active match exactly
/// when there are matches, and it is the selected entry of the list.
pub proof fn lemma_valid_selection_current_match(st: SearchState)
    requires
        st.selection_valid(),
    ensures
        st.current_match_spec() is Some <==> st.matches@.len() > 0,
        st.current matches Some(c) ==> st.current_match_spec() == Some(st.matches@[c as int]),
{
}

/// `segs` paints `[from, to)` from left to right, each stretch starting
/// where the previous one ended.
pub open spec fn tiles(segs: Seq<Segment>, from: int, to: int) -> bool
    decreases segs.len(),
{
    if segs.len() == 0 {
        from == to
    } else {
        &&& segs[0].start == from
        &&& segs[0].start <= segs[0].end
        &&& tiles(segs.skip(1), segs[0].end as int, to)
    }
}

proof fn lemma_tiles_prepend(seg: Segment, rest: Seq<Segment>, to: int)
    requires
        seg.start <= seg.end,
        tiles(rest, seg.end as int, to),
    ensures
        tiles(seq![seg] + rest, seg.start as int, to),
{
    assert((seq![seg] + rest).skip(1) =~= rest);
}

proof fn lemma_segments_tile(ms: Seq<(usize, usize)>, current: Option<usize>, i: int, cursor: usize, len: usize)
    requires
        ranges_in_order(ms, len as int),
        0 <= i <= ms.len(),
        cursor <= len,
        i < ms.len() ==> cursor <= ms[i].0,
    ensures
        tiles(segments_from(ms, current, i, cursor, len), cursor as int, len as int),
    decreases ms.len() - i,
{
    if i >= ms.len() {
        if cursor < len {
            let seg = Segment { start: cursor, end: len, highlight: Highlight::Plain };
            assert(tiles(Seq::<Segment>::empty(), len as int, len as int));
            lemma_tiles_prepend(seg, Seq::<Segment>::empty(), len as int);
            assert(seq![seg] + Seq::<Segment>::empty() =~= seq![seg]);
        } else {
            assert(tiles(Seq::<Segment>::empty(), cursor as int, len as int));
        }
    } else {
        let (s, e) = ms[i];
        if i + 1 < ms.len() {
            assert(ms[i].1 <= ms[i + 1].0);
        }
        lemma_segments_tile(ms, current, i + 1, e, len);
        let kind = if current == Some(i as usize) {
            Highlight::Current
        } else {
            Highlight::Match
        };
        let m = Segment { start: s, end: e, highlight: kind };
        let rest = segments_from(ms, current, i + 1, e, len);
        lemma_tiles_prepend(m, rest, len as int);
        if s > cursor {
            let p = Segment { start: cursor, end: s, highlight: Highlight::Plain };
            lemma_tiles_prepend(p, seq![m] + rest, len as int);
            assert(seq![p] + seq![m] + rest =~= seq![p] + (seq![m] + rest));
            assert(segments_from(ms, current, i, cursor, len) == seq![p] + seq![m] + rest);
        } else {
            assert(Seq::<Segment>::empty() + seq![m] + rest =~= seq![m] + rest);
            assert(segments_from(ms, current, i, cursor, len) == Seq::<Segment>::empty() + seq![m] + rest);
        }
    }
}

/// `seg` paints the `k`-th match: it spans it, and it is painted as the
/// active match exactly when `k` is the selection, else as a match.
pub open spec fn paints_match(seg: Segment, ms: Seq<(usize, usize)>, current: Option<usize>, k: int) -> bool {
    &&& seg.start == ms[k].0
    &&& seg.end == ms[k].1
    &&& seg.highlight != Highlight::Plain
    &&& (seg.highlight == Highlight::Current <==> current == Some(k as usize))
}

/// Some stretch of `segs` paints the `k`-th match (see `paints_match`).
pub open spec fn match_painted(segs: Seq<Segment>, ms: Seq<(usize, usize)>, current: Option<usize>, k: int) -> bool {
    exists|j: int| 0 <= j < segs.len() && #[trigger] paints_match(segs[j], ms, current, k)
}

proof fn lemma_segments_shape(ms: Seq<(usize, usize)>, current: Option<usize>, i: int, cursor: usize, len: usize)
    requires
        0 <= i < ms.len(),
    ensures
        ({
            let segs = segments_from(ms, current, i, cursor, len);
            let rest = segments_from(ms, current, i + 1, ms[i].1, len);
            let b: int = if ms[i].0 > cursor {
                1
            } else {
                0
            };
            &&& segs.len() == b + 1 + rest.len()
            &&& forall|j: int| 0 <= j < b ==> #[trigger] segs[j].highlight == Highlight::Plain
            &&& segs[b].start == ms[i].0
            &&& segs[b].end == ms[i].1
            &&& (segs[b].highlight == Highlight::Current <==> current == Some(i as usize))
            &&& segs[b].highlight != Highlight::Plain
            &&& forall|j: int| b < j < segs.len() ==> #[trigger] segs[j] == rest[j - b - 1]
        }),
{
    let (s, e) = ms[i];
    let rest = segments_from(ms, current, i + 1, e, len);
    let before = if s > cursor {
        seq![Segment { start: cursor, end: s, highlight: Highlight::Plain }]
    } else {
        seq![]
    };
    let kind = if current == Some(i as usize) {
        Highlight::Current
    } else {
        Highlight::Match
    };
    let m = Segment { start: s, end: e, highlight: kind };
    let segs = segments_from(ms, current, i, cursor, len);
    assert(segs == before + seq![m] + rest);
}

/// The selection, when the stretch `seg` is painted as the active match.
pub open spec fn marks_selection(seg: Segment, ms: Seq<(usize, usize)>, current: Option<usize>, from: int) -> bool {
    seg.highlight == Highlight::Current ==> (current is Some && from <= current.unwrap() < ms.len()
        && seg.start == ms[current.unwrap() as int].0 && seg.end == ms[current.unwrap() as int].1)
}

#[verifier::spinoff_prover]
proof fn lemma_segments_painted_are_matches(
    ms: Seq<(usize, usize)>,
    current: Option<usize>,
    i: int,
    cursor: usize,
    len: usize,
)
    requires
        0 <= i <= ms.len(),
    ensures
        forall|j: int|
            0 <= j < segments_from(ms, current, i, cursor, len).len() && segments_from(
                ms,
                current,
                i,
                cursor,
                len,
            )[j].highlight != Highlight::Plain ==> exists|k: int|
                i <= k < ms.len() && #[trigger] paints_match(
                    segments_from(ms, current, i, cursor, len)[j],
                    ms,
                    current,
                    k,
                ),
    decreases ms.len() - i,
{
    if i < ms.len() {
        let segs = segments_from(ms, current, i, cursor, len);
        let rest = segments_from(ms, current, i + 1, ms[i].1, len);
        lemma_segments_shape(ms, current, i, cursor, len);
        lemma_segments_painted_are_matches(ms, current, i + 1, ms[i].1, len);
        let b: int = if ms[i].0 > cursor {
            1
        } else {
            0
        };
        assert forall|j: int| 0 <= j < segs.len() && segs[j].highlight != Highlight::Plain implies exists|k: int|
            i <= k < ms.len() && #[trigger] paints_match(segs[j], ms, current, k) by {
            if j == b {
                assert(paints_match(segs[j], ms, current, i));
            } else {
                assert(j > b);
                assert(segs[j] == rest[j - b - 1]);
                let k = choose|k: int| i + 1 <= k < ms.len() && #[trigger] paints_match(rest[j - b - 1], ms, current, k);
                assert(paints_match(segs[j], ms, current, k));
            }
        }
    }
}

#[verifier::spinoff_prover]
proof fn lemma_segments_paint_every_match(
    ms: Seq<(usize, usize)>,
    current: Option<usize>,
    i: int,
    cursor: usize,
    len: usize,
)
    requires
        0 <= i <= ms.len(),
    ensures
        forall|k: int|
            i <= k < ms.len() ==> #[trigger] match_painted(segments_from(ms, current, i, cursor, len), ms, current, k),
    decreases ms.len() - i,
{
    if i < ms.len() {
        let segs = segments_from(ms, current, i, cursor, len);
        let rest = segments_from(ms, current, i + 1, ms[i].1, len);
        lemma_segments_shape(ms, current, i, cursor, len);
        lemma_segments_paint_every_match(ms, current, i + 1, ms[i].1, len);
        let b: int = if ms[i].0 > cursor {
            1
        } else {
            0
        };
        assert forall|k: int| i <= k < ms.len() implies #[trigger] match_painted(segs, ms, current, k) by {
            if k == i {
                assert(paints_match(segs[b], ms, current, k));
                assert(0 <= b < segs.len());
                assert(exists|j: int| 0 <= j < segs.len() && #[trigger] paints_match(segs[j], ms, current, k));
            } else {
                assert(match_painted(rest, ms, current, k));
                let j = choose|j: int| 0 <= j < rest.len() && #[trigger] paints_match(rest[j], ms, current, k);
                assert(segs[j + b + 1] == rest[j]);
                assert(paints_match(segs[j + b + 1], ms, current, k));
                assert(exists|j: int| 0 <= j < segs.len() && #[trigger] paints_match(segs[j], ms, current, k));
            }
        }
    }
}

#[verifier::spinoff_prover]
proof fn lemma_segments_current_is_selection(
    ms: Seq<(usize, usize)>,
    current: Option<usize>,
    i: int,
    cursor: usize,
    len: usize,
)
    requires
        0 <= i <= ms.len(),
        ms.len() <= usize::MAX,
    ensures
        forall|j: int|
            0 <= j < segments_from(ms, current, i, cursor, len).len() ==> #[trigger] marks_selection(
                segments_from(ms, current, i, cursor, len)[j],
                ms,
                current,
                i,
            ),
        forall|j1: int, j2: int|
            0 <= j1 < j2 < segments_from(ms, current, i, cursor, len).len() ==> !(#[trigger] segments_from(
                ms,
                current,
                i,
                cursor,
                len,
            )[j1].highlight == Highlight::Current && #[trigger] segments_from(ms, current, i, cursor, len)[j2].highlight
                == Highlight::Current),
    decreases ms.len() - i,
{
    let segs = segments_from(ms, current, i, cursor, len);
    if i >= ms.len() {
        if cursor < len {
            assert(segs[0].highlight == Highlight::Plain);
        }
        return;
    }
    let rest = segments_from(ms, current, i + 1, ms[i].1, len);
    lemma_segments_shape(ms, current, i, cursor, len);
    lemma_segments_current_is_selection(ms, current, i + 1, ms[i].1, len);
    let b: int = if ms[i].0 > cursor {
        1
    } else {
        0
    };
    assert forall|j: int| 0 <= j < segs.len() implies #[trigger] marks_selection(segs[j], ms, current, i) by {
        if j > b {
            assert(segs[j] == rest[j - b - 1]);
            assert(marks_selection(rest[j - b - 1], ms, current, i + 1));
        } else if j < b {
            assert(segs[j].highlight == Highlight::Plain);
        } else {
            if segs[j].highlight == Highlight::Current {
                assert(current == Some(i as usize));
                assert(current.unwrap() as int == i);
            }
        }
    }
    assert forall|j1: int, j2: int| 0 <= j1 < j2 < segs.len() implies !(#[trigger] segs[j1].highlight
        == Highlight::Current && #[trigger] segs[j2].highlight == Highlight::Current) by {
        if segs[j1].highlight == Highlight::Current && segs[j2].highlight == Highlight::Current {
            if j1 < b {
                assert(segs[j1].highlight == Highlight::Plain);
            }
            assert(segs[j2] == rest[j2 - b - 1]);
            assert(marks_selection(rest[j2 - b - 1], ms, current, i + 1));
            if j1 > b {
                assert(segs[j1] == rest[j1 - b - 1]);
                assert(rest[j1 - b - 1].highlight == Highlight::Current);
            } else {
                assert(current == Some(i as usize));
            }
        }
    }
}

/// The highlighting paints each match once, as the active match exactly
/// when it is the selected one and as an ordinary match otherwise; every
/// stretch painted as a match is one of the matches; and at most one
/// stretch, the selected match, is painted as the active match.
#[verifier::spinoff_prover]
pub proof fn lemma_highlight_marks_only_the_selection(ms: Seq<(usize, usize)>, current: Option<usize>, len: usize)
    requires
        ms.len() <= usize::MAX,
    ensures
        forall|j: int|
            0 <= j < highlight_plan(ms, current, len).len() && highlight_plan(ms, current, len)[j].highlight
                != Highlight::Plain ==> exists|k: int|
                0 <= k < ms.len() && #[trigger] paints_match(highlight_plan(ms, current, len)[j], ms, current, k),
        forall|k: int| 0 <= k < ms.len() ==> #[trigger] match_painted(highlight_plan(ms, current, len), ms, current, k),
        forall|j: int|
            0 <= j < highlight_plan(ms, current, len).len() ==> #[trigger] marks_selection(
                highlight_plan(ms, current, len)[j],
                ms,
                current,
                0,
            ),
        forall|j1: int, j2: int|
            0 <= j1 < j2 < highlight_plan(ms, current, len).len() ==> !(#[trigger] highlight_plan(
                ms,
                current,
                len,
            )[j1].highlight == Highlight::Current && #[trigger] highlight_plan(ms, current, len)[j2].highlight
                == Highlight::Current),
{
    if ms.len() > 0 {
        assert(highlight_plan(ms, current, len) == segments_from(ms, current, 0, 0, len));
        lemma_segments_painted_are_matches(ms, current, 0, 0, len);
        lemma_segments_paint_every_match(ms, current, 0, 0, len);
        lemma_segments_current_is_selection(ms, current, 0, 0, len);
    } else {
        let plan = highlight_plan(ms, current, len);
        assert(plan.len() == 1 && plan[0].highlight == Highlight::Plain);
    }
}

/// When the matches lie in order inside the text (as those that the search
/// finds do), the highlighting paints the whole text once, from left to
/// right, with no gap and no overlap.
pub proof fn lemma_highlight_covers_text(ms: Seq<(usize, usize)>, current: Option<usize>, len: usize)
    requires
        ranges_in_order(ms, len as int),
    ensures
        tiles(highlight_plan(ms, current, len), 0, len as int),
{
    if ms.len() == 0 {
        let seg = Segment { start: 0, end: len, highlight: Highlight::Plain };
        assert(tiles(Seq::<Segment>::empty(), len as int, len as int));
        lemma_tiles_prepend(seg, Seq::<Segment>::empty(), len as int);
        assert(seq![seg] + Seq::<Segment>::empty() =~= seq![seg]);
    } else {
        lemma_segments_tile(ms, current, 0, 0, len);
    }
}

} // verus!
