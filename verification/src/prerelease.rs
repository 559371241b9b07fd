//! The order of pre-release suffixes (`rc.1` in `1.0.0-rc.1`): the
//! dot-separated identifiers are compared one by one from the left.
//! Numeric identifiers compare by value and rank below the others, which
//! compare character by character; when one list of identifiers is a
//! prefix of the other, the shorter ranks lower.

use vstd::prelude::*;
use crate::updater::{all_digits, digits_value, is_digit, split_on};

verus! {

/// The index of the first character of `s` that is not `0`, or `s.len()`
/// when there is none.
pub open spec fn first_non_zero(s: Seq<char>) -> int
    decreases s.len(),
{
    if s.len() == 0 {
        0
    } else {
        let e = first_non_zero(s.drop_last());
        if e < s.len() - 1 {
            e
        } else if s.last() != '0' {
            s.len() - 1
        } else {
            s.len() as int
        }
    }
}

/// What an identifier is compared by: a number, by its digits with
/// leading zeros dropped, or any other identifier, by its characters.
pub enum IdentKey {
    Number(Seq<char>),
    Text(Seq<char>),
}

/// The key of the identifier `s`: a number when it is made of digits only.
pub open spec fn ident_key(s: Seq<char>) -> IdentKey {
    if s.len() > 0 && all_digits(s) {
        IdentKey::Number(s.skip(first_non_zero(s)))
    } else {
        IdentKey::Text(s)
    }
}

/// `a` and `b` agree before index `k`, and there `a` is the smaller: its
/// character comes first, or `a` has ended while `b` goes on.
pub open spec fn chars_lt_at(a: Seq<char>, b: Seq<char>, k: int) -> bool {
    &&& 0 <= k <= a.len()
    &&& k <= b.len()
    &&& a.take(k) == b.take(k)
    &&& ((k < a.len() && k < b.len() && (a[k] as u32) < (b[k] as u32)) || (k == a.len() && k < b.len()))
}

/// `a` comes before `b` character by character.
pub open spec fn chars_lt(a: Seq<char>, b: Seq<char>) -> bool {
    exists|k: int| #[trigger] chars_lt_at(a, b, k)
}

/// The order of identifiers: numbers by value (with leading zeros
/// dropped, a shorter number is the smaller, and of two as long the one
/// that comes first digit by digit), numbers below other identifiers, and
/// other identifiers character by character.
pub open spec fn key_lt(x: IdentKey, y: IdentKey) -> bool {
    match (x, y) {
        (IdentKey::Number(p), IdentKey::Number(q)) => p.len() < q.len() || (p.len() == q.len()
            && chars_lt(p, q)),
        (IdentKey::Number(_), IdentKey::Text(_)) => true,
        (IdentKey::Text(_), IdentKey::Number(_)) => false,
        (IdentKey::Text(p), IdentKey::Text(q)) => chars_lt(p, q),
    }
}

/// `a` and `b` agree before index `k`, and there `a` is the smaller.
pub open spec fn keys_lt_at(a: Seq<IdentKey>, b: Seq<IdentKey>, k: int) -> bool {
    &&& 0 <= k <= a.len()
    &&& k <= b.len()
    &&& a.take(k) == b.take(k)
    &&& ((k < a.len() && k < b.len() && key_lt(a[k], b[k])) || (k == a.len() && k < b.len()))
}

/// The identifier list `a` ranks below `b`.
pub open spec fn keys_lt(a: Seq<IdentKey>, b: Seq<IdentKey>) -> bool {
    exists|k: int| #[trigger] keys_lt_at(a, b, k)
}

/// The keys of the dot-separated identifiers of the suffix `s`.
pub open spec fn prerelease_keys(s: Seq<char>) -> Seq<IdentKey> {
    split_on(s, '.').map_values(|p: Seq<char>| ident_key(p))
}

// ---------------------------------------------------------------------
// The order is a strict order

pub proof fn lemma_chars_lt_irreflexive(a: Seq<char>)
    ensures
        !chars_lt(a, a),
{
}

proof fn lemma_chars_lt_transitive(a: Seq<char>, b: Seq<char>, c: Seq<char>)
    requires
        chars_lt(a, b),
        chars_lt(b, c),
    ensures
        chars_lt(a, c),
{
    let k1 = choose|k: int| #[trigger] chars_lt_at(a, b, k);
    let k2 = choose|k: int| #[trigger] chars_lt_at(b, c, k);
    if k1 < k2 {
        assert(a.take(k1) =~= c.take(k1)) by {
            assert(b.take(k1) =~= b.take(k2).take(k1));
            assert(c.take(k1) =~= c.take(k2).take(k1));
        }
        if k1 < a.len() {
            assert(b[k1] == c[k1]) by {
                assert(b.take(k2)[k1] == b[k1]);
                assert(c.take(k2)[k1] == c[k1]);
            }
        }
        assert(chars_lt_at(a, c, k1));
    } else if k2 < k1 {
        assert(a.take(k2) =~= c.take(k2)) by {
            assert(a.take(k2) =~= a.take(k1).take(k2));
            assert(b.take(k2) =~= b.take(k1).take(k2));
        }
        assert(a[k2] == b[k2]) by {
            assert(a.take(k1)[k2] == a[k2]);
            assert(b.take(k1)[k2] == b[k2]);
        }
        assert(chars_lt_at(a, c, k2));
    } else {
        assert(a.take(k1) =~= c.take(k1));
        assert(chars_lt_at(a, c, k1));
    }
}

proof fn lemma_chars_lt_asymmetric(a: Seq<char>, b: Seq<char>)
    ensures
        !(chars_lt(a, b) && chars_lt(b, a)),
{
    if chars_lt(a, b) && chars_lt(b, a) {
        lemma_chars_lt_transitive(a, b, a);
        lemma_chars_lt_irreflexive(a);
    }
}

proof fn lemma_key_lt_strict(x: IdentKey, y: IdentKey, z: IdentKey)
    ensures
        !key_lt(x, x),
        !(key_lt(x, y) && key_lt(y, x)),
        key_lt(x, y) && key_lt(y, z) ==> key_lt(x, z),
{
    match x {
        IdentKey::Number(p) => lemma_chars_lt_irreflexive(p),
        IdentKey::Text(p) => lemma_chars_lt_irreflexive(p),
    }
    match (x, y) {
        (IdentKey::Number(p), IdentKey::Number(q)) => lemma_chars_lt_asymmetric(p, q),
        (IdentKey::Text(p), IdentKey::Text(q)) => lemma_chars_lt_asymmetric(p, q),
        _ => {},
    }
    if key_lt(x, y) && key_lt(y, z) {
        match (x, y, z) {
            (IdentKey::Number(p), IdentKey::Number(q), IdentKey::Number(r)) => {
                if p.len() == q.len() && q.len() == r.len() {
                    lemma_chars_lt_transitive(p, q, r);
                }
            },
            (IdentKey::Text(p), IdentKey::Text(q), IdentKey::Text(r)) => {
                lemma_chars_lt_transitive(p, q, r);
            },
            _ => {},
        }
    }
}

/// No identifier list ranks below itself.
pub proof fn lemma_keys_lt_irreflexive(a: Seq<IdentKey>)
    ensures
        !keys_lt(a, a),
{
    if keys_lt(a, a) {
        let k = choose|k: int| #[trigger] keys_lt_at(a, a, k);
        lemma_key_lt_strict(a[k], a[k], a[k]);
    }
}

/// The order of identifier lists is transitive.
pub proof fn lemma_keys_lt_transitive(a: Seq<IdentKey>, b: Seq<IdentKey>, c: Seq<IdentKey>)
    requires
        keys_lt(a, b),
        keys_lt(b, c),
    ensures
        keys_lt(a, c),
{
    let k1 = choose|k: int| #[trigger] keys_lt_at(a, b, k);
    let k2 = choose|k: int| #[trigger] keys_lt_at(b, c, k);
    if k1 < k2 {
        assert(a.take(k1) =~= c.take(k1)) by {
            assert(b.take(k1) =~= b.take(k2).take(k1));
            assert(c.take(k1) =~= c.take(k2).take(k1));
        }
        if k1 < a.len() {
            assert(b[k1] == c[k1]) by {
                assert(b.take(k2)[k1] == b[k1]);
                assert(c.take(k2)[k1] == c[k1]);
            }
        }
        assert(keys_lt_at(a, c, k1));
    } else if k2 < k1 {
        assert(a.take(k2) =~= c.take(k2)) by {
            assert(a.take(k2) =~= a.take(k1).take(k2));
            assert(b.take(k2) =~= b.take(k1).take(k2));
        }
        assert(a[k2] == b[k2]) by {
            assert(a.take(k1)[k2] == a[k2]);
            assert(b.take(k1)[k2] == b[k2]);
        }
        assert(keys_lt_at(a, c, k2));
    } else {
        assert(a.take(k1) =~= c.take(k1));
        if k1 < a.len() {
            lemma_key_lt_strict(a[k1], b[k1], c[k1]);
        }
        assert(keys_lt_at(a, c, k1));
    }
}

/// Of two identifier lists, at most one ranks below the other.
pub proof fn lemma_keys_lt_asymmetric(a: Seq<IdentKey>, b: Seq<IdentKey>)
    ensures
        !(keys_lt(a, b) && keys_lt(b, a)),
{
    if keys_lt(a, b) && keys_lt(b, a) {
        lemma_keys_lt_transitive(a, b, a);
        lemma_keys_lt_irreflexive(a);
    }
}


// ---------------------------------------------------------------------
// Numeric identifiers rank by value

pub open spec fn pow10(n: nat) -> nat
    decreases n,
{
    if n == 0 {
        1
    } else {
        10 * pow10((n - 1) as nat)
    }
}

proof fn lemma_pow10_mono(m: nat, n: nat)
    requires
        m <= n,
    ensures
        1 <= pow10(m) <= pow10(n),
    decreases n,
{
    if n > 0 {
        if m < n {
            lemma_pow10_mono(m, (n - 1) as nat);
        } else {
            lemma_pow10_mono((n - 1) as nat, (n - 1) as nat);
        }
    }
}

proof fn lemma_digits_below_pow(p: Seq<char>)
    requires
        all_digits(p),
    ensures
        digits_value(p) < pow10(p.len()),
    decreases p.len(),
{
    if p.len() > 0 {
        assert(is_digit(p[p.len() - 1]));
        lemma_digits_below_pow(p.drop_last());
    }
}

proof fn lemma_digits_at_least_pow(p: Seq<char>)
    requires
        all_digits(p),
        p.len() > 0,
        p[0] != '0',
    ensures
        digits_value(p) >= pow10((p.len() - 1) as nat),
    decreases p.len(),
{
    assert(is_digit(p[p.len() - 1]));
    assert(is_digit(p[0]));
    if p.len() > 1 {
        lemma_digits_at_least_pow(p.drop_last());
    } else {
        assert(p.drop_last().len() == 0);
    }
}

proof fn lemma_leading_zeros(s: Seq<char>)
    ensures
        0 <= first_non_zero(s) <= s.len(),
        forall|i: int| 0 <= i < first_non_zero(s) ==> s[i] == '0',
        first_non_zero(s) < s.len() ==> s[first_non_zero(s)] != '0',
    decreases s.len(),
{
    if s.len() > 0 {
        let t = s.drop_last();
        lemma_leading_zeros(t);
        assert forall|i: int| 0 <= i < t.len() implies t[i] == s[i] by {}
    }
}

proof fn lemma_digits_skip_zeros(s: Seq<char>, j: int)
    requires
        0 <= j <= s.len(),
        forall|i: int| 0 <= i < j ==> s[i] == '0',
    ensures
        digits_value(s) == digits_value(s.skip(j)),
    decreases s.len(),
{
    if s.len() > 0 {
        if j == s.len() {
            lemma_digits_skip_zeros(s.drop_last(), j - 1);
            assert(s.drop_last().skip(j - 1).len() == 0);
            assert(s.skip(j).len() == 0);
        } else {
            lemma_digits_skip_zeros(s.drop_last(), j);
            assert(s.skip(j).drop_last() =~= s.drop_last().skip(j));
            assert(s.skip(j).last() == s.last());
        }
    } else {
        assert(s.skip(j) =~= s);
    }
}

proof fn lemma_digits_split(p: Seq<char>, k: int)
    requires
        0 <= k <= p.len(),
    ensures
        digits_value(p) == digits_value(p.take(k)) * pow10((p.len() - k) as nat) + digits_value(p.skip(k)),
    decreases p.len(),
{
    if k == p.len() {
        assert(p.take(k) =~= p);
        assert(p.skip(k).len() == 0);
        assert(digits_value(p.skip(k)) == 0);
        assert(pow10((p.len() - k) as nat) == 1);
        assert(digits_value(p.take(k)) * 1 == digits_value(p));
    } else {
        let q = p.drop_last();
        lemma_digits_split(q, k);
        assert(q.take(k) =~= p.take(k));
        assert(p.skip(k).drop_last() =~= q.skip(k));
        assert(p.skip(k).last() == p.last());
        let t = digits_value(p.take(k));
        let m = pow10((q.len() - k) as nat);
        let d = (p.last() as nat - 48) as nat;
        assert(digits_value(p) == digits_value(q) * 10 + d);
        assert(digits_value(p.skip(k)) == digits_value(q.skip(k)) * 10 + d);
        assert(digits_value(q) == t * m + digits_value(q.skip(k)));
        assert(pow10((p.len() - k) as nat) == 10 * m);
        assert(t * m * 10 == t * (10 * m)) by (nonlinear_arith);
        assert((t * m + digits_value(q.skip(k))) * 10 == t * m * 10 + digits_value(q.skip(k)) * 10);
        assert(digits_value(p) == t * (10 * m) + digits_value(p.skip(k)));
    }
}

proof fn lemma_first_difference(p: Seq<char>, q: Seq<char>) -> (k: int)
    requires
        p.len() == q.len(),
        p != q,
    ensures
        0 <= k < p.len(),
        p.take(k) == q.take(k),
        p[k] != q[k],
    decreases p.len(),
{
    if p.len() == 0 {
        assert(p =~= q);
        0
    } else if p.drop_last() == q.drop_last() {
        let k = p.len() - 1;
        assert(p.take(k) =~= p.drop_last());
        assert(q.take(k) =~= q.drop_last());
        if p[k] == q[k] {
            assert forall|i: int| 0 <= i < p.len() implies p[i] == q[i] by {
                if i < k {
                    assert(p.drop_last()[i] == q.drop_last()[i]);
                }
            }
            assert(p =~= q);
        }
        k
    } else {
        let k = lemma_first_difference(p.drop_last(), q.drop_last());
        assert(p.take(k) =~= p.drop_last().take(k));
        assert(q.take(k) =~= q.drop_last().take(k));
        k
    }
}

proof fn lemma_same_length_by_value(p: Seq<char>, q: Seq<char>)
    requires
        all_digits(p),
        all_digits(q),
        p.len() == q.len(),
    ensures
        chars_lt(p, q) <==> digits_value(p) < digits_value(q),
        p == q <==> digits_value(p) == digits_value(q),
{
    if p == q {
        lemma_chars_lt_irreflexive(p);
        return;
    }
    let n = p.len() as int;
    let k = lemma_first_difference(p, q);
    lemma_digits_split(p, k);
    lemma_digits_split(q, k);
    assert(p.take(k) == q.take(k));
    let ps = p.skip(k);
    let qs = q.skip(k);
    lemma_digits_split(ps, 1);
    lemma_digits_split(qs, 1);
    assert(ps.take(1).drop_last().len() == 0);
    assert(qs.take(1).drop_last().len() == 0);
    assert(ps.take(1).last() == p[k]);
    assert(qs.take(1).last() == q[k]);
    assert(is_digit(p[k]) && is_digit(q[k]));
    let dp = digits_value(ps.take(1));
    let dq = digits_value(qs.take(1));
    assert(dp == digits_value(ps.take(1).drop_last()) * 10 + (ps.take(1).last() as nat - 48) as nat);
    assert(dq == digits_value(qs.take(1).drop_last()) * 10 + (qs.take(1).last() as nat - 48) as nat);
    assert(dp == p[k] as nat - 48);
    assert(dq == q[k] as nat - 48);
    assert(ps.skip(1) =~= p.skip(k + 1));
    assert(qs.skip(1) =~= q.skip(k + 1));
    assert forall|j: int| 0 <= j < p.skip(k + 1).len() implies #[trigger] is_digit(p.skip(k + 1)[j]) by {
        assert(is_digit(p[k + 1 + j]));
    }
    assert forall|j: int| 0 <= j < q.skip(k + 1).len() implies #[trigger] is_digit(q.skip(k + 1)[j]) by {
        assert(is_digit(q[k + 1 + j]));
    }
    lemma_digits_below_pow(p.skip(k + 1));
    lemma_digits_below_pow(q.skip(k + 1));
    let pw = pow10((n - k - 1) as nat);
    let rp = digits_value(p.skip(k + 1));
    let rq = digits_value(q.skip(k + 1));
    let t = digits_value(p.take(k));
    let m = pow10((n - k) as nat);
    assert(m == 10 * pw);
    if (p[k] as u32) < (q[k] as u32) {
        assert(dp < dq);
        assert(dp * pw + rp < dq * pw + rq) by (nonlinear_arith)
            requires
                dp < dq,
                rp < pw,
                0 <= rq,
        ;
        assert(t * m + (dp * pw + rp) < t * m + (dq * pw + rq));
        assert(chars_lt_at(p, q, k));
    } else {
        assert(dq < dp);
        assert(dq * pw + rq < dp * pw + rp) by (nonlinear_arith)
            requires
                dq < dp,
                rq < pw,
                0 <= rp,
        ;
        assert(t * m + (dq * pw + rq) < t * m + (dp * pw + rp));
        assert forall|j: int| !#[trigger] chars_lt_at(p, q, j) by {
            if 0 <= j < k {
                assert(p.take(k)[j] == p[j]);
                assert(q.take(k)[j] == q[j]);
            } else if j > k && j <= p.len() && p.take(j) == q.take(j) {
                assert(p.take(j)[k] == q.take(j)[k]);
            }
        }
    }
}

/// Numeric identifiers rank by their values: one ranks below another
/// exactly when its value is the smaller, and the same exactly when the
/// values are equal.
pub proof fn lemma_numbers_rank_by_value(a: Seq<char>, b: Seq<char>)
    requires
        a.len() > 0,
        all_digits(a),
        b.len() > 0,
        all_digits(b),
    ensures
        key_lt(ident_key(a), ident_key(b)) <==> digits_value(a) < digits_value(b),
        ident_key(a) == ident_key(b) <==> digits_value(a) == digits_value(b),
{
    lemma_leading_zeros(a);
    lemma_leading_zeros(b);
    let pa = a.skip(first_non_zero(a));
    let pb = b.skip(first_non_zero(b));
    lemma_digits_skip_zeros(a, first_non_zero(a));
    lemma_digits_skip_zeros(b, first_non_zero(b));
    assert forall|j: int| 0 <= j < pa.len() implies #[trigger] is_digit(pa[j]) by {
        assert(is_digit(a[first_non_zero(a) + j]));
    }
    assert forall|j: int| 0 <= j < pb.len() implies #[trigger] is_digit(pb[j]) by {
        assert(is_digit(b[first_non_zero(b) + j]));
    }
    lemma_digits_below_pow(pa);
    lemma_digits_below_pow(pb);
    if pa.len() < pb.len() {
        lemma_digits_at_least_pow(pb);
        lemma_pow10_mono(pa.len(), (pb.len() - 1) as nat);
        assert(pa != pb);
    } else if pb.len() < pa.len() {
        lemma_digits_at_least_pow(pa);
        lemma_pow10_mono(pb.len(), (pa.len() - 1) as nat);
        assert(pa != pb);
    } else {
        lemma_same_length_by_value(pa, pb);
    }
}

// ---------------------------------------------------------------------
// Comparing suffixes

/// Compares `a[a0..a1]` with `b[b0..b1]` character by character: whether
/// the first comes before the second, and whether they are equal.
fn compare_chars(a: &Vec<char>, a0: usize, a1: usize, b: &Vec<char>, b0: usize, b1: usize) -> (r: (
    bool,
    bool,
))
    requires
        a0 <= a1 <= a.len(),
        b0 <= b1 <= b.len(),
    ensures
        r.0 == chars_lt(a@.subrange(a0 as int, a1 as int), b@.subrange(b0 as int, b1 as int)),
        r.1 == (a@.subrange(a0 as int, a1 as int) == b@.subrange(b0 as int, b1 as int)),
{
    let ghost sa = a@.subrange(a0 as int, a1 as int);
    let ghost sb = b@.subrange(b0 as int, b1 as int);
    let la = a1 - a0;
    let lb = b1 - b0;
    let mut j: usize = 0;
    assert(sa.take(0) =~= sb.take(0));
    while j < la && j < lb && a[a0 + j] == b[b0 + j]
        invariant
            a0 <= a1 <= a.len(),
            b0 <= b1 <= b.len(),
            la == a1 - a0,
            lb == b1 - b0,
            sa == a@.subrange(a0 as int, a1 as int),
            sb == b@.subrange(b0 as int, b1 as int),
            j <= la,
            j <= lb,
            sa.take(j as int) == sb.take(j as int),
        decreases la - j,
    {
        assert(sa[j as int] == sb[j as int]);
        assert(sa.take(j + 1) =~= sa.take(j as int).push(sa[j as int]));
        assert(sb.take(j + 1) =~= sb.take(j as int).push(sb[j as int]));
        j += 1;
    }
    if j < la && j < lb {
        let ca = a[a0 + j];
        let cb = b[b0 + j];
        assert(sa[j as int] == ca && sb[j as int] == cb);
        if (ca as u32) < (cb as u32) {
            assert(chars_lt_at(sa, sb, j as int));
            (true, false)
        } else {
            assert forall|k: int| !#[trigger] chars_lt_at(sa, sb, k) by {
                if 0 <= k < j {
                    assert(sa.take(j as int)[k] == sa[k]);
                    assert(sb.take(j as int)[k] == sb[k]);
                } else if k > j && k <= sa.len() && k <= sb.len() && sa.take(k) == sb.take(k) {
                    assert(sa.take(k)[j as int] == sb.take(k)[j as int]);
                }
            }
            assert(sa[j as int] != sb[j as int]);
            (false, false)
        }
    } else if j == la && j < lb {
        assert(sa.take(j as int) =~= sa);
        assert(chars_lt_at(sa, sb, j as int));
        (true, false)
    } else if j == lb && j < la {
        assert forall|k: int| !#[trigger] chars_lt_at(sa, sb, k) by {
            if 0 <= k < j {
                assert(sa.take(j as int)[k] == sa[k]);
                assert(sb.take(j as int)[k] == sb[k]);
            }
        }
        (false, false)
    } else {
        assert(sa.take(j as int) =~= sa);
        assert(sb.take(j as int) =~= sb);
        proof {
            lemma_chars_lt_irreflexive(sa);
        }
        (false, true)
    }
}

/// Whether `cs[from..to]` is a non-empty run of digits.
fn is_numeric(cs: &Vec<char>, from: usize, to: usize) -> (r: bool)
    requires
        from <= to <= cs.len(),
    ensures
        r == (to > from && all_digits(cs@.subrange(from as int, to as int))),
{
    let ghost s = cs@.subrange(from as int, to as int);
    if from == to {
        return false;
    }
    let mut i = from;
    while i < to
        invariant
            from <= i <= to <= cs.len(),
            s == cs@.subrange(from as int, to as int),
            forall|j: int| 0 <= j < i - from ==> #[trigger] is_digit(s[j]),
        decreases to - i,
    {
        let c = cs[i];
        if !('0' <= c && c <= '9') {
            assert(!is_digit(s[i - from]));
            return false;
        }
        i += 1;
    }
    true
}

proof fn lemma_first_non_zero_settled(s: Seq<char>, k: int)
    requires
        0 <= k <= s.len(),
        first_non_zero(s.take(k)) < k,
    ensures
        first_non_zero(s) == first_non_zero(s.take(k)),
    decreases s.len() - k,
{
    if k < s.len() {
        assert(s.take(k + 1).drop_last() =~= s.take(k));
        lemma_first_non_zero_settled(s, k + 1);
    } else {
        assert(s.take(k) =~= s);
    }
}

/// The index in `cs` of the first character of `cs[from..to]` that is not
/// `0`, or `to` when there is none.
fn skip_zeros(cs: &Vec<char>, from: usize, to: usize) -> (r: usize)
    requires
        from <= to <= cs.len(),
    ensures
        from <= r <= to,
        r - from == first_non_zero(cs@.subrange(from as int, to as int)),
{
    let ghost s = cs@.subrange(from as int, to as int);
    let mut i = from;
    assert(s.take(0) =~= Seq::<char>::empty());
    while i < to && cs[i] == '0'
        invariant
            from <= i <= to <= cs.len(),
            s == cs@.subrange(from as int, to as int),
            first_non_zero(s.take(i - from)) == i - from,
        decreases to - i,
    {
        assert(s.take(i + 1 - from).drop_last() =~= s.take(i - from));
        assert(s.take(i + 1 - from).last() == s[i - from]);
        i += 1;
    }
    if i < to {
        assert(s.take(i + 1 - from).drop_last() =~= s.take(i - from));
        assert(s.take(i + 1 - from).last() == s[i - from]);
        proof {
            lemma_first_non_zero_settled(s, i + 1 - from);
        }
    } else {
        assert(s.take(i - from) =~= s);
    }
    i
}

/// Compares the keys of the identifiers `a[ra.0..ra.1]` and
/// `b[rb.0..rb.1]`: whether the first ranks below the second, and whether
/// they rank the same.
fn compare_idents(a: &Vec<char>, ra: (usize, usize), b: &Vec<char>, rb: (usize, usize)) -> (r: (bool, bool))
    requires
        ra.0 <= ra.1 <= a.len(),
        rb.0 <= rb.1 <= b.len(),
    ensures
        r.0 == key_lt(
            ident_key(a@.subrange(ra.0 as int, ra.1 as int)),
            ident_key(b@.subrange(rb.0 as int, rb.1 as int)),
        ),
        r.1 == (ident_key(a@.subrange(ra.0 as int, ra.1 as int)) == ident_key(
            b@.subrange(rb.0 as int, rb.1 as int),
        )),
{
    let ghost sa = a@.subrange(ra.0 as int, ra.1 as int);
    let ghost sb = b@.subrange(rb.0 as int, rb.1 as int);
    let na = is_numeric(a, ra.0, ra.1);
    let nb = is_numeric(b, rb.0, rb.1);
    if na && nb {
        let za = skip_zeros(a, ra.0, ra.1);
        let zb = skip_zeros(b, rb.0, rb.1);
        assert(sa.skip(first_non_zero(sa)) =~= a@.subrange(za as int, ra.1 as int));
        assert(sb.skip(first_non_zero(sb)) =~= b@.subrange(zb as int, rb.1 as int));
        let la = ra.1 - za;
        let lb = rb.1 - zb;
        if la < lb {
            (true, false)
        } else if lb < la {
            (false, false)
        } else {
            compare_chars(a, za, ra.1, b, zb, rb.1)
        }
    } else if na {
        (true, false)
    } else if nb {
        (false, false)
    } else {
        compare_chars(a, ra.0, ra.1, b, rb.0, rb.1)
    }
}

/// The ranges in `cs` of the dot-separated identifiers of `cs[from..to]`.
fn ident_ranges(cs: &Vec<char>, from: usize, to: usize) -> (r: Vec<(usize, usize)>)
    requires
        from <= to <= cs.len(),
    ensures
        r.len() == split_on(cs@.subrange(from as int, to as int), '.').len(),
        forall|k: int|
            0 <= k < r.len() ==> from <= #[trigger] r@[k].0 <= r@[k].1 <= to && cs@.subrange(
                r@[k].0 as int,
                r@[k].1 as int,
            ) == split_on(cs@.subrange(from as int, to as int), '.')[k],
{
    let ghost s = cs@.subrange(from as int, to as int);
    let mut out: Vec<(usize, usize)> = Vec::new();
    let mut start = from;
    let mut i = from;
    proof {
        assert(s.take(0) =~= Seq::<char>::empty());
        let e = split_on(Seq::<char>::empty(), '.');
        assert(e.drop_last().push(Seq::<char>::empty()) =~= e);
        assert(s.subrange(0, 0) =~= Seq::<char>::empty());
    }
    while i < to
        invariant
            from <= start <= i <= to <= cs.len(),
            s == cs@.subrange(from as int, to as int),
            split_on(s.take(i - from), '.') == split_on(s.take(start - from), '.').drop_last().push(
                s.subrange(start - from, i - from),
            ),
            split_on(s.take(start - from), '.').last() == Seq::<char>::empty(),
            out.len() == split_on(s.take(start - from), '.').len() - 1,
            forall|k: int|
                0 <= k < out.len() ==> from <= #[trigger] out@[k].0 <= out@[k].1 <= to && cs@.subrange(
                    out@[k].0 as int,
                    out@[k].1 as int,
                ) == split_on(s.take(start - from), '.')[k],
        decreases to - i,
    {
        let ghost before = split_on(s.take(i - from), '.');
        let ghost prev = split_on(s.take(start - from), '.');
        proof {
            lemma_split_len(s.take(i - from));
            lemma_split_len(s.take(start - from));
            assert(s.take(i + 1 - from).drop_last() =~= s.take(i - from));
            assert(s.take(i + 1 - from).last() == s[i - from]);
            assert(s[i - from] == cs@[i as int]);
        }
        if cs[i] == '.' {
            out.push((start, i));
            proof {
                let now = split_on(s.take(i + 1 - from), '.');
                assert(now == before.push(seq![]));
                assert(cs@.subrange(start as int, i as int) =~= s.subrange(start - from, i - from));
                assert forall|k: int| 0 <= k < out.len() implies from <= #[trigger] out@[k].0 <= out@[k].1
                    <= to && cs@.subrange(out@[k].0 as int, out@[k].1 as int) == now[k] by {
                    if k < out.len() - 1 {
                        assert(now[k] == before[k]);
                        assert(before[k] == prev[k]);
                    } else {
                        assert(now[k] == before[k]);
                    }
                }
                assert(s.subrange(i + 1 - from, i + 1 - from) =~= Seq::<char>::empty());
                assert(now.drop_last().push(s.subrange(i + 1 - from, i + 1 - from)) =~= now);
            }
            start = i + 1;
        } else {
            proof {
                assert(s.subrange(start - from, i + 1 - from) =~= s.subrange(start - from, i - from).push(
                    s[i - from],
                ));
                assert(split_on(s.take(i + 1 - from), '.') =~= prev.drop_last().push(
                    s.subrange(start - from, i + 1 - from),
                ));
            }
        }
        i += 1;
    }
    let ghost prev = split_on(s.take(start - from), '.');
    out.push((start, to));
    proof {
        lemma_split_len(s.take(start - from));
        assert(s.take(to - from) =~= s);
        let all = split_on(s, '.');
        assert(cs@.subrange(start as int, to as int) =~= s.subrange(start - from, to - from));
        assert forall|k: int| 0 <= k < out.len() implies from <= #[trigger] out@[k].0 <= out@[k].1 <= to
            && cs@.subrange(out@[k].0 as int, out@[k].1 as int) == all[k] by {
            if k < out.len() - 1 {
                assert(all[k] == prev[k]);
            }
        }
    }
    out
}

proof fn lemma_split_len(s: Seq<char>)
    ensures
        split_on(s, '.').len() >= 1,
    decreases s.len(),
{
    if s.len() > 0 {
        lemma_split_len(s.drop_last());
    }
}

/// Whether the suffix `a[a0..a1]` ranks below the suffix `b[b0..b1]`.
pub fn prerelease_lt(a: &Vec<char>, a0: usize, a1: usize, b: &Vec<char>, b0: usize, b1: usize) -> (r: bool)
    requires
        a0 <= a1 <= a.len(),
        b0 <= b1 <= b.len(),
    ensures
        r == keys_lt(
            prerelease_keys(a@.subrange(a0 as int, a1 as int)),
            prerelease_keys(b@.subrange(b0 as int, b1 as int)),
        ),
{
    let ghost ka = prerelease_keys(a@.subrange(a0 as int, a1 as int));
    let ghost kb = prerelease_keys(b@.subrange(b0 as int, b1 as int));
    let ra = ident_ranges(a, a0, a1);
    let rb = ident_ranges(b, b0, b1);
    assert forall|k: int| 0 <= k < ra.len() implies #[trigger] ka[k] == ident_key(
        a@.subrange(ra@[k].0 as int, ra@[k].1 as int),
    ) by {
        assert(ra@[k].0 <= ra@[k].1);
    }
    assert forall|k: int| 0 <= k < rb.len() implies #[trigger] kb[k] == ident_key(
        b@.subrange(rb@[k].0 as int, rb@[k].1 as int),
    ) by {
        assert(rb@[k].0 <= rb@[k].1);
    }
    let mut k: usize = 0;
    assert(ka.take(0) =~= kb.take(0));
    while k < ra.len() && k < rb.len()
        invariant
            ka == prerelease_keys(a@.subrange(a0 as int, a1 as int)),
            kb == prerelease_keys(b@.subrange(b0 as int, b1 as int)),
            k <= ra.len(),
            k <= rb.len(),
            ra.len() == ka.len(),
            rb.len() == kb.len(),
            forall|j: int| 0 <= j < ra.len() ==> #[trigger] ka[j] == ident_key(
                a@.subrange(ra@[j].0 as int, ra@[j].1 as int),
            ),
            forall|j: int| 0 <= j < rb.len() ==> #[trigger] kb[j] == ident_key(
                b@.subrange(rb@[j].0 as int, rb@[j].1 as int),
            ),
            forall|j: int| 0 <= j < ra.len() ==> ra@[j].0 <= #[trigger] ra@[j].1 <= a.len(),
            forall|j: int| 0 <= j < rb.len() ==> rb@[j].0 <= #[trigger] rb@[j].1 <= b.len(),
            ka.take(k as int) == kb.take(k as int),
        decreases ra.len() - k,
    {
        let (lt, eq) = compare_idents(a, ra[k], b, rb[k]);
        if lt {
            assert(keys_lt_at(ka, kb, k as int));
            return true;
        }
        if !eq {
            assert forall|j: int| !#[trigger] keys_lt_at(ka, kb, j) by {
                if 0 <= j < k {
                    assert(ka.take(k as int)[j] == ka[j]);
                    assert(kb.take(k as int)[j] == kb[j]);
                    lemma_key_lt_strict(ka[j], ka[j], ka[j]);
                } else if j > k && j <= ka.len() && j <= kb.len() && ka.take(j) == kb.take(j) {
                    assert(ka.take(j)[k as int] == kb.take(j)[k as int]);
                }
            }
            return false;
        }
        assert(ka.take(k + 1) =~= ka.take(k as int).push(ka[k as int]));
        assert(kb.take(k + 1) =~= kb.take(k as int).push(kb[k as int]));
        k += 1;
    }
    if k == ra.len() && k < rb.len() {
        assert(ka.take(k as int) =~= ka);
        assert(keys_lt_at(ka, kb, k as int));
        true
    } else {
        assert forall|j: int| !#[trigger] keys_lt_at(ka, kb, j) by {
            if 0 <= j < k {
                assert(ka.take(k as int)[j] == ka[j]);
                assert(kb.take(k as int)[j] == kb[j]);
                lemma_key_lt_strict(ka[j], ka[j], ka[j]);
            }
        }
        false
    }
}

} // verus!
