//! Deciding, from the latest release on GitHub, whether an update is
//! available. Fetching the release runs outside the library, on its own
//! thread; its outcome is handed back through a channel.

use vstd::prelude::*;
use crate::text::{chars_of, push_str_chars, string_from_chars};
use crate::prerelease::{keys_lt, prerelease_keys, prerelease_lt, lemma_keys_lt_irreflexive, lemma_keys_lt_asymmetric, lemma_keys_lt_transitive};

verus! {

/// Where the latest release is described.
pub const GITHUB_API_URL: &'static str = "https://api.github.com/repos/falconshark/rust-writer/releases/latest";

/// Where users download releases.
pub const GITHUB_RELEASES_URL: &'static str = "https://github.com/falconshark/rust-writer/releases";

/// The version of this build.
pub const CURRENT_VERSION: &'static str = "0.1.0";

/// The outcome of an update check, and the later steps of an update.
pub enum UpdateStatus {
    /// A newer version is available; its version string.
    UpdateAvailable(String),
    UpToDate,
    Failed,
    Downloading,
    Applying,
}

// ---------------------------------------------------------------------
// Version numbers

/// The value of the decimal digits `ds`.
pub open spec fn digits_value(ds: Seq<char>) -> nat
    decreases ds.len(),
{
    if ds.len() == 0 {
        0
    } else {
        digits_value(ds.drop_last()) * 10 + (ds.last() as nat - 48) as nat
    }
}

pub open spec fn is_digit(c: char) -> bool {
    '0' <= c <= '9'
}

/// The characters of `s` after an optional leading `+`.
pub open spec fn unsigned_digits(s: Seq<char>) -> Seq<char> {
    if s.len() > 0 && s[0] == '+' {
        s.skip(1)
    } else {
        s
    }
}

/// Every character of `ds` is a decimal digit.
pub open spec fn all_digits(ds: Seq<char>) -> bool {
    forall|i: int| 0 <= i < ds.len() ==> #[trigger] is_digit(ds[i])
}

/// What `str::parse::<u32>` gives for `s`: an optional `+` sign followed by
/// at least one decimal digit and nothing else, whose value fits in a
/// `u32`.
pub open spec fn parse_u32_spec(s: Seq<char>) -> Option<u32> {
    let ds = unsigned_digits(s);
    if ds.len() > 0 && all_digits(ds) && digits_value(ds) <= u32::MAX {
        Some(digits_value(ds) as u32)
    } else {
        None
    }
}

/// `s` split at every `c`: the pieces between the separators, the first
/// and last included, so that there is always one more piece than there
/// are separators.
pub open spec fn split_on(s: Seq<char>, c: char) -> Seq<Seq<char>>
    decreases s.len(),
{
    if s.len() == 0 {
        seq![seq![]]
    } else {
        let rest = split_on(s.drop_last(), c);
        if s.last() == c {
            rest.push(seq![])
        } else {
            rest.update(rest.len() - 1, rest.last().push(s.last()))
        }
    }
}

/// The numbers among `ps`: each piece that parses as a `u32`, in order.
pub open spec fn parsed_numbers(ps: Seq<Seq<char>>) -> Seq<u32>
    decreases ps.len(),
{
    if ps.len() == 0 {
        seq![]
    } else {
        let rest = parsed_numbers(ps.drop_last());
        match parse_u32_spec(ps.last()) {
            Some(n) => rest.push(n),
            None => rest,
        }
    }
}

/// The `i`-th number of `ns`, or 0 when there are fewer.
pub open spec fn nth_or_zero(ns: Seq<u32>, i: int) -> u32 {
    if i < ns.len() {
        ns[i]
    } else {
        0
    }
}

/// The numeric core of `v` ends at its `i`-th character: a `-` starts a
/// pre-release suffix, and a `+` that follows a digit or letter (not one
/// that starts `v` or a dot-separated part, which `str::parse` reads as a
/// sign) starts build metadata.
pub open spec fn ends_core_at(v: Seq<char>, i: int) -> bool {
    v[i] == '-' || (v[i] == '+' && i > 0 && v[i - 1] != '.')
}

/// The length of the numeric core of `v`: the characters before the first
/// place where it ends (`ends_core_at`), all of `v` when there is none.
pub open spec fn core_len(v: Seq<char>) -> int
    decreases v.len(),
{
    if v.len() == 0 {
        0
    } else {
        let e = core_len(v.drop_last());
        if e < v.len() - 1 {
            e
        } else if ends_core_at(v, v.len() - 1) {
            v.len() - 1
        } else {
            v.len() as int
        }
    }
}

/// The numeric core of `v`, such as `1.2.3` in `1.2.3-rc.1+build.5`.
pub open spec fn version_core(v: Seq<char>) -> Seq<char> {
    v.take(core_len(v))
}

/// `v` carries a pre-release suffix: its core ends at a `-`.
pub open spec fn has_prerelease(v: Seq<char>) -> bool {
    core_len(v) < v.len() && v[core_len(v)] == '-'
}

/// The major, minor and patch numbers of a version string: the first three
/// dot-separated parts of its numeric core that are numbers, 0 for any
/// that are missing. A pre-release suffix or build metadata never supplies
/// one of them.
pub open spec fn version_triple(v: Seq<char>) -> (u32, u32, u32) {
    let ns = parsed_numbers(split_on(version_core(v), '.'));
    (nth_or_zero(ns, 0), nth_or_zero(ns, 1), nth_or_zero(ns, 2))
}

/// Lexicographic order on version triples.
pub open spec fn triple_gt(a: (u32, u32, u32), b: (u32, u32, u32)) -> bool {
    a.0 > b.0 || (a.0 == b.0 && (a.1 > b.1 || (a.1 == b.1 && a.2 > b.2)))
}

/// The index of the first `c` in `s`, or `s.len()` when there is none.
pub open spec fn first_index_of(s: Seq<char>, c: char) -> int
    decreases s.len(),
{
    if s.len() == 0 {
        0
    } else {
        let e = first_index_of(s.drop_last(), c);
        if e < s.len() - 1 {
            e
        } else if s.last() == c {
            s.len() - 1
        } else {
            s.len() as int
        }
    }
}

/// The pre-release suffix of `v` (`rc.1` in `1.0.0-rc.1+build.5`): what
/// follows the `-` that ends its core, up to any build metadata.
pub open spec fn prerelease_of(v: Seq<char>) -> Seq<char> {
    let rest = v.skip(core_len(v) + 1);
    rest.take(first_index_of(rest, '+'))
}

/// Of two versions with the same numbers, `latest` ranks higher than
/// `current`: it is a release and `current` a pre-release, or both are
/// pre-releases and the identifiers of `current` rank below those of
/// `latest`.
pub open spec fn prerelease_gt(latest: Seq<char>, current: Seq<char>) -> bool {
    if !has_prerelease(latest) {
        has_prerelease(current)
    } else if !has_prerelease(current) {
        false
    } else {
        keys_lt(prerelease_keys(prerelease_of(current)), prerelease_keys(prerelease_of(latest)))
    }
}

/// `latest` is a higher version than `current`: its numbers are higher, or
/// they are the same and its pre-release suffix ranks higher (a release
/// ranks above its pre-releases). Build metadata plays no part.
pub open spec fn is_newer_spec(latest: Seq<char>, current: Seq<char>) -> bool {
    triple_gt(version_triple(latest), version_triple(current)) || (version_triple(latest)
        == version_triple(current) && prerelease_gt(latest, current))
}

proof fn lemma_parse_rejects_non_digit(s: Seq<char>, k: int)
    requires
        0 <= k < unsigned_digits(s).len(),
        !is_digit(unsigned_digits(s)[k]),
    ensures
        parse_u32_spec(s) is None,
{
}

proof fn lemma_digits_value_prefix(ds: Seq<char>, i: int)
    requires
        0 <= i <= ds.len(),
    ensures
        digits_value(ds.take(i)) <= digits_value(ds),
    decreases ds.len() - i,
{
    if i < ds.len() {
        lemma_digits_value_prefix(ds, i + 1);
        assert(ds.take(i + 1).drop_last() =~= ds.take(i));
    } else {
        assert(ds.take(i) =~= ds);
    }
}

/// What `str::parse::<u32>` gives for the characters `cs[from..to]`.
fn parse_u32(cs: &Vec<char>, from: usize, to: usize) -> (r: Option<u32>)
    requires
        from <= to <= cs.len(),
    ensures
        r == parse_u32_spec(cs@.subrange(from as int, to as int)),
{
    let ghost s = cs@.subrange(from as int, to as int);
    let mut start = from;
    if from < to && cs[from] == '+' {
        start = from + 1;
    }
    let ghost ds = cs@.subrange(start as int, to as int);
    proof {
        if s.len() > 0 && s[0] == '+' {
            assert(ds =~= s.skip(1));
        } else {
            assert(ds =~= s);
        }
    }
    if start == to {
        return None;
    }
    let mut value: u64 = 0;
    let mut i = start;
    while i < to
        invariant
            from <= start <= i <= to <= cs.len(),
            ds == cs@.subrange(start as int, to as int),
            s == cs@.subrange(from as int, to as int),
            ds == unsigned_digits(s),
            value == digits_value(ds.take(i - start)),
            value <= u32::MAX,
            forall|j: int| 0 <= j < i - start ==> #[trigger] is_digit(ds[j]),
        decreases to - i,
    {
        let c = cs[i];
        assert(ds[i - start] == c);
        if !('0' <= c && c <= '9') {
            assert(!is_digit(ds[i - start]));
            proof {
                lemma_parse_rejects_non_digit(s, (i - start) as int);
            }
            return None;
        }
        let d = (c as u32 - 48) as u64;
        assert(ds.take(i + 1 - start).drop_last() =~= ds.take(i - start));
        assert(ds.take(i + 1 - start).last() == c);
        value = value * 10 + d;
        assert(value == digits_value(ds.take(i + 1 - start)));
        if value > 4294967295 {
            proof {
                lemma_digits_value_prefix(ds, i + 1 - start);
            }
            assert(digits_value(ds) > u32::MAX);
            assert(parse_u32_spec(s) is None);
            return None;
        }
        i += 1;
    }
    assert(ds.take(to - start) =~= ds);
    Some(value as u32)
}

proof fn lemma_core_len_settled(s: Seq<char>, k: int)
    requires
        0 <= k <= s.len(),
        core_len(s.take(k)) < k,
    ensures
        core_len(s) == core_len(s.take(k)),
    decreases s.len() - k,
{
    if k < s.len() {
        assert(s.take(k + 1).drop_last() =~= s.take(k));
        lemma_core_len_settled(s, k + 1);
    } else {
        assert(s.take(k) =~= s);
    }
}

/// The length of the numeric core of `cs`.
fn core_length(cs: &Vec<char>) -> (n: usize)
    ensures
        n == core_len(cs@),
{
    let mut i: usize = 0;
    assert(cs@.take(0) =~= Seq::<char>::empty());
    while i < cs.len() && !(cs[i] == '-' || (cs[i] == '+' && i > 0 && cs[i - 1] != '.'))
        invariant
            i <= cs.len(),
            core_len(cs@.take(i as int)) == i,
        decreases cs.len() - i,
    {
        assert(cs@.take(i + 1).drop_last() =~= cs@.take(i as int));
        assert(ends_core_at(cs@.take(i + 1), i as int) == ends_core_at(cs@, i as int));
        i += 1;
    }
    if i < cs.len() {
        assert(cs@.take(i + 1).drop_last() =~= cs@.take(i as int));
        assert(ends_core_at(cs@.take(i + 1), i as int) == ends_core_at(cs@, i as int));
        assert(core_len(cs@.take(i + 1)) == i);
        proof {
            lemma_core_len_settled(cs@, i + 1);
        }
    } else {
        assert(cs@.take(i as int) =~= cs@);
    }
    i
}

/// The major, minor and patch numbers of the version string `v`.
pub fn parse_version(v: &str) -> (r: (u32, u32, u32))
    ensures
        r == version_triple(v@),
{
    let cs = chars_of(v);
    let cut = core_length(&cs);
    let mut nums: Vec<u32> = Vec::new();
    let mut piece_start: usize = 0;
    let mut i: usize = 0;
    proof {
        assert(cs@.take(0) =~= Seq::<char>::empty());
        assert(cs@.subrange(0, 0) =~= Seq::<char>::empty());
        let e = split_on(Seq::<char>::empty(), '.');
        assert(e.drop_last().push(Seq::<char>::empty()) =~= e);
    }
    while i < cut
        invariant
            cs@ == v@,
            cut == core_len(v@),
            cut <= cs.len(),
            piece_start <= i <= cut,
            split_on(cs@.take(i as int), '.') == split_on(cs@.take(piece_start as int), '.').drop_last().push(
                cs@.subrange(piece_start as int, i as int),
            ),
            split_on(cs@.take(piece_start as int), '.').last() == Seq::<char>::empty(),
            nums@ == parsed_numbers(split_on(cs@.take(piece_start as int), '.').drop_last()),
        decreases cut - i,
    {
        let ghost before = split_on(cs@.take(i as int), '.');
        proof {
            lemma_split_nonempty(cs@.take(i as int), '.');
            assert(cs@.take(i + 1).drop_last() =~= cs@.take(i as int));
            assert(cs@.take(i + 1).last() == cs@[i as int]);
        }
        if cs[i] == '.' {
            let ghost prev = split_on(cs@.take(piece_start as int), '.');
            match parse_u32(&cs, piece_start, i) {
                Some(n) => {
                    nums.push(n);
                },
                None => {},
            }
            proof {
                lemma_split_nonempty(cs@.take(piece_start as int), '.');
                let ps = before;
                assert(ps.drop_last() =~= prev.drop_last());
                assert(ps.last() == cs@.subrange(piece_start as int, i as int));
                assert(split_on(cs@.take(i + 1), '.') == ps.push(seq![]));
                assert(split_on(cs@.take(i + 1), '.').drop_last() =~= ps);
                assert(cs@.subrange(i + 1, i + 1) =~= Seq::<char>::empty());
                assert(split_on(cs@.take(i + 1), '.') =~= split_on(cs@.take(i + 1), '.').drop_last().push(
                    cs@.subrange(i + 1, i + 1),
                ));
            }
            piece_start = i + 1;
        } else {
            proof {
                lemma_split_nonempty(cs@.take(piece_start as int), '.');
                assert(cs@.subrange(piece_start as int, i + 1) =~= cs@.subrange(piece_start as int, i as int).push(
                    cs@[i as int],
                ));
                assert(split_on(cs@.take(i + 1), '.') =~= split_on(cs@.take(piece_start as int), '.').drop_last().push(
                    cs@.subrange(piece_start as int, i + 1),
                ));
            }
        }
        i += 1;
    }
    let ghost prev = split_on(cs@.take(piece_start as int), '.');
    match parse_u32(&cs, piece_start, cut) {
        Some(n) => {
            nums.push(n);
        },
        None => {},
    }
    proof {
        lemma_split_nonempty(cs@.take(piece_start as int), '.');
        assert(cs@.take(cut as int) =~= version_core(v@));
        let ps = split_on(version_core(v@), '.');
        lemma_split_nonempty(version_core(v@), '.');
        assert(ps.drop_last() =~= prev.drop_last());
        assert(ps.last() == cs@.subrange(piece_start as int, cut as int));
    }
    let major = if nums.len() > 0 { nums[0] } else { 0 };
    let minor = if nums.len() > 1 { nums[1] } else { 0 };
    let patch = if nums.len() > 2 { nums[2] } else { 0 };
    (major, minor, patch)
}

proof fn lemma_split_nonempty(s: Seq<char>, c: char)
    ensures
        split_on(s, c).len() >= 1,
    decreases s.len(),
{
    if s.len() > 0 {
        lemma_split_nonempty(s.drop_last(), c);
    }
}

proof fn lemma_first_index_settled(s: Seq<char>, c: char, k: int)
    requires
        0 <= k <= s.len(),
        first_index_of(s.take(k), c) < k,
    ensures
        first_index_of(s, c) == first_index_of(s.take(k), c),
    decreases s.len() - k,
{
    if k < s.len() {
        assert(s.take(k + 1).drop_last() =~= s.take(k));
        lemma_first_index_settled(s, c, k + 1);
    } else {
        assert(s.take(k) =~= s);
    }
}

/// Where in `cs` the pre-release suffix lies, given that its core ends at
/// `cut` with a `-`.
fn prerelease_bounds(cs: &Vec<char>, cut: usize) -> (r: (usize, usize))
    requires
        cut == core_len(cs@),
        cut < cs.len(),
        cs@[cut as int] == '-',
    ensures
        r.0 <= r.1 <= cs.len(),
        cs@.subrange(r.0 as int, r.1 as int) == prerelease_of(cs@),
{
    let ghost rest = cs@.skip(cut + 1);
    let start = cut + 1;
    let mut i = start;
    assert(rest.take(0) =~= Seq::<char>::empty());
    while i < cs.len() && cs[i] != '+'
        invariant
            start == cut + 1,
            start <= i <= cs.len(),
            rest == cs@.skip(cut + 1),
            first_index_of(rest.take(i - start), '+') == i - start,
        decreases cs.len() - i,
    {
        assert(rest.take(i + 1 - start).drop_last() =~= rest.take(i - start));
        assert(rest.take(i + 1 - start).last() == cs@[i as int]);
        i += 1;
    }
    if i < cs.len() {
        assert(rest.take(i + 1 - start).drop_last() =~= rest.take(i - start));
        assert(rest.take(i + 1 - start).last() == cs@[i as int]);
        proof {
            lemma_first_index_settled(rest, '+', i + 1 - start);
        }
    } else {
        assert(rest.take(i - start) =~= rest);
    }
    assert(cs@.subrange(start as int, i as int) =~= rest.take(i - start));
    (start, i)
}

/// `v` carries a pre-release suffix, such as `-rc.1` in `1.0.0-rc.1`.
pub fn is_prerelease(v: &str) -> (r: bool)
    ensures
        r == has_prerelease(v@),
{
    let cs = chars_of(v);
    let cut = core_length(&cs);
    cut < cs.len() && cs[cut] == '-'
}

/// Returns true if `latest` is a higher version than `current`.
pub fn is_newer(latest: &str, current: &str) -> (r: bool)
    ensures
        r == is_newer_spec(latest@, current@),
{
    let a = parse_version(latest);
    let b = parse_version(current);
    let higher = a.0 > b.0 || (a.0 == b.0 && (a.1 > b.1 || (a.1 == b.1 && a.2 > b.2)));
    let same = a.0 == b.0 && a.1 == b.1 && a.2 == b.2;
    if higher {
        return true;
    }
    if !same {
        return false;
    }
    let lc = chars_of(latest);
    let cc = chars_of(current);
    let lcut = core_length(&lc);
    let ccut = core_length(&cc);
    let lpre = lcut < lc.len() && lc[lcut] == '-';
    let cpre = ccut < cc.len() && cc[ccut] == '-';
    if !lpre {
        return cpre;
    }
    if !cpre {
        return false;
    }
    let (ls, le) = prerelease_bounds(&lc, lcut);
    let (cs, ce) = prerelease_bounds(&cc, ccut);
    prerelease_lt(&cc, cs, ce, &lc, ls, le)
}

/// No version is newer than itself.
pub proof fn lemma_is_newer_irreflexive(v: Seq<char>)
    ensures
        !is_newer_spec(v, v),
{
    lemma_keys_lt_irreflexive(prerelease_keys(prerelease_of(v)));
}

/// Of two versions, at most one is newer than the other.
pub proof fn lemma_is_newer_asymmetric(a: Seq<char>, b: Seq<char>)
    ensures
        !(is_newer_spec(a, b) && is_newer_spec(b, a)),
{
    lemma_keys_lt_asymmetric(prerelease_keys(prerelease_of(a)), prerelease_keys(prerelease_of(b)));
}

/// A version newer than one that is newer than a third is newer than the
/// third.
pub proof fn lemma_is_newer_transitive(a: Seq<char>, b: Seq<char>, c: Seq<char>)
    requires
        is_newer_spec(a, b),
        is_newer_spec(b, c),
    ensures
        is_newer_spec(a, c),
{
    let ka = prerelease_keys(prerelease_of(a));
    let kb = prerelease_keys(prerelease_of(b));
    let kc = prerelease_keys(prerelease_of(c));
    if version_triple(a) == version_triple(b) && version_triple(b) == version_triple(c) && has_prerelease(a)
        && has_prerelease(b) && has_prerelease(c) {
        lemma_keys_lt_transitive(kc, kb, ka);
    }
}

/// Two versions whose numbers differ, or that differ in whether they are
/// a pre-release, are ordered one way or the other.
pub proof fn lemma_is_newer_total(a: Seq<char>, b: Seq<char>)
    requires
        version_triple(a) != version_triple(b) || has_prerelease(a) != has_prerelease(b),
    ensures
        is_newer_spec(a, b) || is_newer_spec(b, a),
{
}

// ---------------------------------------------------------------------
// Release tags

/// `s` without its leading `v` characters.
pub open spec fn strip_leading_v(s: Seq<char>) -> Seq<char>
    decreases s.len(),
{
    if s.len() > 0 && s[0] == 'v' {
        strip_leading_v(s.skip(1))
    } else {
        s
    }
}

/// `tag` without its leading `v` characters (tags are typically `v0.2.3`).
pub fn trim_leading_v(tag: &str) -> (r: String)
    ensures
        r@ == strip_leading_v(tag@),
{
    let cs = chars_of(tag);
    let mut i: usize = 0;
    assert(cs@.skip(0) =~= cs@);
    while i < cs.len() && cs[i] == 'v'
        invariant
            i <= cs.len(),
            cs@ == tag@,
            strip_leading_v(cs@.skip(i as int)) == strip_leading_v(tag@),
        decreases cs.len() - i,
    {
        assert(cs@.skip(i as int).skip(1) =~= cs@.skip(i + 1));
        i += 1;
    }
    assert(cs@.subrange(i as int, cs.len() as int) =~= cs@.skip(i as int));
    string_from_chars(&cs, i, cs.len())
}

/// The string held by the field `key` of the JSON object that `body`
/// holds, if `body` is such JSON and the field holds a string.
pub uninterp spec fn json_string_field(body: Seq<char>, key: Seq<char>) -> Option<Seq<char>>;

/// Calls `serde_json::from_str` for a `serde_json::Value`, then
/// `Value::get` with `key` and `Value::as_str`. Claimed: the result is
/// `json_string_field(body, key)`, a function of the two arguments alone.
#[verifier::external_body]
fn json_field_as_str(body: &str, key: &str) -> (r: Option<String>)
    ensures
        match r {
            Some(t) => json_string_field(body@, key@) == Some(t@),
            None => json_string_field(body@, key@) is None,
        },
{
    match serde_json::from_str::<serde_json::Value>(body) {
        Ok(v) => v.get(key).and_then(|f| f.as_str()).map(|t| t.to_string()),
        Err(_) => None,
    }
}

/// The outcome of a check whose release carried `tag` (none when the
/// release could not be read): an update when the tag, without its leading
/// `v`, names a newer version than `current`.
pub open spec fn status_for_tag_spec(tag: Option<Seq<char>>, current: Seq<char>, r: UpdateStatus) -> bool {
    match tag {
        None => r is Failed,
        Some(t) => if is_newer_spec(strip_leading_v(t), current) {
            r matches UpdateStatus::UpdateAvailable(v) && v@ == strip_leading_v(t)
        } else {
            r is UpToDate
        },
    }
}

/// Decides the outcome of a check from the release's tag, if one was read.
pub fn status_for_tag(tag: Option<&str>, current: &str) -> (r: UpdateStatus)
    ensures
        status_for_tag_spec(
            match tag {
                Some(t) => Some(t@),
                None => None,
            },
            current@,
            r,
        ),
{
    match tag {
        None => UpdateStatus::Failed,
        Some(t) => {
            let latest = trim_leading_v(t);
            if is_newer(latest.as_str(), current) {
                UpdateStatus::UpdateAvailable(latest)
            } else {
                UpdateStatus::UpToDate
            }
        },
    }
}

/// The outcome of a check whose request for the latest release answered
/// with `body`, against the version of this build.
pub fn status_from_release(body: &str) -> (r: UpdateStatus)
    ensures
        status_for_tag_spec(json_string_field(body@, "tag_name"@), CURRENT_VERSION@, r),
{
    let tag = json_field_as_str(body, "tag_name");
    match &tag {
        Some(t) => status_for_tag(Some(t.as_str()), CURRENT_VERSION),
        None => status_for_tag(None, CURRENT_VERSION),
    }
}

/// Where the build of `version` is downloaded from.
pub fn download_url(version: &str) -> (r: String)
    ensures
        r@ == "https://github.com/falconshark/rust-writer/releases/download/v"@ + version@ + "/rustwriter"@,
{
    let mut r = String::from_str("https://github.com/falconshark/rust-writer/releases/download/v");
    push_str_chars(&mut r, version);
    push_str_chars(&mut r, "/rustwriter");
    r
}

// ---------------------------------------------------------------------
// The channel from the checking thread

#[verifier::external_type_specification]
#[verifier::external_body]
#[verifier::reject_recursive_types(T)]
pub struct ExReceiver<T>(std::sync::mpsc::Receiver<T>);

/// Calls `std::sync::mpsc::Receiver::try_recv`. Nothing is claimed of the
/// result: whether the checking thread has answered yet depends on timing.
#[verifier::external_body]
fn try_receive(rx: &std::sync::mpsc::Receiver<UpdateStatus>) -> Option<UpdateStatus> {
    rx.try_recv().ok()
}

/// Receives the outcome of an update check running on another thread.
pub struct UpdateChecker {
    receiver: std::sync::mpsc::Receiver<UpdateStatus>,
}

impl UpdateChecker {
    /// The channel on which the outcome arrives.
    pub closed spec fn channel(&self) -> std::sync::mpsc::Receiver<UpdateStatus> {
        self.receiver
    }

    /// A checker that waits for the outcome sent on `receiver`.
    pub fn new(receiver: std::sync::mpsc::Receiver<UpdateStatus>) -> (c: Self)
        ensures
            c.channel() == receiver,
    {
        UpdateChecker { receiver }
    }

    /// Returns Some if the check has completed, None if still in progress.
    pub fn poll(&self) -> Option<UpdateStatus> {
        try_receive(&self.receiver)
    }

    /// URL users should visit to download the new version.
    pub fn releases_url() -> (r: &'static str)
        ensures
            r@ == GITHUB_RELEASES_URL@,
    {
        GITHUB_RELEASES_URL
    }
}

} // verus!
