//! The "update available" decision: reading the version a release manifest
//! names, and comparing two semantic versions.
use vstd::prelude::*;
use crate::changelog::opt_view;
use crate::text::{
    chars_of, find, find_from, is_ws, lemma_find_from, lemma_skip_char_from,
    lemma_drop_ws_before, skip_char, skip_char_from, skip_ws_from, drop_ws_before, string_of,
    sub_chars, trim, trim_chars, trim_end, trim_start, trim_start_char,
};

verus! {

// ───────────────────────── versions ─────────────────────────

/// The value of a run of decimal digits.
pub open spec fn decimal(d: Seq<char>) -> nat
    decreases d.len(),
{
    if d.len() == 0 {
        0
    } else {
        decimal(d.drop_last()) * 10 + ((d.last() as u32) - ('0' as u32)) as nat
    }
}

/// The first index at or after `i` that is not an ASCII digit.
pub open spec fn digits_end(s: Seq<char>, i: int) -> int
    decreases s.len() - i,
{
    if 0 <= i < s.len() && '0' <= s[i] <= '9' {
        digits_end(s, i + 1)
    } else {
        i
    }
}

/// A version component: its leading ASCII digits read as a `u32`; no digits,
/// or a number past `u32::MAX`, reads as 0.
pub open spec fn component_value(part: Seq<char>) -> u32 {
    let n = decimal(part.take(digits_end(part, 0)));
    if n <= u32::MAX {
        n as u32
    } else {
        0
    }
}

/// The end of the `.`-separated piece that starts at `start`.
pub open spec fn piece_end(s: Seq<char>, start: int) -> int {
    match find_from(s, start, '.') {
        Some(d) => d,
        None => s.len() as int,
    }
}

/// The `k`-th `.`-separated piece of `s[start..]`, if there is one.
pub open spec fn piece(s: Seq<char>, start: int, k: nat) -> Option<Seq<char>>
    decreases k,
{
    if k == 0 {
        Some(s.subrange(start, piece_end(s, start)))
    } else {
        match find_from(s, start, '.') {
            Some(d) => piece(s, d + 1, (k - 1) as nat),
            None => None,
        }
    }
}

/// The value of the `k`-th component of `s`, 0 when it is missing.
pub open spec fn component(s: Seq<char>, k: nat) -> u32 {
    match piece(s, 0, k) {
        Some(p) => component_value(p),
        None => 0,
    }
}

/// `s` without surrounding whitespace and without its leading `v`s.
pub open spec fn version_core(s: Seq<char>) -> Seq<char> {
    trim_start_char(trim(s), 'v')
}

/// The `(major, minor, patch)` triple that `s` names.
pub open spec fn semver_spec(s: Seq<char>) -> (u32, u32, u32) {
    let c = version_core(s);
    (component(c, 0), component(c, 1), component(c, 2))
}

/// Lexicographic order on triples.
pub open spec fn triple_gt(a: (u32, u32, u32), b: (u32, u32, u32)) -> bool {
    ||| a.0 > b.0
    ||| a.0 == b.0 && a.1 > b.1
    ||| a.0 == b.0 && a.1 == b.1 && a.2 > b.2
}

/// `latest` names a strictly higher version than `current`.
pub open spec fn is_newer_spec(latest: Seq<char>, current: Seq<char>) -> bool {
    triple_gt(semver_spec(latest), semver_spec(current))
}

pub proof fn lemma_digits_end(s: Seq<char>, i: int)
    requires
        0 <= i <= s.len(),
    ensures
        i <= digits_end(s, i) <= s.len(),
        forall|k: int| i <= k < digits_end(s, i) ==> '0' <= #[trigger] s[k] <= '9',
    decreases s.len() - i,
{
    if i < s.len() && '0' <= s[i] <= '9' {
        lemma_digits_end(s, i + 1);
    }
}

proof fn lemma_decimal_grows(d: Seq<char>, i: int)
    requires
        0 <= i < d.len(),
        forall|k: int| 0 <= k < d.len() ==> '0' <= #[trigger] d[k] <= '9',
    ensures
        decimal(d.take(i + 1)) == decimal(d.take(i)) * 10 + ((d[i] as u32) - ('0' as u32)) as nat,
        decimal(d.take(i + 1)) >= decimal(d.take(i)),
{
    assert(d.take(i + 1).drop_last() =~= d.take(i));
}

/// The value of the component held in `cs[lo..hi]`.
fn component_of(cs: &Vec<char>, lo: usize, hi: usize) -> (r: u32)
    requires
        lo <= hi <= cs@.len(),
    ensures
        r == component_value(cs@.subrange(lo as int, hi as int)),
{
    let part = sub_chars(cs, lo, hi);
    let mut i: usize = 0;
    let mut acc: u64 = 0;
    let mut over = false;
    proof {
        lemma_digits_end(part@, 0);
    }
    let ghost e = digits_end(part@, 0);
    let ghost d = part@.take(e);
    assert(d.take(0) =~= Seq::<char>::empty());
    while i < part.len() && '0' <= part[i] && part[i] <= '9'
        invariant
            i <= e <= part@.len(),
            digits_end(part@, i as int) == e,
            d == part@.take(e),
            forall|k: int| 0 <= k < d.len() ==> '0' <= #[trigger] d[k] <= '9',
            over ==> decimal(d.take(i as int)) > u32::MAX,
            !over ==> acc == decimal(d.take(i as int)) && acc <= u32::MAX,
        decreases part@.len() - i,
    {
        proof {
            lemma_digits_end(part@, i + 1);
            lemma_decimal_grows(d, i as int);
        }
        if !over {
            let digit = (part[i] as u32 - '0' as u32) as u64;
            acc = acc * 10 + digit;
            if acc > 0xFFFF_FFFF {
                over = true;
            }
        }
        i = i + 1;
    }
    assert(d.take(e) =~= d);
    if over {
        0
    } else {
        acc as u32
    }
}

/// The `(major, minor, patch)` triple of a version string. An optional leading
/// `v` is accepted, and anything after a component's leading digits (a
/// pre-release or build suffix) is ignored.
pub fn semver(s: &str) -> (r: (u32, u32, u32))
    ensures
        r == semver_spec(s@),
{
    let raw = chars_of(s);
    let t = trim_chars(&raw);
    let k = skip_char(&t, 0, 'v');
    let c = sub_chars(&t, k, t.len());
    assert(c@ == version_core(s@));
    let clen = c.len();
    let mut vals: Vec<u32> = Vec::new();
    let mut start: Option<usize> = Some(0);
    let mut n: usize = 0;
    while n < 3
        invariant
            n <= 3,
            clen == c@.len(),
            vals@.len() == n,
            forall|j: int| 0 <= j < n ==> #[trigger] vals@[j] == component(c@, j as nat),
            start matches Some(st) ==> st <= c@.len() && forall|m: nat|
                #[trigger] piece(c@, st as int, m) == piece(c@, 0, (n + m) as nat),
            start is None ==> forall|m: nat| (#[trigger] piece(c@, 0, (n + m) as nat)) is None,
        decreases 3 - n,
    {
        match start {
            Some(st) => {
                let dot = find(&c, st, '.');
                proof {
                    lemma_find_from(c@, st as int, '.');
                }
                let end = match dot {
                    Some(d) => d,
                    None => c.len(),
                };
                let v = component_of(&c, st, end);
                proof {
                    assert(piece(c@, st as int, 0) == piece(c@, 0, n as nat));
                }
                vals.push(v);
                match dot {
                    Some(d) => {
                        assert(find_from(c@, st as int, '.') == Some(d as int));
                        assert(d < clen);
                        assert forall|m: nat| #[trigger] piece(c@, d + 1, m) == piece(c@, 0, (n + 1 + m) as nat) by {
                            assert(piece(c@, st as int, (m + 1) as nat) == piece(c@, 0, (n + m + 1) as nat));
                        }
                        start = Some(d + 1);
                    },
                    None => {
                        assert forall|m: nat| (#[trigger] piece(c@, 0, (n + 1 + m) as nat)) is None by {
                            assert(piece(c@, st as int, (m + 1) as nat) == piece(c@, 0, (n + m + 1) as nat));
                        }
                        start = None;
                    },
                }
            },
            None => {
                proof {
                    assert(piece(c@, 0, (n + 0) as nat) is None);
                    assert forall|m: nat| (#[trigger] piece(c@, 0, (n + 1 + m) as nat)) is None by {
                        assert(piece(c@, 0, (n + (m + 1)) as nat) is None);
                    }
                }
                vals.push(0);
            },
        }
        n = n + 1;
    }
    (vals[0], vals[1], vals[2])
}

/// True when `latest` is a strictly higher semver than `current`. Both accept
/// an optional leading `v`; any pre-release/build suffix on a component is
/// ignored.
pub fn is_newer(latest: &str, current: &str) -> (r: bool)
    ensures
        r == is_newer_spec(latest@, current@),
{
    let a = semver(latest);
    let b = semver(current);
    a.0 > b.0 || (a.0 == b.0 && a.1 > b.1) || (a.0 == b.0 && a.1 == b.1 && a.2 > b.2)
}

// ───────────────────────── the manifest ─────────────────────────

/// The string held by member `key` of the JSON object `body`, as
/// `serde_json` reads it.
pub uninterp spec fn json_str_member(body: Seq<char>, key: Seq<char>) -> Option<Seq<char>>;

/// Parses `body` with `serde_json::from_str` into a `serde_json::Value`, then
/// reads member `key` with `Value::get` and `Value::as_str`. The contract
/// names the result `json_str_member` of the body and the key and claims
/// nothing more: which texts are JSON, and what their members hold, is left to
/// `serde_json`. Malformed JSON, a missing member and a member that is not a
/// string all give `None`.
#[verifier::external_body]
fn json_string_member(body: &str, key: &str) -> (r: Option<String>)
    ensures
        opt_view(r) == json_str_member(body@, key@),
{
    let value: serde_json::Value = match serde_json::from_str(body) {
        Ok(value) => value,
        Err(_) => return None,
    };
    match value.get(key) {
        Some(member) => match member.as_str() {
            Some(text) => Some(text.to_string()),
            None => None,
        },
        None => None,
    }
}

/// The version that a manifest's `"version"` member names: surrounding
/// whitespace and leading `v`s removed.
pub open spec fn manifest_version(member: Option<Seq<char>>) -> Option<Seq<char>> {
    match member {
        Some(s) => Some(trim_start_char(trim(s), 'v')),
        None => None,
    }
}

/// The release version named by the manifest's `"version"` member, once read.
pub fn version_from_member(member: Option<String>) -> (r: Option<String>)
    ensures
        opt_view(r) == manifest_version(opt_view(member)),
{
    match member {
        Some(s) => {
            let cs = chars_of(s.as_str());
            let t = trim_chars(&cs);
            let k = skip_char(&t, 0, 'v');
            let core = sub_chars(&t, k, t.len());
            Some(string_of(&core))
        },
        None => None,
    }
}

/// Pulls the `"version"` string out of the manifest JSON (leading `v`
/// trimmed). Anything that is not a JSON object with a string member
/// `"version"` gives `None`.
pub fn parse_version(body: &str) -> (r: Option<String>)
    ensures
        opt_view(r) == manifest_version(json_str_member(body@, "version"@)),
{
    let member = json_string_member(body, "version");
    version_from_member(member)
}

// ───────────────────────── laws ─────────────────────────

/// Law: a version is never newer than itself.
pub proof fn law_is_newer_irreflexive(a: Seq<char>)
    ensures
        !is_newer_spec(a, a),
{
}

/// Law: of two versions, at most one is newer than the other.
pub proof fn law_is_newer_asymmetric(a: Seq<char>, b: Seq<char>)
    ensures
        is_newer_spec(a, b) ==> !is_newer_spec(b, a),
{
}

/// Law: "newer" is transitive.
pub proof fn law_is_newer_transitive(a: Seq<char>, b: Seq<char>, c: Seq<char>)
    ensures
        is_newer_spec(a, b) && is_newer_spec(b, c) ==> is_newer_spec(a, c),
{
}

/// Law: two versions that read as the same triple compare alike against
/// any third.
pub proof fn law_is_newer_by_triple(a: Seq<char>, b: Seq<char>, c: Seq<char>)
    requires
        semver_spec(a) == semver_spec(b),
    ensures
        is_newer_spec(a, c) == is_newer_spec(b, c),
        is_newer_spec(c, a) == is_newer_spec(c, b),
{
}


proof fn lemma_drop_ws_prefixed(x: Seq<char>, a: Seq<char>, j: int)
    requires
        x.len() == a.len() + 1,
        !is_ws(x[0]),
        forall|k: int| 0 <= k < a.len() ==> x[k + 1] == a[k],
        0 <= j <= a.len(),
    ensures
        drop_ws_before(x, j + 1) == drop_ws_before(a, j) + 1,
    decreases j,
{
    if j > 0 {
        assert(x[j] == a[j - 1]);
        lemma_drop_ws_prefixed(x, a, j - 1);
    }
}

proof fn lemma_skip_char_prefixed(x: Seq<char>, t: Seq<char>, i: int, c: char)
    requires
        x.len() == t.len() + 1,
        forall|k: int| 0 <= k < t.len() ==> x[k + 1] == t[k],
        0 <= i <= t.len(),
    ensures
        skip_char_from(x, i + 1, c) == skip_char_from(t, i, c) + 1,
    decreases t.len() - i,
{
    if i < t.len() {
        assert(x[i + 1] == t[i]);
        lemma_skip_char_prefixed(x, t, i + 1, c);
    }
}

/// Law: an optional leading `v` names the same version, for a version text
/// that does not itself start with whitespace.
pub proof fn law_leading_v_is_optional(a: Seq<char>)
    requires
        a.len() == 0 || !is_ws(a[0]),
    ensures
        semver_spec(seq!['v'] + a) == semver_spec(a),
{
    let x = seq!['v'] + a;
    assert(!is_ws('v'));
    assert(skip_ws_from(x, 0) == 0);
    assert(skip_ws_from(a, 0) == 0);
    assert(trim_start(x) =~= x);
    assert(trim_start(a) =~= a);
    lemma_drop_ws_prefixed(x, a, a.len() as int);
    let b = drop_ws_before(a, a.len() as int);
    lemma_drop_ws_before(a, a.len() as int);
    let ta = a.take(b);
    assert(trim(a) == ta);
    assert(trim(x) =~= seq!['v'] + ta);
    let y = seq!['v'] + ta;
    lemma_skip_char_prefixed(y, ta, 0, 'v');
    lemma_skip_char_from(ta, 0, 'v');
    assert(skip_char_from(y, 0, 'v') == skip_char_from(y, 1, 'v'));
    assert(version_core(seq!['v'] + a) =~= version_core(a));
}

/// `s` holds no whitespace.
pub open spec fn no_ws(s: Seq<char>) -> bool {
    forall|k: int| 0 <= k < s.len() ==> !is_ws(#[trigger] s[k])
}

proof fn lemma_trim_no_ws(s: Seq<char>)
    requires
        no_ws(s),
    ensures
        trim(s) == s,
{
    assert(skip_ws_from(s, 0) == 0);
    assert(trim_start(s) =~= s);
    if s.len() > 0 {
        assert(!is_ws(s[s.len() - 1]));
    }
    assert(drop_ws_before(s, s.len() as int) == s.len());
    assert(trim_end(s) =~= s);
}

proof fn lemma_skip_char_append(s: Seq<char>, t: Seq<char>, i: int, c: char)
    requires
        0 <= i <= s.len(),
        t.len() > 0 ==> t[0] != c,
    ensures
        skip_char_from(s + t, i, c) == skip_char_from(s, i, c),
    decreases s.len() - i,
{
    if i < s.len() {
        assert((s + t)[i] == s[i]);
        lemma_skip_char_append(s, t, i + 1, c);
    } else if t.len() > 0 {
        assert((s + t)[i] == t[0]);
    }
}

proof fn lemma_digits_end_append(p: Seq<char>, t: Seq<char>, i: int)
    requires
        0 <= i <= p.len(),
        t.len() > 0 ==> !('0' <= t[0] <= '9'),
    ensures
        digits_end(p + t, i) == digits_end(p, i),
    decreases p.len() - i,
{
    if i < p.len() {
        assert((p + t)[i] == p[i]);
        lemma_digits_end_append(p, t, i + 1);
    } else if t.len() > 0 {
        assert((p + t)[i] == t[0]);
    }
}

proof fn lemma_component_value_append(p: Seq<char>, t: Seq<char>)
    requires
        t.len() > 0 ==> !('0' <= t[0] <= '9'),
    ensures
        component_value(p + t) == component_value(p),
{
    lemma_digits_end_append(p, t, 0);
    lemma_digits_end(p, 0);
    assert((p + t).take(digits_end(p, 0)) =~= p.take(digits_end(p, 0)));
}

proof fn lemma_find_append(c: Seq<char>, t: Seq<char>, i: int, ch: char)
    requires
        0 <= i <= c.len(),
        forall|k: int| 0 <= k < t.len() ==> t[k] != ch,
    ensures
        find_from(c + t, i, ch) == find_from(c, i, ch),
    decreases (c + t).len() - i,
{
    if i < c.len() {
        assert((c + t)[i] == c[i]);
        lemma_find_append(c, t, i + 1, ch);
    } else {
        lemma_find_from(c + t, i, ch);
        if let Some(k) = find_from(c + t, i, ch) {
            assert((c + t)[k] == t[k - c.len()]);
        }
    }
}

proof fn lemma_piece_append(c: Seq<char>, t: Seq<char>, st: int, k: nat)
    requires
        0 <= st <= c.len(),
        forall|m: int| 0 <= m < t.len() ==> t[m] != '.',
        t.len() > 0 ==> !('0' <= t[0] <= '9'),
    ensures
        piece(c + t, st, k) is None <==> piece(c, st, k) is None,
        piece(c + t, st, k) matches Some(q) ==> component_value(q) == component_value(
            piece(c, st, k)->0,
        ),
    decreases k,
{
    lemma_find_append(c, t, st, '.');
    lemma_find_from(c, st, '.');
    if k == 0 {
        match find_from(c, st, '.') {
            Some(d) => {
                assert((c + t).subrange(st, d) =~= c.subrange(st, d));
            },
            None => {
                assert((c + t).subrange(st, (c + t).len() as int) =~= c.subrange(st, c.len() as int)
                    + t);
                lemma_component_value_append(c.subrange(st, c.len() as int), t);
            },
        }
    } else {
        if let Some(d) = find_from(c, st, '.') {
            lemma_piece_append(c, t, d + 1, (k - 1) as nat);
        }
    }
}

/// Law: a pre-release or build suffix on the last component does not change
/// the version read: for texts without whitespace, a suffix without `.` that
/// starts with neither a digit nor `v` is ignored.
pub proof fn law_suffix_is_ignored(s: Seq<char>, t: Seq<char>)
    requires
        no_ws(s),
        no_ws(t),
        forall|m: int| 0 <= m < t.len() ==> t[m] != '.',
        t.len() > 0 ==> !('0' <= t[0] <= '9') && t[0] != 'v',
    ensures
        semver_spec(s + t) == semver_spec(s),
{
    assert(no_ws(s + t)) by {
        assert forall|k: int| 0 <= k < (s + t).len() implies !is_ws(#[trigger] (s + t)[k]) by {
            if k < s.len() {
                assert((s + t)[k] == s[k]);
            } else {
                assert((s + t)[k] == t[k - s.len()]);
            }
        }
    }
    lemma_trim_no_ws(s);
    lemma_trim_no_ws(s + t);
    lemma_skip_char_append(s, t, 0, 'v');
    lemma_skip_char_from(s, 0, 'v');
    let k = skip_char_from(s, 0, 'v');
    let c = s.skip(k);
    assert(version_core(s + t) =~= c + t);
    assert(version_core(s) =~= c);
    lemma_piece_append(c, t, 0, 0);
    lemma_piece_append(c, t, 0, 1);
    lemma_piece_append(c, t, 0, 2);
}

} // verus!
