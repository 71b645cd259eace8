//! Which model family an agent runs, the context window it has, and which
//! user price override applies to it. The prices themselves, and the cost and
//! fraction computed from them, are floating point and stay with the caller.
use vstd::prelude::*;
use crate::text::{chars_of, contains, contains_chars, lowercase, to_lowercase};

verus! {

/// The priced model families.
#[derive(Debug, Clone, Copy, PartialEq, Eq)]
pub enum ModelFamily {
    Opus,
    Sonnet,
    Haiku,
    /// `gpt-4o`, `gpt-4.1` and `gpt-5`.
    Gpt,
    /// `o1` and `o3`.
    Reasoning,
}

/// Whether the lower-cased text `m` contains `pat`.
fn has(m: &Vec<char>, pat: &str) -> (r: bool)
    ensures
        r == contains(m@, pat@),
{
    let p = chars_of(pat);
    contains_chars(m, &p)
}

/// The family a model id names (a substring match on the lower-cased id), or
/// `None` for an unknown, unpriced model.
pub open spec fn family_spec(model: Seq<char>) -> Option<ModelFamily> {
    let m = lowercase(model);
    if contains(m, "opus"@) {
        Some(ModelFamily::Opus)
    } else if contains(m, "sonnet"@) {
        Some(ModelFamily::Sonnet)
    } else if contains(m, "haiku"@) {
        Some(ModelFamily::Haiku)
    } else if contains(m, "gpt-4o"@) || contains(m, "gpt-4.1"@) || contains(m, "gpt-5"@) {
        Some(ModelFamily::Gpt)
    } else if contains(m, "o1"@) || contains(m, "o3"@) {
        Some(ModelFamily::Reasoning)
    } else {
        None
    }
}

/// The priced family of `model`; `None` when its cost cannot be estimated.
pub fn model_family(model: &str) -> (r: Option<ModelFamily>)
    ensures
        r == family_spec(model@),
{
    let lower = to_lowercase(model);
    let m = chars_of(lower.as_str());
    if has(&m, "opus") {
        Some(ModelFamily::Opus)
    } else if has(&m, "sonnet") {
        Some(ModelFamily::Sonnet)
    } else if has(&m, "haiku") {
        Some(ModelFamily::Haiku)
    } else if has(&m, "gpt-4o") || has(&m, "gpt-4.1") || has(&m, "gpt-5") {
        Some(ModelFamily::Gpt)
    } else if has(&m, "o1") || has(&m, "o3") {
        Some(ModelFamily::Reasoning)
    } else {
        None
    }
}

/// The context window of `model` in tokens: 128k for GPT and `o1`/`o3`
/// models, else the 200k default.
pub open spec fn window_spec(model: Seq<char>) -> u64 {
    let m = lowercase(model);
    if contains(m, "gpt"@) || contains(m, "o1"@) || contains(m, "o3"@) {
        128_000
    } else {
        200_000
    }
}

/// The model's context window in tokens (substring match); a safe default when
/// unknown, so the context bar still shows something reasonable.
pub fn model_window(model: &str) -> (r: u64)
    ensures
        r == window_spec(model@),
{
    let lower = to_lowercase(model);
    let m = chars_of(lower.as_str());
    if has(&m, "gpt") || has(&m, "o1") || has(&m, "o3") {
        128_000
    } else {
        200_000
    }
}

/// The window a session runs in: the 200k base, unless the session
/// already holds more context than that, in which case it must be running in
/// the extended 1M window.
pub open spec fn effective_window_spec(model: Seq<char>, ctx_tokens: u64) -> u64 {
    let base = window_spec(model);
    if base == 200_000 && ctx_tokens > 200_000 {
        1_000_000
    } else {
        base
    }
}

/// The window against which a session's context fraction is measured.
pub fn effective_window(model: &str, ctx_tokens: u64) -> (r: u64)
    ensures
        r == effective_window_spec(model@, ctx_tokens),
{
    let base = model_window(model);
    if base == 200_000 && ctx_tokens > 200_000 {
        1_000_000
    } else {
        base
    }
}

/// Law: for a model with the 200k base window, a session never holds more context than the
/// window it is measured against, up to the extended 1M window.
pub proof fn law_window_holds_the_context(model: Seq<char>, ctx_tokens: u64)
    requires
        window_spec(model) == 200_000,
        ctx_tokens <= 1_000_000,
    ensures
        ctx_tokens <= effective_window_spec(model, ctx_tokens),
        effective_window_spec(model, ctx_tokens) > 0,
{
}

/// The override key `key` applies to `model`: the lower-cased id contains
/// the lower-cased key.
pub open spec fn override_matches(model: Seq<char>, key: Seq<char>) -> bool {
    contains(lowercase(model), lowercase(key))
}

/// The index of the first of `keys` that `model` matches, from index `i` on.
pub open spec fn first_override_from(model: Seq<char>, keys: Seq<Seq<char>>, i: int) -> Option<nat>
    decreases keys.len() - i,
{
    if i < 0 || i >= keys.len() {
        None
    } else if override_matches(model, keys[i]) {
        Some(i as nat)
    } else {
        first_override_from(model, keys, i + 1)
    }
}

/// The index of the first of `keys` whose lower-cased text the lower-cased
/// `model` contains; that override's prices win over the built-in table.
pub fn override_match(model: &str, keys: &Vec<String>) -> (r: Option<usize>)
    ensures
        match r {
            Some(k) => first_override_from(model@, crate::theme::strings_view(keys@), 0) == Some(k as nat),
            None => first_override_from(model@, crate::theme::strings_view(keys@), 0) is None,
        },
{
    let ghost ks = crate::theme::strings_view(keys@);
    let lower = to_lowercase(model);
    let m = chars_of(lower.as_str());
    let mut k: usize = 0;
    while k < keys.len()
        invariant
            k <= keys@.len(),
            ks == crate::theme::strings_view(keys@),
            m@ == lowercase(model@),
            first_override_from(model@, ks, k as int) == first_override_from(model@, ks, 0),
        decreases keys@.len() - k,
    {
        let key_lower = to_lowercase(keys[k].as_str());
        let p = chars_of(key_lower.as_str());
        assert(ks[k as int] == keys@[k as int]@);
        if contains_chars(&m, &p) {
            return Some(k);
        }
        k = k + 1;
    }
    None
}

/// Law: with no overrides, no override applies, so the built-in table prices
/// every model.
pub proof fn law_no_overrides_no_match(model: Seq<char>)
    ensures
        first_override_from(model, Seq::empty(), 0) is None,
{
}

/// Law: an override that the model matches is always found, at or before its
/// own position.
pub proof fn law_matching_override_is_found(model: Seq<char>, keys: Seq<Seq<char>>, j: int)
    requires
        0 <= j < keys.len(),
        override_matches(model, keys[j]),
    ensures
        first_override_from(model, keys, 0) matches Some(k) && k <= j && override_matches(
            model,
            keys[k as int],
        ),
{
    lemma_first_override_from(model, keys, 0, j);
}

proof fn lemma_first_override_from(model: Seq<char>, keys: Seq<Seq<char>>, i: int, j: int)
    requires
        0 <= i <= j < keys.len(),
        override_matches(model, keys[j]),
    ensures
        first_override_from(model, keys, i) matches Some(k) && i <= k <= j && override_matches(
            model,
            keys[k as int],
        ),
    decreases j - i,
{
    if !override_matches(model, keys[i]) {
        lemma_first_override_from(model, keys, i + 1, j);
    }
}

/// The short model tags, in the order they are tried.
pub open spec fn model_tags() -> Seq<Seq<char>> {
    seq!["opus"@, "sonnet"@, "haiku"@, "gpt-5"@, "gpt-4o"@, "o3"@, "o1"@]
}

/// The first tag, in the order of `model_tags`, that `lower` contains.
pub open spec fn first_tag_from(lower: Seq<char>, i: int) -> Option<Seq<char>>
    decreases model_tags().len() - i,
{
    if i < 0 || i >= model_tags().len() {
        None
    } else if contains(lower, model_tags()[i]) {
        Some(model_tags()[i])
    } else {
        first_tag_from(lower, i + 1)
    }
}

/// A short tag for the model column (`opus`, `sonnet`, `gpt-4o`, …): the first
/// tag the lower-cased id contains, or `None`, when the id itself (truncated)
/// stands in for it.
pub fn short_model_tag(m: &str) -> (r: Option<String>)
    ensures
        r matches Some(t) ==> first_tag_from(lowercase(m@), 0) == Some(t@),
        r is None ==> first_tag_from(lowercase(m@), 0) is None,
{
    let lower = to_lowercase(m);
    let l = chars_of(lower.as_str());
    let tags: Vec<&str> = vec!["opus", "sonnet", "haiku", "gpt-5", "gpt-4o", "o3", "o1"];
    assert(tags@.len() == 7);
    let mut i: usize = 0;
    while i < tags.len()
        invariant
            i <= 7,
            tags@.len() == 7,
            forall|j: int| 0 <= j < 7 ==> (#[trigger] tags@[j])@ == model_tags()[j],
            l@ == lowercase(m@),
            first_tag_from(l@, i as int) == first_tag_from(l@, 0),
        decreases 7 - i,
    {
        if has(&l, tags[i]) {
            return Some(String::from_str(tags[i]));
        }
        i = i + 1;
    }
    None
}


/// Law: a model's window is 128k exactly when its lower-cased ID names a GPT
/// model (`gpt`) or a reasoning model (`o1`, `o3`), and 200k otherwise.
pub proof fn law_window_by_name(model: Seq<char>)
    ensures
        contains(lowercase(model), "gpt"@) ==> window_spec(model) == 128_000,
        contains(lowercase(model), "o1"@) ==> window_spec(model) == 128_000,
        contains(lowercase(model), "o3"@) ==> window_spec(model) == 128_000,
        !contains(lowercase(model), "gpt"@) && !contains(lowercase(model), "o1"@) && !contains(
            lowercase(model),
            "o3"@,
        ) ==> window_spec(model) == 200_000,
{
}

proof fn lemma_contains_prefix(m: Seq<char>, pat: Seq<char>, pre: Seq<char>)
    requires
        contains(m, pat),
        pre.len() <= pat.len(),
        pat.take(pre.len() as int) == pre,
    ensures
        contains(m, pre),
{
    let i = choose|i: int| crate::text::occurs_at(m, pat, i);
    assert(m.subrange(i, i + pre.len()) =~= m.subrange(i, i + pat.len()).take(pre.len() as int));
    assert(crate::text::occurs_at(m, pre, i));
}

/// Law: every model that is priced as a GPT or a reasoning model runs in the
/// 128k window.
pub proof fn law_priced_gpt_and_reasoning_have_the_short_window(model: Seq<char>)
    ensures
        family_spec(model) == Some(ModelFamily::Gpt) ==> window_spec(model) == 128_000,
        family_spec(model) == Some(ModelFamily::Reasoning) ==> window_spec(model) == 128_000,
{
    let m = lowercase(model);
    reveal_strlit("gpt");
    reveal_strlit("gpt-4o");
    reveal_strlit("gpt-4.1");
    reveal_strlit("gpt-5");
    if contains(m, "gpt-4o"@) {
        assert("gpt-4o"@.take(3) =~= "gpt"@);
        lemma_contains_prefix(m, "gpt-4o"@, "gpt"@);
    }
    if contains(m, "gpt-4.1"@) {
        assert("gpt-4.1"@.take(3) =~= "gpt"@);
        lemma_contains_prefix(m, "gpt-4.1"@, "gpt"@);
    }
    if contains(m, "gpt-5"@) {
        assert("gpt-5"@.take(3) =~= "gpt"@);
        lemma_contains_prefix(m, "gpt-5"@, "gpt"@);
    }
}

} // verus!
