//! The rules of theme installation: which IDs and sources are accepted, where a
//! theme and its provenance record are written, which installed themes depend
//! on a parent, and the starter file a new theme begins from. Reading and
//! writing files, downloading and prompting are done by the caller.
use vstd::prelude::*;
use sha2::Digest;
use crate::text::{
    ascii_lower, chars_of, contains, contains_chars, is_ws, push_char, push_chars, starts_with,
    string_of, sub_chars, trim, trim_chars,
};

verus! {

/// Why a theme operation was refused.
#[derive(Debug, Clone, PartialEq, Eq)]
pub enum ThemeError {
    /// The theme ID breaks the ID rule.
    InvalidId,
    /// A `community/` source that is not `community/<theme-id>`.
    CommunitySyntax,
    /// A remote source that is not HTTPS.
    NotHttps,
    /// An HTTPS URL that does not start with `https://`, or that holds a
    /// control or whitespace character.
    InvalidHttpsUrl,
    /// The ID is already installed from another file.
    AlreadyInstalled { path: String },
    /// The ID belongs to a bundled theme.
    Reserved,
}

/// Where community themes are published.
pub const COMMUNITY_RAW_ROOT: &'static str = "https://raw.githubusercontent.com/RizRiyz/luvus/main/community/themes";

/// The prefix that names a community theme as an install source.
pub const COMMUNITY_PREFIX: &'static str = "community/";

/// The longest theme ID accepted.
pub const MAX_ID_CHARS: usize = 64;

// ───────────────────────── installed themes ─────────────────────────

/// `std::path::PathBuf`, carried through unread.
#[verifier::external_type_specification]
#[verifier::external_body]
pub struct ExPathBuf(std::path::PathBuf);

/// `PathBuf::clone`, used by the derived `Clone` of [`InstalledTheme`]; nothing
/// is claimed of the copy.
pub assume_specification[ <std::path::PathBuf as Clone>::clone ](p: &std::path::PathBuf) -> std::path::PathBuf;

/// A theme that was installed: its ID and display name, the file it was
/// written to, the source it came from, and the validation warnings it raised.
#[derive(Clone, Debug)]
pub struct InstalledTheme {
    pub id: String,
    pub display_name: String,
    pub path: std::path::PathBuf,
    pub source: String,
    pub warnings: Vec<String>,
}

// ───────────────────────── theme IDs ─────────────────────────

pub open spec fn id_char(c: char) -> bool {
    ('a' <= c <= 'z') || ('0' <= c <= '9') || c == '-' || c == '_'
}

/// The ID rule: 1 to `MAX_ID_CHARS` characters, each a lower-case ASCII letter,
/// a digit, `-` or `_`, beginning with a letter or digit. Such an ID is safe as
/// a file name and as one segment of a URL. This rule is this library's own:
/// the theme file format that defines the application's ID rule is not part of
/// this project, so the rule here is a conservative one that accepts every ID
/// the project's own examples use and refuses anything that could leave the
/// themes directory or the community URL.
pub open spec fn valid_id(id: Seq<char>) -> bool {
    &&& 0 < id.len() <= MAX_ID_CHARS
    &&& forall|k: int| 0 <= k < id.len() ==> id_char(#[trigger] id[k])
    &&& id[0] != '-' && id[0] != '_'
}

/// Checks `id` against the ID rule.
pub fn validate_id(id: &str) -> (r: Result<(), ThemeError>)
    ensures
        r is Ok <==> valid_id(id@),
        r matches Err(e) ==> e == ThemeError::InvalidId,
{
    let cs = chars_of(id);
    if cs.len() == 0 || cs.len() > MAX_ID_CHARS {
        return Err(ThemeError::InvalidId);
    }
    if cs[0] == '-' || cs[0] == '_' {
        return Err(ThemeError::InvalidId);
    }
    let mut k: usize = 0;
    while k < cs.len()
        invariant
            k <= cs@.len(),
            cs@ == id@,
            forall|j: int| 0 <= j < k ==> id_char(#[trigger] cs@[j]),
        decreases cs@.len() - k,
    {
        let c = cs[k];
        if !(('a' <= c && c <= 'z') || ('0' <= c && c <= '9') || c == '-' || c == '_') {
            assert(!id_char(cs@[k as int]));
            return Err(ThemeError::InvalidId);
        }
        k = k + 1;
    }
    Ok(())
}

/// The URL of community theme `id`.
pub open spec fn community_url_spec(id: Seq<char>) -> Seq<char> {
    COMMUNITY_RAW_ROOT@ + "/"@ + id + ".toml"@
}

/// The URL a community theme is published at; refused for an invalid ID.
pub fn community_url(id: &str) -> (r: Result<String, ThemeError>)
    ensures
        r is Ok <==> valid_id(id@),
        r matches Ok(u) ==> u@ == community_url_spec(id@),
        r matches Err(e) ==> e == ThemeError::InvalidId,
{
    validate_id(id)?;
    let mut u = String::from_str(COMMUNITY_RAW_ROOT);
    u.append("/");
    u.append(id);
    u.append(".toml");
    Ok(u)
}

// ───────────────────────── install sources ─────────────────────────

/// Where a theme is installed from.
#[derive(Debug, Clone, PartialEq, Eq)]
pub enum ThemeSource {
    /// A published community theme, downloaded from `url`.
    Community { url: String },
    /// Any other HTTPS URL.
    Remote { url: String },
    /// A file on this machine.
    Local { path: String },
}

/// The mathematical value of a [`ThemeSource`].
pub enum ThemeSourceView {
    Community { url: Seq<char> },
    Remote { url: Seq<char> },
    Local { path: Seq<char> },
}

impl View for ThemeSource {
    type V = ThemeSourceView;

    open spec fn view(&self) -> ThemeSourceView {
        match self {
            ThemeSource::Community { url } => ThemeSourceView::Community { url: url@ },
            ThemeSource::Remote { url } => ThemeSourceView::Remote { url: url@ },
            ThemeSource::Local { path } => ThemeSourceView::Local { path: path@ },
        }
    }
}

/// How an install source is read: `community/<id>`, an `https://` URL, or a
/// local path; any other `://` scheme is refused.
pub open spec fn source_spec(source: Seq<char>) -> Result<ThemeSourceView, ThemeError> {
    let p = COMMUNITY_PREFIX@;
    if starts_with(source, p) {
        let id = source.skip(p.len() as int);
        if id.len() == 0 || contains(id, "/"@) {
            Err(ThemeError::CommunitySyntax)
        } else if !valid_id(id) {
            Err(ThemeError::InvalidId)
        } else {
            Ok(ThemeSourceView::Community { url: community_url_spec(id) })
        }
    } else if starts_with(source, "https://"@) {
        Ok(ThemeSourceView::Remote { url: source })
    } else if contains(source, "://"@) {
        Err(ThemeError::NotHttps)
    } else {
        Ok(ThemeSourceView::Local { path: source })
    }
}

/// Classifies an install source, before anything is read or downloaded.
pub fn classify_source(source: &str) -> (r: Result<ThemeSource, ThemeError>)
    ensures
        match r {
            Ok(s) => source_spec(source@) == Ok::<ThemeSourceView, ThemeError>(s@),
            Err(e) => source_spec(source@) == Err::<ThemeSourceView, ThemeError>(e),
        },
{
    let cs = chars_of(source);
    let prefix = chars_of(COMMUNITY_PREFIX);
    if crate::text::occurs_at_exec(&cs, &prefix, 0) {
        let id_chars = sub_chars(&cs, prefix.len(), cs.len());
        let slash = chars_of("/");
        assert(id_chars@ == source@.skip(COMMUNITY_PREFIX@.len() as int));
        if id_chars.len() == 0 || contains_chars(&id_chars, &slash) {
            return Err(ThemeError::CommunitySyntax);
        }
        let id = string_of(&id_chars);
        let url = community_url(id.as_str())?;
        return Ok(ThemeSource::Community { url });
    }
    let https = chars_of("https://");
    if crate::text::occurs_at_exec(&cs, &https, 0) {
        return Ok(ThemeSource::Remote { url: String::from_str(source) });
    }
    let scheme = chars_of("://");
    if contains_chars(&cs, &scheme) {
        return Err(ThemeError::NotHttps);
    }
    Ok(ThemeSource::Local { path: String::from_str(source) })
}

/// `char::is_control`: the Unicode general category `Cc`.
pub open spec fn is_control(c: char) -> bool {
    (c as u32) <= 0x1F || (0x7F <= (c as u32) && (c as u32) <= 0x9F)
}

/// A theme download URL: `https://`, with no control or whitespace character.
pub open spec fn valid_https_url(url: Seq<char>) -> bool {
    starts_with(url, "https://"@) && forall|k: int|
        0 <= k < url.len() ==> !is_control(#[trigger] url[k]) && !is_ws(url[k])
}

/// Checks a URL before it is handed to the downloader.
pub fn check_https_url(url: &str) -> (r: Result<(), ThemeError>)
    ensures
        r is Ok <==> valid_https_url(url@),
        r matches Err(e) ==> e == ThemeError::InvalidHttpsUrl,
{
    let cs = chars_of(url);
    let https = chars_of("https://");
    if !crate::text::occurs_at_exec(&cs, &https, 0) {
        return Err(ThemeError::InvalidHttpsUrl);
    }
    let mut k: usize = 0;
    while k < cs.len()
        invariant
            k <= cs@.len(),
            cs@ == url@,
            forall|j: int| 0 <= j < k ==> !is_control(#[trigger] cs@[j]) && !is_ws(cs@[j]),
        decreases cs@.len() - k,
    {
        let c = cs[k];
        let v = c as u32;
        if v <= 0x1F || (0x7F <= v && v <= 0x9F) || crate::text::is_whitespace(c) {
            assert(is_control(cs@[k as int]) || is_ws(cs@[k as int]));
            return Err(ThemeError::InvalidHttpsUrl);
        }
        k = k + 1;
    }
    Ok(())
}

// ───────────────────────── confirmation ─────────────────────────

/// `str::to_ascii_lowercase`.
pub open spec fn ascii_lowercase(s: Seq<char>) -> Seq<char> {
    s.map_values(|c: char| ascii_lower(c))
}

/// The answer to the install prompt accepts: `y` or `yes`, in any ASCII case,
/// with surrounding whitespace ignored.
pub open spec fn is_yes_spec(answer: Seq<char>) -> bool {
    let a = ascii_lowercase(trim(answer));
    a == "y"@ || a == "yes"@
}

fn chars_eq(a: &Vec<char>, b: &Vec<char>) -> (r: bool)
    ensures
        r == (a@ == b@),
{
    if a.len() != b.len() {
        return false;
    }
    let r = crate::text::occurs_at_exec(a, b, 0);
    assert(a@.subrange(0, b@.len() as int) =~= a@);
    r
}

/// Whether the answer to the install prompt accepts the installation.
pub fn is_yes(answer: &str) -> (r: bool)
    ensures
        r == is_yes_spec(answer@),
{
    let cs = chars_of(answer);
    let t = trim_chars(&cs);
    let mut low: Vec<char> = Vec::new();
    let mut k: usize = 0;
    while k < t.len()
        invariant
            k <= t@.len(),
            low@ == t@.take(k as int).map_values(|c: char| ascii_lower(c)),
        decreases t@.len() - k,
    {
        let c = t[k];
        let l = if 'A' <= c && c <= 'Z' {
            ((c as u32) + 32) as u8 as char
        } else {
            c
        };
        assert(l == ascii_lower(c)) by {
            if 'A' <= c && c <= 'Z' {
                assert((((c as u32) + 32) as u8 as char) == (((c as u32) + 32) as char));
            }
        }
        low.push(l);
        k = k + 1;
        assert(t@.take(k as int).map_values(|c: char| ascii_lower(c)) =~= t@.take(k - 1).map_values(
            |c: char| ascii_lower(c),
        ).push(ascii_lower(t@[k - 1])));
    }
    assert(t@.take(t@.len() as int) =~= t@);
    let y = chars_of("y");
    let yes = chars_of("yes");
    chars_eq(&low, &y) || chars_eq(&low, &yes)
}

// ───────────────────────── destinations ─────────────────────────

/// Whether two paths name the same path, component by component.
pub uninterp spec fn same_path(a: Seq<char>, b: Seq<char>) -> bool;

/// Compares `std::path::Path::new(a) == std::path::Path::new(b)`. The result
/// is named `same_path`; the contract claims only that it depends on the two
/// texts alone (the standard library compares paths by their components).
#[verifier::external_body]
fn paths_equal(a: &str, b: &str) -> (r: bool)
    ensures
        r == same_path(a@, b@),
{
    std::path::Path::new(a) == std::path::Path::new(b)
}

/// What the theme registry already holds under an ID.
#[derive(Debug, Clone, PartialEq, Eq)]
pub enum ExistingTheme {
    /// A local theme file at `path`.
    Local { path: String },
    /// A theme bundled with the application.
    Bundled,
}

/// Whether installing theme `id` to `destination` may go ahead, given what the
/// registry already holds under that ID: nothing, or the same file (a
/// reinstall), may; another file, or a bundled theme, may not.
pub fn reject_duplicate_destination(existing: &Option<ExistingTheme>, destination: &str) -> (r:
    Result<(), ThemeError>)
    ensures
        match existing {
            None => r is Ok,
            Some(ExistingTheme::Local { path }) => if same_path(path@, destination@) {
                r is Ok
            } else {
                r matches Err(ThemeError::AlreadyInstalled { path: p }) && p@ == path@
            },
            Some(ExistingTheme::Bundled) => r == Err::<(), ThemeError>(ThemeError::Reserved),
        },
{
    match existing {
        None => Ok(()),
        Some(ExistingTheme::Local { path }) => {
            if paths_equal(path.as_str(), destination) {
                Ok(())
            } else {
                Err(ThemeError::AlreadyInstalled { path: path.clone() })
            }
        },
        Some(ExistingTheme::Bundled) => Err(ThemeError::Reserved),
    }
}

/// The file name theme `id` is installed under.
pub fn theme_file_name(id: &str) -> (r: String)
    ensures
        r@ == id@ + ".toml"@,
{
    let mut s = String::from_str(id);
    s.append(".toml");
    s
}

/// The file name of the provenance record of theme `id`.
pub fn provenance_file_name(id: &str) -> (r: String)
    ensures
        r@ == id@ + ".source.json"@,
{
    let mut s = String::from_str(id);
    s.append(".source.json");
    s
}

/// A directory entry named `name` has the extension `toml`, as
/// `Path::extension` reads it: a final `.toml` after a non-empty stem.
pub open spec fn is_toml_file_name_spec(name: Seq<char>) -> bool {
    name.len() > 5 && name.skip(name.len() - 5) == ".toml"@
}

/// Whether a directory entry named `name` is a theme file.
pub fn is_toml_file_name(name: &str) -> (r: bool)
    ensures
        r == is_toml_file_name_spec(name@),
{
    let cs = chars_of(name);
    let ext = chars_of(".toml");
    if cs.len() <= 5 {
        return false;
    }
    let tail = sub_chars(&cs, cs.len() - 5, cs.len());
    assert(tail@ == name@.skip(name@.len() - 5));
    chars_eq(&tail, &ext)
}

// ───────────────────────── numbers and digests ─────────────────────────

pub open spec fn digit_char(d: nat) -> char
    recommends
        d < 16,
{
    seq!['0', '1', '2', '3', '4', '5', '6', '7', '8', '9', 'a', 'b', 'c', 'd', 'e', 'f'][d as int]
}

/// The decimal digits of `n`, most significant first.
pub open spec fn decimal_text(n: nat) -> Seq<char>
    decreases n,
{
    if n < 10 {
        seq![digit_char(n)]
    } else {
        decimal_text(n / 10).push(digit_char(n % 10))
    }
}

fn digit_of(d: u64) -> (r: char)
    requires
        d < 16,
    ensures
        r == digit_char(d as nat),
{
    let digits = ['0', '1', '2', '3', '4', '5', '6', '7', '8', '9', 'a', 'b', 'c', 'd', 'e', 'f'];
    assert(digits@ == seq!['0', '1', '2', '3', '4', '5', '6', '7', '8', '9', 'a', 'b', 'c', 'd', 'e', 'f']);
    digits[d as usize]
}

/// Appends the decimal digits of `n`.
pub fn push_decimal(s: &mut String, n: u64)
    ensures
        final(s)@ == old(s)@ + decimal_text(n as nat),
    decreases n,
{
    if n >= 10 {
        push_decimal(s, n / 10);
    }
    push_char(s, digit_of(n % 10));
    proof {
        if n < 10 {
            assert(old(s)@ + decimal_text(n as nat) =~= old(s)@.push(digit_char(n as nat)));
        } else {
            assert(old(s)@ + decimal_text(n as nat) =~= (old(s)@ + decimal_text((n / 10) as nat)).push(
                digit_char((n % 10) as nat),
            ));
        }
    }
}

/// The name of the temporary file a write to `file_name` goes through:
/// `.{name}.tmp-{pid}-{n}`, with `theme` standing in for a missing name.
pub open spec fn temp_name_spec(file_name: Option<Seq<char>>, pid: u32, n: u64) -> Seq<char> {
    let name = match file_name {
        Some(f) => f,
        None => "theme"@,
    };
    "."@ + name + ".tmp-"@ + decimal_text(pid as nat) + "-"@ + decimal_text(n as nat)
}

/// The temporary file name for an atomic write (see [`temp_name_spec`]).
pub fn temp_file_name(file_name: Option<&str>, pid: u32, n: u64) -> (r: String)
    ensures
        r@ == temp_name_spec(
            match file_name {
                Some(f) => Some(f@),
                None => None,
            },
            pid,
            n,
        ),
{
    let mut s = String::from_str(".");
    match file_name {
        Some(f) => s.append(f),
        None => s.append("theme"),
    }
    s.append(".tmp-");
    push_decimal(&mut s, pid as u64);
    s.append("-");
    push_decimal(&mut s, n);
    s
}

/// The SHA-256 digest of `data`.
pub uninterp spec fn sha256_of(data: Seq<u8>) -> Seq<u8>;

/// Calls `sha2::Sha256::digest`. The result is named `sha256_of` of the input
/// bytes; the contract adds only that a SHA-256 digest is 32 bytes long.
#[verifier::external_body]
fn sha256(data: &[u8]) -> (r: Vec<u8>)
    ensures
        r@ == sha256_of(data@),
        r@.len() == 32,
{
    sha2::Sha256::digest(data).to_vec()
}

/// Two lower-case hex digits per byte, most significant first.
pub open spec fn hex_text(bytes: Seq<u8>) -> Seq<char>
    decreases bytes.len(),
{
    if bytes.len() == 0 {
        Seq::empty()
    } else {
        hex_text(bytes.drop_last()) + seq![
            digit_char((bytes.last() / 16) as nat),
            digit_char((bytes.last() % 16) as nat),
        ]
    }
}

/// `bytes` as lower-case hex.
pub fn hex_lower(bytes: &Vec<u8>) -> (r: String)
    ensures
        r@ == hex_text(bytes@),
{
    let mut s = String::new();
    let mut k: usize = 0;
    while k < bytes.len()
        invariant
            k <= bytes@.len(),
            s@ == hex_text(bytes@.take(k as int)),
        decreases bytes@.len() - k,
    {
        let b = bytes[k];
        push_char(&mut s, digit_of((b / 16) as u64));
        push_char(&mut s, digit_of((b % 16) as u64));
        k = k + 1;
        assert(bytes@.take(k as int).drop_last() =~= bytes@.take(k - 1));
    }
    assert(bytes@.take(bytes@.len() as int) =~= bytes@);
    s
}

/// The provenance digest of an installed theme file: its SHA-256, in
/// lower-case hex.
pub fn provenance_digest(data: &[u8]) -> (r: String)
    ensures
        r@ == hex_text(sha256_of(data@)),
        r@.len() == 64,
{
    let d = sha256(data);
    proof {
        lemma_hex_len(d@);
    }
    hex_lower(&d)
}

proof fn lemma_hex_len(b: Seq<u8>)
    ensures
        hex_text(b).len() == 2 * b.len(),
    decreases b.len(),
{
    if b.len() > 0 {
        lemma_hex_len(b.drop_last());
    }
}


/// Law: every valid ID, written `community/<id>`, is read as that community
/// theme, to be downloaded from its published URL.
pub proof fn law_community_source_round_trip(id: Seq<char>)
    requires
        valid_id(id),
    ensures
        source_spec(COMMUNITY_PREFIX@ + id) == Ok::<ThemeSourceView, ThemeError>(
            ThemeSourceView::Community { url: community_url_spec(id) },
        ),
{
    let p = COMMUNITY_PREFIX@;
    let s = p + id;
    assert(s.subrange(0, p.len() as int) =~= p);
    assert(s.skip(p.len() as int) =~= id);
    reveal_strlit("/");
    if contains(id, "/"@) {
        let i = choose|i: int| crate::text::occurs_at(id, "/"@, i);
        assert(id.subrange(i, i + 1)[0] == id[i]);
        assert(!id_char('/'));
        assert(id_char(id[i]));
    }
}

// ───────────────────────── dependents ─────────────────────────

/// Code-point lexicographic order on texts, the order in which `str` (and so
/// `Vec<String>::sort`) sorts: UTF-8 byte order and code-point order agree.
pub open spec fn lex_le(a: Seq<char>, b: Seq<char>) -> bool
    decreases a.len(),
{
    if a.len() == 0 {
        true
    } else if b.len() == 0 {
        false
    } else if a[0] != b[0] {
        a[0] < b[0]
    } else {
        lex_le(a.drop_first(), b.drop_first())
    }
}

pub proof fn lemma_lex_total(a: Seq<char>, b: Seq<char>)
    ensures
        lex_le(a, b) || lex_le(b, a),
    decreases a.len(),
{
    if a.len() > 0 && b.len() > 0 && a[0] == b[0] {
        lemma_lex_total(a.drop_first(), b.drop_first());
    }
}

pub proof fn lemma_lex_trans(a: Seq<char>, b: Seq<char>, c: Seq<char>)
    requires
        lex_le(a, b),
        lex_le(b, c),
    ensures
        lex_le(a, c),
    decreases a.len(),
{
    if a.len() > 0 && a[0] == b[0] && b[0] == c[0] {
        lemma_lex_trans(a.drop_first(), b.drop_first(), c.drop_first());
    }
}

/// Every text of `s` sorts at or before every later one.
pub open spec fn sorted(s: Seq<Seq<char>>) -> bool {
    forall|i: int, j: int| 0 <= i < j < s.len() ==> lex_le(#[trigger] s[i], #[trigger] s[j])
}

pub open spec fn strings_view(v: Seq<String>) -> Seq<Seq<char>> {
    v.map_values(|s: String| s@)
}

/// Whether `a` sorts at or before `b`.
fn lex_le_exec(a: &Vec<char>, b: &Vec<char>) -> (r: bool)
    ensures
        r == lex_le(a@, b@),
{
    let mut i: usize = 0;
    assert(a@.skip(0) =~= a@);
    assert(b@.skip(0) =~= b@);
    while i < a.len() && i < b.len() && a[i] == b[i]
        invariant
            i <= a@.len(),
            i <= b@.len(),
            lex_le(a@.skip(i as int), b@.skip(i as int)) == lex_le(a@, b@),
        decreases a@.len() - i,
    {
        assert(a@.skip(i as int).drop_first() =~= a@.skip(i + 1));
        assert(b@.skip(i as int).drop_first() =~= b@.skip(i + 1));
        i = i + 1;
    }
    if i == a.len() {
        assert(a@.skip(i as int).len() == 0);
        true
    } else if i == b.len() {
        assert(b@.skip(i as int).len() == 0);
        false
    } else {
        assert(a@.skip(i as int)[0] == a@[i as int]);
        assert(b@.skip(i as int)[0] == b@[i as int]);
        a[i] < b[i]
    }
}

/// Inserts `x` into the sorted `out`, keeping it sorted.
fn insert_sorted(out: &mut Vec<String>, x: String)
    requires
        sorted(strings_view(old(out)@)),
    ensures
        sorted(strings_view(final(out)@)),
        strings_view(final(out)@).to_multiset() == strings_view(old(out)@).to_multiset().insert(x@),
{
    let xs = chars_of(x.as_str());
    let ghost v = strings_view(out@);
    let mut i: usize = 0;
    let mut go = true;
    while go && i < out.len()
        invariant
            i <= out@.len(),
            v == strings_view(out@),
            sorted(v),
            xs@ == x@,
            forall|j: int| 0 <= j < i ==> lex_le(#[trigger] v[j], x@),
            !go ==> i < out@.len() && !lex_le(v[i as int], x@),
        decreases out@.len() - i + (if go { 1int } else { 0int }),
    {
        let cur = chars_of(out[i].as_str());
        if lex_le_exec(&cur, &xs) {
            i = i + 1;
        } else {
            go = false;
        }
    }
    proof {
        if i < v.len() {
            assert(!lex_le(v[i as int], x@));
            lemma_lex_total(v[i as int], x@);
            assert forall|j: int| i <= j < v.len() implies lex_le(x@, #[trigger] v[j]) by {
                if j > i {
                    lemma_lex_trans(x@, v[i as int], v[j]);
                }
            }
        }
    }
    out.insert(i, x);
    proof {
        let w = strings_view(out@);
        assert(w =~= v.insert(i as int, x@));
        vstd::seq_lib::to_multiset_insert(v, i as int, x@);
        assert forall|a: int, b: int| 0 <= a < b < w.len() implies lex_le(#[trigger] w[a], #[trigger] w[b]) by {
            if b < i {
            } else if b == i {
            } else if a < i {
                lemma_lex_trans(v[a], x@, v[b - 1]);
            } else if a == i {
            } else {
            }
        }
    }
}

/// The ID and parent of a theme file, as read from it.
#[derive(Debug, Clone, PartialEq, Eq)]
pub struct ThemeHeader {
    pub id: String,
    pub extends: Option<String>,
}

pub open spec fn headers_view(v: Seq<ThemeHeader>) -> Seq<(Seq<char>, Option<Seq<char>>)> {
    v.map_values(|h: ThemeHeader| (h.id@, crate::changelog::opt_view(h.extends)))
}

/// The IDs of the themes, among `themes`, that extend `parent`, in the order
/// given.
pub open spec fn dependents_spec(themes: Seq<(Seq<char>, Option<Seq<char>>)>, parent: Seq<char>) -> Seq<
    Seq<char>,
>
    decreases themes.len(),
{
    if themes.len() == 0 {
        Seq::empty()
    } else {
        let rest = dependents_spec(themes.drop_last(), parent);
        if themes.last().1 == Some(parent) {
            rest.push(themes.last().0)
        } else {
            rest
        }
    }
}

/// The installed themes that extend `parent`, sorted by ID: these keep the
/// parent from being uninstalled.
pub fn dependents_of(themes: &Vec<ThemeHeader>, parent: &str) -> (r: Vec<String>)
    ensures
        sorted(strings_view(r@)),
        strings_view(r@).to_multiset() == dependents_spec(headers_view(themes@), parent@).to_multiset(),
{
    let p = chars_of(parent);
    let mut out: Vec<String> = Vec::new();
    let mut k: usize = 0;
    assert(strings_view(out@) =~= Seq::<Seq<char>>::empty());
    assert(headers_view(themes@).take(0) =~= Seq::<(Seq<char>, Option<Seq<char>>)>::empty());
    while k < themes.len()
        invariant
            k <= themes@.len(),
            p@ == parent@,
            sorted(strings_view(out@)),
            strings_view(out@).to_multiset() == dependents_spec(headers_view(themes@).take(k as int), parent@).to_multiset(),
        decreases themes@.len() - k,
    {
        let ghost pre = headers_view(themes@).take(k as int);
        let ghost next = headers_view(themes@).take(k + 1);
        assert(next.drop_last() =~= pre);
        let h = &themes[k];
        let matches = match &h.extends {
            Some(e) => {
                let ec = chars_of(e.as_str());
                chars_eq(&ec, &p)
            },
            None => false,
        };
        if matches {
            proof {
                vstd::seq_lib::to_multiset_build(dependents_spec(pre, parent@), h.id@);
            }
            insert_sorted(&mut out, h.id.clone());
        }
        k = k + 1;
    }
    assert(headers_view(themes@).take(themes@.len() as int) =~= headers_view(themes@));
    out
}


// ───────────────────────── the starter file ─────────────────────────

/// The full Unicode upper-case mapping of `c` (one or more characters).
pub uninterp spec fn upper_char(c: char) -> Seq<char>;

/// Collects `char::to_uppercase` into a `String`. The result is named
/// `upper_char` of the character; the contract claims nothing more.
#[verifier::external_body]
fn uppercase_char(c: char) -> (r: String)
    ensures
        r@ == upper_char(c),
{
    c.to_uppercase().collect()
}

/// The separators between the words of a theme ID.
pub open spec fn is_id_sep(c: char) -> bool {
    c == '-' || c == '_' || c == '.'
}

/// The non-empty words of `s[i..]`, given the word `cur` being read and the
/// words `acc` already complete.
pub open spec fn words_from(s: Seq<char>, i: int, cur: Seq<char>, acc: Seq<Seq<char>>) -> Seq<
    Seq<char>,
>
    decreases s.len() - i,
{
    let done = if cur.len() > 0 {
        acc.push(cur)
    } else {
        acc
    };
    if i < 0 || i >= s.len() {
        done
    } else if is_id_sep(s[i]) {
        words_from(s, i + 1, Seq::empty(), done)
    } else {
        words_from(s, i + 1, cur.push(s[i]), acc)
    }
}

/// The words of an ID: the non-empty runs between `-`, `_` and `.`.
pub open spec fn id_words(id: Seq<char>) -> Seq<Seq<char>> {
    words_from(id, 0, Seq::empty(), Seq::empty())
}

/// `w` with its first character upper-cased.
pub open spec fn capitalized(w: Seq<char>) -> Seq<char> {
    upper_char(w[0]) + w.skip(1)
}

/// The capitalized words, joined by single spaces.
pub open spec fn title_of_words(ws: Seq<Seq<char>>) -> Seq<char>
    decreases ws.len(),
{
    if ws.len() == 0 {
        Seq::empty()
    } else if ws.len() == 1 {
        capitalized(ws[0])
    } else {
        title_of_words(ws.drop_last()) + seq![' '] + capitalized(ws.last())
    }
}

/// The display name a new theme starts with: its ID's words, capitalized.
pub open spec fn starter_title(id: Seq<char>) -> Seq<char> {
    title_of_words(id_words(id))
}

/// Appends the capitalized `w` to `title`, after a space unless it is the first
/// word.
fn append_word(title: &mut String, w: &Vec<char>, count: usize, Ghost(words): Ghost<Seq<Seq<char>>>)
    requires
        w@.len() > 0,
        count == words.len(),
        old(title)@ == title_of_words(words),
    ensures
        final(title)@ == title_of_words(words.push(w@)),
{
    assert(words.push(w@).drop_last() =~= words);
    if count > 0 {
        push_char(title, ' ');
    }
    let up = uppercase_char(w[0]);
    title.append(up.as_str());
    let rest = sub_chars(w, 1, w.len());
    push_chars(title, &rest);
    assert(rest@ == w@.skip(1));
    assert(up@ + rest@ == capitalized(w@));
    if count == 0 {
        assert(words.push(w@)[0] == w@);
        assert(final(title)@ =~= capitalized(w@));
    } else {
        assert(final(title)@ =~= old(title)@ + seq![' '] + capitalized(w@));
    }
}

/// The display name a new theme `id` starts with.
pub fn starter_title_of(id: &str) -> (r: String)
    ensures
        r@ == starter_title(id@),
{
    let cs = chars_of(id);
    let mut title = String::new();
    let mut cur: Vec<char> = Vec::new();
    let mut count: usize = 0;
    let ghost mut acc: Seq<Seq<char>> = Seq::empty();
    let mut i: usize = 0;
    while i < cs.len()
        invariant
            i <= cs@.len(),
            cs@ == id@,
            count == acc.len(),
            count <= i,
            title@ == title_of_words(acc),
            words_from(cs@, i as int, cur@, acc) == id_words(id@),
        decreases cs@.len() - i,
    {
        let c = cs[i];
        if c == '-' || c == '_' || c == '.' {
            if cur.len() > 0 {
                append_word(&mut title, &cur, count, Ghost(acc));
                proof {
                    acc = acc.push(cur@);
                }
                count = count + 1;
            }
            cur = Vec::new();
        } else {
            cur.push(c);
        }
        i = i + 1;
    }
    if cur.len() > 0 {
        append_word(&mut title, &cur, count, Ghost(acc));
    }
    title
}

pub const STARTER_HEAD: &'static str = "schema = 1\nid = \"";

pub const STARTER_NAME: &'static str = "\"\ndisplay_name = \"";

pub const STARTER_META: &'static str = "\"\ndescription = \"\"\nauthor = \"\"\nversion = \"1.0.0\"\nrequires_luvus = \">=0.11.0\"\nappearance = \"dark\"\n";

pub const STARTER_EXTENDS: &'static str = "extends = \"";

pub const STARTER_CHILD_COLORS: &'static str = "\"\n\n[colors]\n# Override only the semantic roles that differ from the parent.\naccent = \"#c6ff1a\"\nsel_bg = \"#33450e\"\n";

pub const STARTER_FULL_COLORS: &'static str = "\n[colors]\ncrust = \"#070709\"\nmantle = \"#111116\"\nbase = \"#202028\"\nsurface0 = \"#1a1a20\"\nsurface1 = \"#25252d\"\noverlay0 = \"#4a4a54\"\noverlay1 = \"#686873\"\nsubtext0 = \"#93939f\"\nsubtext1 = \"#b6b6c0\"\ntext = \"#e7e7ed\"\naccent = \"#c6ff1a\"\nsel_bg = \"#33450e\"\nborder = \"#383840\"\nborder_focus = \"#8c8c96\"\ngreen = \"#8fbc7a\"\nmint = \"#6fc6a3\"\namber = \"#e09a4d\"\ncoral = \"#e06c66\"\n";

/// The starter theme file: schema 1 with the ID, its display name and empty
/// metadata; a child of `parent` overrides two colors, a complete theme sets
/// every semantic color.
pub open spec fn starter_spec(id: Seq<char>, parent: Option<Seq<char>>) -> Seq<char> {
    let head = STARTER_HEAD@ + id + STARTER_NAME@ + starter_title(id) + STARTER_META@;
    match parent {
        Some(p) => head + STARTER_EXTENDS@ + p + STARTER_CHILD_COLORS@,
        None => head + STARTER_FULL_COLORS@,
    }
}

/// The starter TOML for a new theme `id`, extending `extends` when given.
pub fn starter_toml(id: &str, extends: Option<&str>) -> (r: String)
    ensures
        r@ == starter_spec(
            id@,
            match extends {
                Some(p) => Some(p@),
                None => None,
            },
        ),
{
    let title = starter_title_of(id);
    let mut s = String::from_str(STARTER_HEAD);
    s.append(id);
    s.append(STARTER_NAME);
    s.append(title.as_str());
    s.append(STARTER_META);
    match extends {
        Some(parent) => {
            s.append(STARTER_EXTENDS);
            s.append(parent);
            s.append(STARTER_CHILD_COLORS);
        },
        None => {
            s.append(STARTER_FULL_COLORS);
        },
    }
    s
}


/// Law: a starter file's head (schema, ID, display name and empty metadata)
/// is the same whether or not the theme extends a parent, and its display
/// name is the title of the new theme's own ID, whatever the parent; a child
/// starter then names its parent in `extends`.
pub proof fn law_starter_names_the_new_theme(id: Seq<char>, parent: Seq<char>)
    ensures
        ({
            let head = STARTER_HEAD@ + id + STARTER_NAME@ + starter_title(id) + STARTER_META@;
            &&& starter_spec(id, Some(parent)).take(head.len() as int) == head
            &&& starter_spec(id, None).take(head.len() as int) == head
            &&& starter_spec(id, Some(parent)).skip(head.len() as int).take(
                (STARTER_EXTENDS@.len() + parent.len()) as int,
            ) == STARTER_EXTENDS@ + parent
        }),
{
    let head = STARTER_HEAD@ + id + STARTER_NAME@ + starter_title(id) + STARTER_META@;
    assert(starter_spec(id, Some(parent)).skip(head.len() as int).take(
        (STARTER_EXTENDS@.len() + parent.len()) as int,
    ) =~= STARTER_EXTENDS@ + parent);
    assert(starter_spec(id, Some(parent)).take(head.len() as int) =~= head);
    assert(starter_spec(id, None).take(head.len() as int) =~= head);
}

/// Law: a theme counts as a dependent of `parent` exactly when some theme
/// with that ID extends exactly `parent`.
pub proof fn law_dependents_extend_exactly_the_parent(
    themes: Seq<(Seq<char>, Option<Seq<char>>)>,
    parent: Seq<char>,
    x: Seq<char>,
)
    ensures
        dependents_spec(themes, parent).contains(x) <==> exists|i: int|
            0 <= i < themes.len() && (#[trigger] themes[i]).0 == x && themes[i].1 == Some(parent),
    decreases themes.len(),
{
    if themes.len() > 0 {
        let init = themes.drop_last();
        law_dependents_extend_exactly_the_parent(init, parent, x);
        let rest = dependents_spec(init, parent);
        let extends_parent = themes.last().1 == Some(parent);
        if extends_parent {
            assert(rest.push(themes.last().0).contains(x) <==> (rest.contains(x) || themes.last().0
                == x)) by {
                if rest.push(themes.last().0).contains(x) {
                    let k = choose|k: int| 0 <= k < rest.len() + 1 && rest.push(themes.last().0)[k] == x;
                    if k < rest.len() {
                        assert(rest[k] == x);
                    }
                }
                if rest.contains(x) {
                    let k = choose|k: int| 0 <= k < rest.len() && rest[k] == x;
                    assert(rest.push(themes.last().0)[k] == x);
                }
                if themes.last().0 == x {
                    assert(rest.push(themes.last().0)[rest.len() as int] == x);
                }
            }
        }
        if exists|i: int| 0 <= i < themes.len() && (#[trigger] themes[i]).0 == x && themes[i].1 == Some(parent) {
            let i = choose|i: int| 0 <= i < themes.len() && (#[trigger] themes[i]).0 == x && themes[i].1 == Some(parent);
            if i < init.len() {
                assert(init[i] == themes[i]);
            }
        }
        assert forall|i: int| 0 <= i < init.len() && (#[trigger] init[i]).0 == x && init[i].1 == Some(parent)
            implies themes[i].0 == x && themes[i].1 == Some(parent) by {
            assert(init[i] == themes[i]);
        }
    }
}

} // verus!
