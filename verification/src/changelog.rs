//! The inline markdown of release notes and the classification of their lines:
//! `**bold**` keeps its emphasis, `` `code` `` markers are dropped, and
//! `[text](url)` becomes a segment carrying its URL.
use vstd::prelude::*;
use vstd::utf8::encode_utf8;
use crate::text::{
    chars_of, find, find_from, lemma_find_from, lemma_skip_ws_from, skip_char,
    skip_ws, skip_ws_from, string_of, sub_chars, trim, trim_chars, trim_start, trim_start_char,
    utf8_len_prefix, is_ws, lemma_trim_ends, lemma_encode_utf8_append, lemma_encode_utf8_len_ge,
};

verus! {

/// One run of inline text from a release note, with the URL it points at if it
/// came from a markdown link and the emphasis to preserve.
#[derive(Debug, Clone, PartialEq)]
pub struct Seg {
    pub text: String,
    pub url: Option<String>,
    pub bold: bool,
}

/// The mathematical value of a [`Seg`].
pub struct SegView {
    pub text: Seq<char>,
    pub url: Option<Seq<char>>,
    pub bold: bool,
}

pub open spec fn opt_view(o: Option<String>) -> Option<Seq<char>> {
    match o {
        Some(u) => Some(u@),
        None => None,
    }
}

impl View for Seg {
    type V = SegView;

    open spec fn view(&self) -> SegView {
        SegView { text: self.text@, url: opt_view(self.url), bold: self.bold }
    }
}

pub open spec fn segs_view(v: Seq<Seg>) -> Seq<SegView> {
    v.map_values(|g: Seg| g@)
}

impl Seg {
    /// A plain run: no link, no emphasis.
    pub fn plain(text: &str) -> (r: Seg)
        ensures
            r@ == (SegView { text: text@, url: None, bold: false }),
    {
        Seg { text: String::from_str(text), url: None, bold: false }
    }
}

// ───────────────────────── the specification ─────────────────────────

/// The buffered plain run, appended as a segment when it is not empty.
pub open spec fn flush(out: Seq<SegView>, buf: Seq<char>, bold: bool) -> Seq<SegView> {
    if buf.len() == 0 {
        out
    } else {
        out.push(SegView { text: buf, url: None, bold })
    }
}

/// `s[i..]` starts a `**` emphasis marker.
pub open spec fn bold_marker_at(s: Seq<char>, i: int) -> bool {
    0 <= i && i + 1 < s.len() && s[i] == '*' && s[i + 1] == '*'
}

/// `s[i..]` starts a complete `[label](url)` link: the positions of its `]`
/// and of its `)`.
pub open spec fn link_at(s: Seq<char>, i: int) -> Option<(int, int)> {
    if 0 <= i < s.len() && s[i] == '[' {
        match find_from(s, i + 1, ']') {
            Some(close) => if close + 1 < s.len() && s[close + 1] == '(' {
                match find_from(s, close + 2, ')') {
                    Some(paren) => Some((close, paren)),
                    None => None,
                }
            } else {
                None
            },
            None => None,
        }
    } else {
        None
    }
}

pub proof fn lemma_link_at(s: Seq<char>, i: int)
    requires
        0 <= i,
    ensures
        link_at(s, i) matches Some((close, paren)) ==> i < close && close + 1 < paren && paren
            < s.len() && s[i] == '[' && s[close] == ']' && s[close + 1] == '(' && s[paren] == ')',
{
    lemma_find_from(s, i + 1, ']');
    if let Some(close) = find_from(s, i + 1, ']') {
        lemma_find_from(s, close + 2, ')');
    }
}

/// The plain text of a list of segments: their texts, in order.
pub open spec fn plain_text(segs: Seq<SegView>) -> Seq<char>
    decreases segs.len(),
{
    if segs.len() == 0 {
        Seq::empty()
    } else {
        plain_text(segs.drop_last()) + segs.last().text
    }
}

/// Scanning `s` from `i`, with segments `out` emitted so far, the plain run
/// `buf` pending and the emphasis `bold` in force: the final list of segments.
pub open spec fn scan(s: Seq<char>, i: int, out: Seq<SegView>, buf: Seq<char>, bold: bool) -> Seq<
    SegView,
>
    decreases s.len(), s.len() - i,
{
    if i < 0 || i >= s.len() {
        flush(out, buf, bold)
    } else if bold_marker_at(s, i) {
        scan(s, i + 2, flush(out, buf, bold), Seq::empty(), !bold)
    } else if s[i] == '`' {
        scan(s, i + 1, out, buf, bold)
    } else if link_at(s, i) is Some {
        let (close, paren) = link_at(s, i)->0;
        proof {
            lemma_link_at(s, i);
        }
        let label = s.subrange(i + 1, close);
        let url = trim(s.subrange(close + 2, paren));
        let text = plain_text(scan(label, 0, Seq::empty(), Seq::empty(), false));
        let out1 = flush(out, buf, bold);
        if text.len() == 0 || url.len() == 0 {
            scan(s, paren + 1, out1, text, bold)
        } else {
            scan(s, paren + 1, out1.push(SegView { text, url: Some(url), bold }), Seq::empty(), bold)
        }
    } else {
        scan(s, i + 1, out, buf.push(s[i]), bold)
    }
}

/// The segments of the inline markdown `s`.
pub open spec fn inline_spec(s: Seq<char>) -> Seq<SegView> {
    scan(s, 0, Seq::empty(), Seq::empty(), false)
}

/// The plain text of the inline markdown `s`.
pub open spec fn strip_spec(s: Seq<char>) -> Seq<char> {
    plain_text(inline_spec(s))
}

// ───────────────────────── the parser ─────────────────────────

/// Appends the pending plain run, if any, as a segment.
fn flush_buf(out: &mut Vec<Seg>, buf: &mut Vec<char>, bold: bool)
    ensures
        segs_view(final(out)@) == flush(segs_view(old(out)@), old(buf)@, bold),
        final(buf)@ == Seq::<char>::empty(),
{
    if buf.len() > 0 {
        let text = string_of(buf);
        let ghost before = out@;
        out.push(Seg { text, url: None, bold });
        assert(segs_view(out@) =~= segs_view(before).push(out@.last()@));
    } else {
        assert(segs_view(out@) =~= flush(segs_view(out@), buf@, bold));
    }
    *buf = Vec::new();
}

/// The texts of `segs`, concatenated.
fn texts_of(segs: &Vec<Seg>) -> (r: Vec<char>)
    ensures
        r@ == plain_text(segs_view(segs@)),
{
    let mut out: Vec<char> = Vec::new();
    let mut k: usize = 0;
    while k < segs.len()
        invariant
            k <= segs@.len(),
            out@ == plain_text(segs_view(segs@.take(k as int))),
        decreases segs@.len() - k,
    {
        let t = chars_of(segs[k].text.as_str());
        let mut j: usize = 0;
        let ghost start = out@;
        while j < t.len()
            invariant
                j <= t@.len(),
                out@ == start + t@.take(j as int),
            decreases t@.len() - j,
        {
            out.push(t[j]);
            j = j + 1;
            assert(t@.take(j as int) =~= t@.take(j - 1).push(t@[j - 1]));
        }
        assert(t@.take(t@.len() as int) =~= t@);
        assert(segs_view(segs@.take(k + 1)).drop_last() =~= segs_view(segs@.take(k as int)));
        k = k + 1;
    }
    assert(segs@.take(segs@.len() as int) =~= segs@);
    out
}

/// Parses the inline markdown held in `cs`.
fn parse_inline(cs: &Vec<char>) -> (r: Vec<Seg>)
    ensures
        segs_view(r@) == inline_spec(cs@),
    decreases cs@.len(),
{
    let mut out: Vec<Seg> = Vec::new();
    let mut buf: Vec<char> = Vec::new();
    let mut i: usize = 0;
    let mut bold = false;
    assert(segs_view(out@) =~= Seq::<SegView>::empty());
    while i < cs.len()
        invariant
            i <= cs@.len(),
            scan(cs@, i as int, segs_view(out@), buf@, bold) == inline_spec(cs@),
        decreases cs@.len() - i,
    {
        let c = cs[i];
        if c == '*' && i + 1 < cs.len() && cs[i + 1] == '*' {
            flush_buf(&mut out, &mut buf, bold);
            bold = !bold;
            i = i + 2;
            continue;
        }
        if c == '`' {
            i = i + 1;
            continue;
        }
        if c == '[' {
            proof {
                lemma_link_at(cs@, i as int);
            }
            if let Some(close) = find(cs, i + 1, ']') {
                proof {
                    lemma_find_from(cs@, i + 1, ']');
                }
                if close + 1 < cs.len() && cs[close + 1] == '(' {
                    if let Some(paren) = find(cs, close + 2, ')') {
                        proof {
                            lemma_find_from(cs@, close + 2, ')');
                        }
                        let label = sub_chars(cs, i + 1, close);
                        let raw_url = sub_chars(cs, close + 2, paren);
                        flush_buf(&mut out, &mut buf, bold);
                        let inner = parse_inline(&label);
                        let text = texts_of(&inner);
                        let url = trim_chars(&raw_url);
                        if text.len() == 0 || url.len() == 0 {
                            buf = text;
                        } else {
                            let ghost before = out@;
                            out.push(Seg { text: string_of(&text), url: Some(string_of(&url)), bold });
                            assert(segs_view(out@) =~= segs_view(before).push(out@.last()@));
                        }
                        i = paren + 1;
                        continue;
                    }
                }
            }
        }
        buf.push(c);
        i = i + 1;
    }
    flush_buf(&mut out, &mut buf, bold);
    out
}

/// Parses the inline markdown a release note uses into display segments:
/// `**bold**` keeps its emphasis, `` `code` `` markers are dropped, and
/// `[text](url)` becomes a segment carrying its URL. Everything else passes
/// through unchanged.
pub fn inline(s: &str) -> (r: Vec<Seg>)
    ensures
        segs_view(r@) == inline_spec(s@),
{
    let cs = chars_of(s);
    parse_inline(&cs)
}

/// The plain text of some inline markdown, links flattened to their label.
pub fn strip_inline(s: &str) -> (r: String)
    ensures
        r@ == strip_spec(s@),
{
    let segs = inline(s);
    let t = texts_of(&segs);
    string_of(&t)
}


// ───────────────────────── line classification ─────────────────────────

/// A parsed body line, classified for the renderer.
pub enum Block {
    /// A section heading (`##`/`###`…), with the `#`s stripped.
    Heading(String),
    /// A bullet item; `depth` is the indent level (0 = top).
    Bullet { depth: usize, segs: Vec<Seg> },
    /// A normal paragraph line.
    Para(Vec<Seg>),
    /// A blank spacer.
    Blank,
}

/// The mathematical value of a [`Block`].
pub enum BlockView {
    Heading(Seq<char>),
    Bullet { depth: nat, segs: Seq<SegView> },
    Para(Seq<SegView>),
    Blank,
}

impl View for Block {
    type V = BlockView;

    open spec fn view(&self) -> BlockView {
        match self {
            Block::Heading(h) => BlockView::Heading(h@),
            Block::Bullet { depth, segs } => BlockView::Bullet {
                depth: *depth as nat,
                segs: segs_view(segs@),
            },
            Block::Para(segs) => BlockView::Para(segs_view(segs@)),
            Block::Blank => BlockView::Blank,
        }
    }
}

/// `t` opens with a bullet marker, `- ` or `* `.
pub open spec fn bullet_marker(t: Seq<char>) -> bool {
    t.len() >= 2 && (t[0] == '-' || t[0] == '*') && t[1] == ' '
}

/// How the raw markdown line `raw` is classified.
pub open spec fn classify_spec(raw: Seq<char>) -> BlockView {
    let t = trim_start(raw);
    if trim(raw).len() == 0 {
        BlockView::Blank
    } else if t[0] == '#' {
        BlockView::Heading(strip_spec(trim(trim_start_char(t.drop_first(), '#'))))
    } else if bullet_marker(t) {
        // The indent counts the bytes of the leading whitespace, two per level.
        let indent = encode_utf8(raw.take(skip_ws_from(raw, 0))).len();
        BlockView::Bullet { depth: indent / 2, segs: inline_spec(trim(t.skip(2))) }
    } else {
        BlockView::Para(inline_spec(t))
    }
}

/// A UTF-8 text whose encoding fits the address space, as every `&str` does.
pub open spec fn fits_in_memory(s: Seq<char>) -> bool {
    encode_utf8(s).len() <= usize::MAX
}

/// Classifies one raw markdown line, with inline markdown already parsed.
/// Headings flatten to plain text: they are styling, never links.
pub fn classify(raw: &str) -> (r: Block)
    requires
        fits_in_memory(raw@),
    ensures
        r@ == classify_spec(raw@),
{
    let cs = chars_of(raw);
    classify_chars(&cs)
}

/// [`classify`] on the characters of a line.
pub fn classify_chars(cs: &Vec<char>) -> (r: Block)
    requires
        fits_in_memory(cs@),
    ensures
        r@ == classify_spec(cs@),
{
    let a = skip_ws(cs, 0);
    let t = sub_chars(cs, a, cs.len());
    let whole = trim_chars(cs);
    proof {
        lemma_skip_ws_from(cs@, 0);
        assert(t@ == trim_start(cs@));
    }
    if whole.len() == 0 {
        return Block::Blank;
    }
    proof {
        // A line that is not blank keeps a character after its indent.
        if t@.len() == 0 {
            assert(trim_start(cs@) =~= Seq::<char>::empty());
            assert(trim(cs@) =~= Seq::<char>::empty());
        }
    }
    if t[0] == '#' {
        let rest = sub_chars(&t, 1, t.len());
        let k = skip_char(&rest, 0, '#');
        let hashes_gone = sub_chars(&rest, k, rest.len());
        let heading = trim_chars(&hashes_gone);
        let segs = parse_inline(&heading);
        let text = texts_of(&segs);
        proof {
            assert(rest@ =~= t@.drop_first());
            assert(hashes_gone@ == trim_start_char(rest@, '#'));
        }
        return Block::Heading(string_of(&text));
    }
    if t.len() >= 2 && (t[0] == '-' || t[0] == '*') && t[1] == ' ' {
        let indent = utf8_len_prefix(cs, a);
        let rest = sub_chars(&t, 2, t.len());
        let body = trim_chars(&rest);
        let segs = parse_inline(&body);
        proof {
            assert(rest@ =~= t@.skip(2));
        }
        return Block::Bullet { depth: indent / 2, segs };
    }
    Block::Para(parse_inline(&t))
}


/// A bullet's indent, two bytes per level plus the marker, fits in a `usize`.
pub proof fn lemma_bullet_indent_fits(raw: Seq<char>)
    requires
        fits_in_memory(raw),
        classify_spec(raw) is Bullet,
    ensures
        (classify_spec(raw)->depth) * 2 + 2 <= usize::MAX,
{
    let a = skip_ws_from(raw, 0);
    lemma_skip_ws_from(raw, 0);
    assert(raw =~= raw.take(a) + raw.skip(a));
    lemma_encode_utf8_append(raw.take(a), raw.skip(a));
    lemma_encode_utf8_len_ge(raw.skip(a));
}

// ───────────────────────── laws ─────────────────────────

/// Every segment carries text, and a linked segment carries a non-empty URL
/// with no surrounding whitespace.
pub open spec fn well_formed_segs(segs: Seq<SegView>) -> bool {
    forall|k: int|
        0 <= k < segs.len() ==> {
            &&& (#[trigger] segs[k]).text.len() > 0
            &&& segs[k].url matches Some(u) ==> u.len() > 0 && !is_ws(u[0]) && !is_ws(u.last())
        }
}

proof fn lemma_scan_well_formed(s: Seq<char>, i: int, out: Seq<SegView>, buf: Seq<char>, bold: bool)
    requires
        well_formed_segs(out),
    ensures
        well_formed_segs(scan(s, i, out, buf, bold)),
    decreases s.len(), s.len() - i,
{
    if i < 0 || i >= s.len() {
    } else if bold_marker_at(s, i) {
        lemma_scan_well_formed(s, i + 2, flush(out, buf, bold), Seq::empty(), !bold);
    } else if s[i] == '`' {
        lemma_scan_well_formed(s, i + 1, out, buf, bold);
    } else if link_at(s, i) is Some {
        let (close, paren) = link_at(s, i)->0;
        lemma_link_at(s, i);
        let label = s.subrange(i + 1, close);
        let url = trim(s.subrange(close + 2, paren));
        let text = plain_text(scan(label, 0, Seq::empty(), Seq::empty(), false));
        let out1 = flush(out, buf, bold);
        lemma_trim_ends(s.subrange(close + 2, paren));
        if text.len() == 0 || url.len() == 0 {
            lemma_scan_well_formed(s, paren + 1, out1, text, bold);
        } else {
            let seg = SegView { text, url: Some(url), bold };
            assert(well_formed_segs(out1.push(seg)));
            lemma_scan_well_formed(s, paren + 1, out1.push(seg), Seq::empty(), bold);
        }
    } else {
        lemma_scan_well_formed(s, i + 1, out, buf.push(s[i]), bold);
    }
}

/// Law: no segment that `inline` produces is empty, and every link segment
/// points at a non-empty, trimmed URL (a link with no label or no target
/// degrades to plain text).
pub proof fn law_inline_segments_well_formed(s: Seq<char>)
    ensures
        well_formed_segs(inline_spec(s)),
{
    lemma_scan_well_formed(s, 0, Seq::empty(), Seq::empty(), false);
}

/// `s` holds none of the inline markup: no backtick, no `[` and no `**`.
pub open spec fn markup_free(s: Seq<char>) -> bool {
    forall|k: int| 0 <= k < s.len() ==> #[trigger] s[k] != '`' && s[k] != '[' && !bold_marker_at(s, k)
}

proof fn lemma_scan_markup_free(s: Seq<char>, i: int)
    requires
        markup_free(s),
        0 <= i <= s.len(),
    ensures
        scan(s, i, Seq::empty(), s.take(i), false) == flush(Seq::empty(), s, false),
    decreases s.len() - i,
{
    if i == s.len() {
        assert(s.take(i) =~= s);
    } else {
        assert(s[i] != '`' && s[i] != '[' && !bold_marker_at(s, i));
        assert(s.take(i).push(s[i]) =~= s.take(i + 1));
        lemma_scan_markup_free(s, i + 1);
    }
}

/// Law: text without markup passes through unchanged, as one plain segment
/// (or none, when it is empty), so its plain text is the text itself.
pub proof fn law_inline_passes_plain_text(s: Seq<char>)
    requires
        markup_free(s),
    ensures
        inline_spec(s) == (if s.len() == 0 {
            Seq::<SegView>::empty()
        } else {
            seq![SegView { text: s, url: None, bold: false }]
        }),
        strip_spec(s) == s,
{
    assert(s.take(0) =~= Seq::<char>::empty());
    lemma_scan_markup_free(s, 0);
    if s.len() == 0 {
        assert(flush(Seq::empty(), s, false) =~= Seq::<SegView>::empty());
    } else {
        let one = seq![SegView { text: s, url: None, bold: false }];
        assert(flush(Seq::empty(), s, false) =~= one);
        assert(one.drop_last() =~= Seq::<SegView>::empty());
        assert(plain_text(Seq::<SegView>::empty()) =~= Seq::<char>::empty());
        assert(plain_text(one) =~= Seq::<char>::empty() + s);
    }
}


proof fn lemma_plain_text_push(out: Seq<SegView>, seg: SegView)
    ensures
        plain_text(out.push(seg)) == plain_text(out) + seg.text,
{
    assert(out.push(seg).drop_last() =~= out);
}

proof fn lemma_flush_len(out: Seq<SegView>, buf: Seq<char>, bold: bool)
    ensures
        plain_text(flush(out, buf, bold)).len() == plain_text(out).len() + buf.len(),
{
    if buf.len() > 0 {
        lemma_plain_text_push(out, SegView { text: buf, url: None, bold });
    }
}

proof fn lemma_scan_len(s: Seq<char>, i: int, out: Seq<SegView>, buf: Seq<char>, bold: bool)
    requires
        0 <= i <= s.len(),
    ensures
        plain_text(scan(s, i, out, buf, bold)).len() <= plain_text(out).len() + buf.len() + (s.len()
            - i),
    decreases s.len(), s.len() - i,
{
    if i >= s.len() {
        lemma_flush_len(out, buf, bold);
    } else if bold_marker_at(s, i) {
        lemma_flush_len(out, buf, bold);
        lemma_scan_len(s, i + 2, flush(out, buf, bold), Seq::empty(), !bold);
    } else if s[i] == '`' {
        lemma_scan_len(s, i + 1, out, buf, bold);
    } else if link_at(s, i) is Some {
        let (close, paren) = link_at(s, i)->0;
        lemma_link_at(s, i);
        let label = s.subrange(i + 1, close);
        let url = trim(s.subrange(close + 2, paren));
        let text = plain_text(scan(label, 0, Seq::empty(), Seq::empty(), false));
        let out1 = flush(out, buf, bold);
        lemma_scan_len(label, 0, Seq::empty(), Seq::empty(), false);
        assert(plain_text(Seq::<SegView>::empty()) =~= Seq::<char>::empty());
        lemma_flush_len(out, buf, bold);
        if text.len() == 0 || url.len() == 0 {
            lemma_scan_len(s, paren + 1, out1, text, bold);
        } else {
            let seg = SegView { text, url: Some(url), bold };
            lemma_plain_text_push(out1, seg);
            lemma_scan_len(s, paren + 1, out1.push(seg), Seq::empty(), bold);
        }
    } else {
        lemma_scan_len(s, i + 1, out, buf.push(s[i]), bold);
    }
}

/// Law: flattening inline markdown never lengthens it: markers are dropped,
/// links shrink to their labels, and every other character is kept once.
pub proof fn law_strip_is_never_longer(s: Seq<char>)
    ensures
        strip_spec(s).len() <= s.len(),
{
    lemma_scan_len(s, 0, Seq::empty(), Seq::empty(), false);
    assert(plain_text(Seq::<SegView>::empty()) =~= Seq::<char>::empty());
}


proof fn lemma_find_first(s: Seq<char>, i: int, k: int, c: char)
    requires
        0 <= i <= k < s.len(),
        s[k] == c,
        forall|j: int| i <= j < k ==> s[j] != c,
    ensures
        find_from(s, i, c) == Some(k),
    decreases k - i,
{
    if i < k {
        lemma_find_first(s, i + 1, k, c);
    }
}

/// Law: a link keeps the emphasis in force at its `[`. Bold text holding just
/// a link, `**[label](url)**`, with a plain label (no markup, no `]`) and a
/// trimmed, non-empty URL without `)`, is exactly one segment: the label,
/// linked to the URL, in bold.
pub proof fn law_link_keeps_emphasis(label: Seq<char>, url: Seq<char>)
    requires
        label.len() > 0,
        markup_free(label),
        forall|k: int| 0 <= k < label.len() ==> #[trigger] label[k] != ']',
        url.len() > 0,
        forall|k: int| 0 <= k < url.len() ==> #[trigger] url[k] != ')',
        !is_ws(url[0]),
        !is_ws(url.last()),
    ensures
        inline_spec(seq!['*', '*', '['] + label + seq![']', '('] + url + seq![')', '*', '*']) == seq![
            SegView { text: label, url: Some(url), bold: true },
        ],
{
    let n = label.len() as int;
    let m = url.len() as int;
    let s = seq!['*', '*', '['] + label + seq![']', '('] + url + seq![')', '*', '*'];
    assert(s.len() == n + m + 8);
    assert forall|j: int| 3 <= j < 3 + n implies s[j] == label[j - 3] by {}
    assert forall|j: int| 5 + n <= j < 5 + n + m implies s[j] == url[j - 5 - n] by {}
    assert(s[0] == '*' && s[1] == '*' && s[2] == '[');
    assert(s[3 + n] == ']' && s[4 + n] == '(');
    assert(s[5 + n + m] == ')' && s[6 + n + m] == '*' && s[7 + n + m] == '*');
    // The label and its URL.
    assert forall|j: int| 3 <= j < 3 + n implies s[j] != ']' by {
        assert(s[j] == label[j - 3]);
    }
    lemma_find_first(s, 3, 3 + n, ']');
    assert forall|j: int| 5 + n <= j < 5 + n + m implies s[j] != ')' by {
        assert(s[j] == url[j - 5 - n]);
    }
    lemma_find_first(s, 5 + n, 5 + n + m, ')');
    assert(link_at(s, 2) == Some((3 + n, 5 + n + m)));
    assert(s.subrange(3, 3 + n) =~= label);
    assert(s.subrange(5 + n, 5 + n + m) =~= url);
    law_inline_passes_plain_text(label);
    assert(strip_spec(label) == label);
    assert(crate::text::skip_ws_from(url, 0) == 0);
    assert(crate::text::trim_start(url) =~= url);
    assert(crate::text::drop_ws_before(url, m) == m);
    assert(crate::text::trim_end(url) =~= url);
    assert(trim(url) == url);
    let seg = SegView { text: label, url: Some(url), bold: true };
    let empty_segs = Seq::<SegView>::empty();
    let empty = Seq::<char>::empty();
    // `**` opens the emphasis, the link is one bold segment, `**` closes it.
    assert(scan(s, 8 + n + m, seq![seg], empty, false) == seq![seg]);
    assert(bold_marker_at(s, 6 + n + m));
    assert(scan(s, 6 + n + m, seq![seg], empty, true) == scan(s, 8 + n + m, seq![seg], empty, false));
    assert(!bold_marker_at(s, 2));
    assert(flush(empty_segs, empty, true) == empty_segs);
    assert(empty_segs.push(seg) =~= seq![seg]);
    assert(scan(s, 2, empty_segs, empty, true) == scan(s, 6 + n + m, seq![seg], empty, true));
    assert(bold_marker_at(s, 0));
    assert(scan(s, 0, empty_segs, empty, false) == scan(s, 2, empty_segs, empty, true));
}


/// Law: outside emphasis a link is a plain-weight segment: `[label](url)`,
/// with a plain label (no markup, no `]`) and a trimmed, non-empty URL
/// without `)`, is exactly one segment: the label, linked to the URL, not bold.
pub proof fn law_link_outside_emphasis(label: Seq<char>, url: Seq<char>)
    requires
        label.len() > 0,
        markup_free(label),
        forall|k: int| 0 <= k < label.len() ==> #[trigger] label[k] != ']',
        url.len() > 0,
        forall|k: int| 0 <= k < url.len() ==> #[trigger] url[k] != ')',
        !is_ws(url[0]),
        !is_ws(url.last()),
    ensures
        inline_spec(seq!['['] + label + seq![']', '('] + url + seq![')']) == seq![
            SegView { text: label, url: Some(url), bold: false },
        ],
{
    let n = label.len() as int;
    let m = url.len() as int;
    let s = seq!['['] + label + seq![']', '('] + url + seq![')'];
    assert(s.len() == n + m + 4);
    assert(s[0] == '[' && s[1 + n] == ']' && s[2 + n] == '(' && s[3 + n + m] == ')');
    assert forall|j: int| 1 <= j < 1 + n implies s[j] != ']' by {
        assert(s[j] == label[j - 1]);
    }
    lemma_find_first(s, 1, 1 + n, ']');
    assert forall|j: int| 3 + n <= j < 3 + n + m implies s[j] != ')' by {
        assert(s[j] == url[j - 3 - n]);
    }
    lemma_find_first(s, 3 + n, 3 + n + m, ')');
    assert(link_at(s, 0) == Some((1 + n, 3 + n + m)));
    assert(s.subrange(1, 1 + n) =~= label);
    assert(s.subrange(3 + n, 3 + n + m) =~= url);
    law_inline_passes_plain_text(label);
    assert(crate::text::skip_ws_from(url, 0) == 0);
    assert(crate::text::trim_start(url) =~= url);
    assert(crate::text::drop_ws_before(url, m) == m);
    assert(crate::text::trim_end(url) =~= url);
    let seg = SegView { text: label, url: Some(url), bold: false };
    let empty_segs = Seq::<SegView>::empty();
    let empty = Seq::<char>::empty();
    assert(scan(s, 4 + n + m, seq![seg], empty, false) == seq![seg]);
    assert(!bold_marker_at(s, 0));
    assert(empty_segs.push(seg) =~= seq![seg]);
    assert(scan(s, 0, empty_segs, empty, false) == scan(s, 4 + n + m, seq![seg], empty, false));
}

} // verus!
