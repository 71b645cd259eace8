//! The release-notes view: greedy word wrapping, and the flattening of release
//! notes into the styled, wrapped lines the changelog modal shows.
use vstd::prelude::*;
use crate::changelog::{
    classify_chars, classify_spec, fits_in_memory, lemma_bullet_indent_fits, plain_text, segs_view,
    Block, BlockView, Seg,
};
use crate::text::{
    chars_of, find, find_from, is_whitespace, is_ws, lemma_encode_utf8_subrange, lemma_find_from,
    push_char, push_chars, string_of, sub_chars,
};
use crate::theme::strings_view;

verus! {

// ───────────────────────── display width ─────────────────────────

/// The number of terminal columns `s` takes.
pub uninterp spec fn display_width_of(s: Seq<char>) -> nat;

/// Calls `unicode_width::UnicodeWidthStr::width`. The result is named
/// `display_width_of` the text; the contract claims nothing more (the width of
/// a text is not, in general, the sum of the widths of its characters).
#[verifier::external_body]
fn display_width(s: &str) -> (r: usize)
    ensures
        r == display_width_of(s@),
{
    unicode_width::UnicodeWidthStr::width(s)
}

// ───────────────────────── words ─────────────────────────

/// The maximal runs of non-whitespace in `s[i..]`, given the run `cur` being
/// read and the runs `acc` already complete.
pub open spec fn ws_words_from(s: Seq<char>, i: int, cur: Seq<char>, acc: Seq<Seq<char>>) -> Seq<
    Seq<char>,
>
    decreases s.len() - i,
{
    let done = if cur.len() > 0 {
        acc.push(cur)
    } else {
        acc
    };
    if i < 0 || i >= s.len() {
        done
    } else if is_ws(s[i]) {
        ws_words_from(s, i + 1, Seq::empty(), done)
    } else {
        ws_words_from(s, i + 1, cur.push(s[i]), acc)
    }
}

/// `str::split_whitespace`: the words of `s`.
pub open spec fn split_ws(s: Seq<char>) -> Seq<Seq<char>> {
    ws_words_from(s, 0, Seq::empty(), Seq::empty())
}

/// Every word is non-empty and free of whitespace.
pub open spec fn proper_words(ws: Seq<Seq<char>>) -> bool {
    forall|k: int|
        0 <= k < ws.len() ==> (#[trigger] ws[k]).len() > 0 && forall|m: int|
            0 <= m < ws[k].len() ==> !is_ws(#[trigger] ws[k][m])
}

proof fn lemma_ws_words_proper(s: Seq<char>, i: int, cur: Seq<char>, acc: Seq<Seq<char>>)
    requires
        0 <= i,
        proper_words(acc),
        forall|m: int| 0 <= m < cur.len() ==> !is_ws(#[trigger] cur[m]),
    ensures
        proper_words(ws_words_from(s, i, cur, acc)),
    decreases s.len() - i,
{
    let done = if cur.len() > 0 {
        acc.push(cur)
    } else {
        acc
    };
    assert(proper_words(done));
    if i < s.len() {
        if is_ws(s[i]) {
            lemma_ws_words_proper(s, i + 1, Seq::empty(), done);
        } else {
            let c2 = cur.push(s[i]);
            assert forall|m: int| 0 <= m < c2.len() implies !is_ws(#[trigger] c2[m]) by {
                if m < cur.len() {
                    assert(c2[m] == cur[m]);
                }
            }
            lemma_ws_words_proper(s, i + 1, c2, acc);
        }
    }
}

pub proof fn lemma_split_ws_proper(s: Seq<char>)
    ensures
        proper_words(split_ws(s)),
{
    lemma_ws_words_proper(s, 0, Seq::empty(), Seq::empty());
}

pub open spec fn chars_view(v: Seq<Vec<char>>) -> Seq<Seq<char>> {
    v.map_values(|w: Vec<char>| w@)
}

/// The words of `cs`, split on whitespace.
pub fn split_whitespace(cs: &Vec<char>) -> (r: Vec<Vec<char>>)
    ensures
        chars_view(r@) == split_ws(cs@),
{
    let mut out: Vec<Vec<char>> = Vec::new();
    let mut cur: Vec<char> = Vec::new();
    let mut i: usize = 0;
    assert(chars_view(out@) =~= Seq::<Seq<char>>::empty());
    while i < cs.len()
        invariant
            i <= cs@.len(),
            ws_words_from(cs@, i as int, cur@, chars_view(out@)) == split_ws(cs@),
        decreases cs@.len() - i,
    {
        let c = cs[i];
        if is_whitespace(c) {
            if cur.len() > 0 {
                let ghost before = out@;
                out.push(cur);
                assert(chars_view(out@) =~= chars_view(before).push(out@.last()@));
            }
            cur = Vec::new();
        } else {
            cur.push(c);
        }
        i = i + 1;
    }
    if cur.len() > 0 {
        let ghost before = out@;
        out.push(cur);
        assert(chars_view(out@) =~= chars_view(before).push(out@.last()@));
    }
    out
}

// ───────────────────────── wrapping ─────────────────────────

/// After the first `k` words: the lines complete so far and the line being
/// filled.
pub open spec fn wrap_state(ws: Seq<Seq<char>>, k: int, width: nat) -> (Seq<Seq<char>>, Seq<char>)
    decreases k,
{
    if k <= 0 {
        (Seq::empty(), Seq::empty())
    } else {
        let (lines, cur) = wrap_state(ws, k - 1, width);
        let w = ws[k - 1];
        if cur.len() == 0 {
            (lines, w)
        } else if display_width_of(cur) + 1 + display_width_of(w) <= width {
            (lines, cur + seq![' '] + w)
        } else {
            (lines.push(cur), w)
        }
    }
}

/// Greedy word wrap of `text` to `width` columns: words are packed onto a
/// line, one space apart, while the line's width, a space and the next word's
/// width stay within `width`; a word wider than `width` stands on its own
/// line. Width 0 leaves the text as it is; a text without words gives one
/// empty line.
pub open spec fn wrap_spec(text: Seq<char>, width: nat) -> Seq<Seq<char>> {
    if width == 0 {
        seq![text]
    } else {
        let ws = split_ws(text);
        let (lines, cur) = wrap_state(ws, ws.len() as int, width);
        let all = if cur.len() > 0 {
            lines.push(cur)
        } else {
            lines
        };
        if all.len() == 0 {
            seq![Seq::empty()]
        } else {
            all
        }
    }
}

/// Greedy word-wrap to `width` display columns. A word longer than `width` is
/// left on its own (over-long) line rather than split mid-word.
pub fn wrap(text: &str, width: usize) -> (r: Vec<String>)
    ensures
        crate::theme::strings_view(r@) == wrap_spec(text@, width as nat),
{
    if width == 0 {
        let r = vec![String::from_str(text)];
        assert(crate::theme::strings_view(r@) =~= seq![text@]);
        return r;
    }
    let cs = chars_of(text);
    let words = split_whitespace(&cs);
    let ghost ws = split_ws(text@);
    let mut lines: Vec<String> = Vec::new();
    let mut cur = String::new();
    let mut k: usize = 0;
    assert(crate::theme::strings_view(lines@) =~= Seq::<Seq<char>>::empty());
    while k < words.len()
        invariant
            k <= words@.len(),
            width > 0,
            chars_view(words@) == ws,
            ws == split_ws(text@),
            wrap_state(ws, k as int, width as nat) == (crate::theme::strings_view(lines@), cur@),
        decreases words@.len() - k,
    {
        let w = &words[k];
        assert(w@ == ws[k as int]);
        let ghost before = lines@;
        if cur.as_str().is_empty() {
            push_chars(&mut cur, w);
            assert(cur@ =~= w@);
        } else {
            let word = string_of(w);
            let dc = display_width(cur.as_str());
            let dw = display_width(word.as_str());
            if dc < width && dw <= width - dc - 1 {
                push_char(&mut cur, ' ');
                push_chars(&mut cur, w);
            } else {
                let full = cur;
                lines.push(full);
                assert(crate::theme::strings_view(lines@) =~= crate::theme::strings_view(before).push(
                    lines@.last()@,
                ));
                cur = String::new();
                push_chars(&mut cur, w);
                assert(cur@ =~= w@);
            }
        }
        k = k + 1;
    }
    if !cur.as_str().is_empty() {
        let ghost before = lines@;
        lines.push(cur);
        assert(crate::theme::strings_view(lines@) =~= crate::theme::strings_view(before).push(
            lines@.last()@,
        ));
    }
    if lines.len() == 0 {
        lines.push(String::new());
        assert(crate::theme::strings_view(lines@) =~= seq![Seq::<char>::empty()]);
    }
    lines
}

// ───────────────────────── laws of wrapping ─────────────────────────

/// Words joined by single spaces.
pub open spec fn join_spaced(ws: Seq<Seq<char>>) -> Seq<char>
    decreases ws.len(),
{
    if ws.len() == 0 {
        Seq::empty()
    } else if ws.len() == 1 {
        ws[0]
    } else {
        join_spaced(ws.drop_last()) + seq![' '] + ws.last()
    }
}

proof fn lemma_join_push(x: Seq<Seq<char>>, a: Seq<char>)
    ensures
        join_spaced(x.push(a)) == if x.len() == 0 {
            a
        } else {
            join_spaced(x) + seq![' '] + a
        },
{
    assert(x.push(a).drop_last() =~= x);
}

proof fn lemma_wrap_state_joins(ws: Seq<Seq<char>>, k: int, width: nat)
    requires
        proper_words(ws),
        0 < k <= ws.len(),
    ensures
        wrap_state(ws, k, width).1.len() > 0,
        join_spaced(wrap_state(ws, k, width).0.push(wrap_state(ws, k, width).1)) == join_spaced(
            ws.take(k),
        ),
    decreases k,
{
    let (lines, cur) = wrap_state(ws, k - 1, width);
    let w = ws[k - 1];
    assert(w.len() > 0);
    lemma_join_push(ws.take(k - 1), w);
    assert(ws.take(k) =~= ws.take(k - 1).push(w));
    if k == 1 {
        assert(ws.take(0) =~= Seq::<Seq<char>>::empty());
        lemma_join_push(Seq::<Seq<char>>::empty(), w);
    } else {
        lemma_wrap_state_joins(ws, k - 1, width);
        lemma_join_push(lines, cur);
        if display_width_of(cur) + 1 + display_width_of(w) <= width {
            let c2 = cur + seq![' '] + w;
            lemma_join_push(lines, c2);
            if lines.len() == 0 {
                assert(join_spaced(lines.push(c2)) =~= join_spaced(lines.push(cur)) + seq![' '] + w);
            } else {
                assert(join_spaced(lines.push(c2)) =~= join_spaced(lines.push(cur)) + seq![' '] + w);
            }
        } else {
            lemma_join_push(lines.push(cur), w);
        }
    }
}

/// Law: wrapping only chooses where lines break: the lines, joined by single
/// spaces, are the text's words joined by single spaces, so no word is lost,
/// split or reordered.
pub proof fn law_wrap_keeps_the_words(text: Seq<char>, width: nat)
    requires
        width > 0,
    ensures
        join_spaced(wrap_spec(text, width)) == join_spaced(split_ws(text)),
{
    let ws = split_ws(text);
    lemma_split_ws_proper(text);
    assert(ws.take(ws.len() as int) =~= ws);
    if ws.len() > 0 {
        lemma_wrap_state_joins(ws, ws.len() as int, width);
    } else {
        assert(join_spaced(seq![Seq::<char>::empty()]) =~= Seq::<char>::empty());
    }
}

/// Law: wrapping always yields at least one line.
pub proof fn law_wrap_is_never_empty(text: Seq<char>, width: nat)
    ensures
        wrap_spec(text, width).len() > 0,
{
}


/// The first word of a wrapped line: up to its first space.
pub open spec fn first_word(l: Seq<char>) -> Seq<char> {
    match find_from(l, 0, ' ') {
        Some(k) => l.take(k),
        None => l,
    }
}

/// Every line but the last ends where the next line's first word would no
/// longer fit after it.
pub open spec fn breaks_are_forced(lines: Seq<Seq<char>>, width: nat) -> bool {
    forall|j: int|
        0 <= j < lines.len() - 1 ==> display_width_of(#[trigger] lines[j]) + 1 + display_width_of(
            first_word(lines[j + 1]),
        ) > width
}

/// The word the line being filled, after `k` words, started with.
pub open spec fn line_start(ws: Seq<Seq<char>>, k: int, width: nat) -> Seq<char>
    decreases k,
{
    if k <= 1 {
        ws[0]
    } else {
        let (lines, cur) = wrap_state(ws, k - 1, width);
        let w = ws[k - 1];
        if display_width_of(cur) + 1 + display_width_of(w) <= width {
            line_start(ws, k - 1, width)
        } else {
            w
        }
    }
}

/// `x` is the word `fw` followed by nothing or by a space and more.
pub open spec fn opens_with_word(x: Seq<char>, fw: Seq<char>) -> bool {
    &&& fw.len() > 0
    &&& forall|m: int| 0 <= m < fw.len() ==> #[trigger] fw[m] != ' '
    &&& x.len() >= fw.len()
    &&& x.take(fw.len() as int) == fw
    &&& x.len() == fw.len() || x[fw.len() as int] == ' '
}

proof fn lemma_find_after_word(x: Seq<char>, fw: Seq<char>, i: int)
    requires
        opens_with_word(x, fw),
        0 <= i <= fw.len(),
    ensures
        find_from(x, i, ' ') == if x.len() == fw.len() {
            None::<int>
        } else {
            Some(fw.len() as int)
        },
    decreases fw.len() - i,
{
    if i < fw.len() {
        assert(x[i] == x.take(fw.len() as int)[i]);
        lemma_find_after_word(x, fw, i + 1);
    }
}

proof fn lemma_first_word_of(x: Seq<char>, fw: Seq<char>)
    requires
        opens_with_word(x, fw),
    ensures
        first_word(x) == fw,
{
    lemma_find_after_word(x, fw, 0);
    if x.len() == fw.len() {
        assert(x =~= x.take(fw.len() as int));
    }
}

proof fn lemma_word_has_no_space(ws: Seq<Seq<char>>, k: int)
    requires
        proper_words(ws),
        0 <= k < ws.len(),
    ensures
        forall|m: int| 0 <= m < ws[k].len() ==> #[trigger] ws[k][m] != ' ',
{
    assert forall|m: int| 0 <= m < ws[k].len() implies #[trigger] ws[k][m] != ' ' by {
        assert(!is_ws(ws[k][m]));
        assert(is_ws(' '));
    }
}

proof fn lemma_wrap_state_breaks(ws: Seq<Seq<char>>, k: int, width: nat)
    requires
        proper_words(ws),
        0 < k <= ws.len(),
    ensures
        opens_with_word(wrap_state(ws, k, width).1, line_start(ws, k, width)),
        breaks_are_forced(wrap_state(ws, k, width).0, width),
        wrap_state(ws, k, width).0.len() > 0 ==> display_width_of(wrap_state(ws, k, width).0.last())
            + 1 + display_width_of(line_start(ws, k, width)) > width,
    decreases k,
{
    let w = ws[k - 1];
    lemma_word_has_no_space(ws, k - 1);
    assert(w.len() > 0);
    if k == 1 {
        assert(wrap_state(ws, 0, width) == (Seq::<Seq<char>>::empty(), Seq::<char>::empty()));
        assert(w.take(w.len() as int) =~= w);
    } else {
        let (lines, cur) = wrap_state(ws, k - 1, width);
        lemma_wrap_state_breaks(ws, k - 1, width);
        let fw = line_start(ws, k - 1, width);
        assert(cur.len() > 0);
        if display_width_of(cur) + 1 + display_width_of(w) <= width {
            let c2 = cur + seq![' '] + w;
            assert(c2.take(fw.len() as int) =~= cur.take(fw.len() as int));
            if cur.len() == fw.len() {
                assert(c2[fw.len() as int] == ' ');
            } else {
                assert(c2[fw.len() as int] == cur[fw.len() as int]);
            }
        } else {
            let l2 = lines.push(cur);
            lemma_first_word_of(cur, fw);
            assert(w.take(w.len() as int) =~= w);
            assert forall|j: int| 0 <= j < l2.len() - 1 implies display_width_of(#[trigger] l2[j]) + 1
                + display_width_of(first_word(l2[j + 1])) > width by {
                if j + 1 < lines.len() {
                    assert(l2[j] == lines[j] && l2[j + 1] == lines[j + 1]);
                } else {
                    assert(l2[j] == lines.last());
                    assert(l2[j + 1] == cur);
                }
            }
        }
    }
}

/// Law: the wrap is greedy: a line ends only where the next line's first word
/// would not fit after it (line width, a space and the word's width past
/// `width`).
pub proof fn law_wrap_breaks_only_when_full(text: Seq<char>, width: nat)
    requires
        width > 0,
    ensures
        breaks_are_forced(wrap_spec(text, width), width),
{
    let ws = split_ws(text);
    lemma_split_ws_proper(text);
    if ws.len() > 0 {
        let k = ws.len() as int;
        lemma_wrap_state_breaks(ws, k, width);
        let (lines, cur) = wrap_state(ws, k, width);
        lemma_wrap_state_joins(ws, k, width);
        let all = lines.push(cur);
        lemma_first_word_of(cur, line_start(ws, k, width));
        assert forall|j: int| 0 <= j < all.len() - 1 implies display_width_of(#[trigger] all[j]) + 1
            + display_width_of(first_word(all[j + 1])) > width by {
            if j + 1 < lines.len() {
                assert(all[j] == lines[j] && all[j + 1] == lines[j + 1]);
            } else {
                assert(all[j] == lines.last());
                assert(all[j + 1] == cur);
            }
        }
    }
}

/// The characters of `s` that are not whitespace, in order.
pub open spec fn non_ws(s: Seq<char>) -> Seq<char>
    decreases s.len(),
{
    if s.len() == 0 {
        Seq::empty()
    } else {
        (if is_ws(s[0]) {
            Seq::empty()
        } else {
            seq![s[0]]
        }) + non_ws(s.drop_first())
    }
}

/// The words, concatenated with nothing between them.
pub open spec fn concat_words(ws: Seq<Seq<char>>) -> Seq<char>
    decreases ws.len(),
{
    if ws.len() == 0 {
        Seq::empty()
    } else {
        concat_words(ws.drop_last()) + ws.last()
    }
}

proof fn lemma_concat_push(ws: Seq<Seq<char>>, w: Seq<char>)
    ensures
        concat_words(ws.push(w)) == concat_words(ws) + w,
{
    assert(ws.push(w).drop_last() =~= ws);
}

proof fn lemma_ws_words_concat(s: Seq<char>, i: int, cur: Seq<char>, acc: Seq<Seq<char>>)
    requires
        0 <= i <= s.len(),
    ensures
        concat_words(ws_words_from(s, i, cur, acc)) == concat_words(acc) + cur + non_ws(s.skip(i)),
    decreases s.len() - i,
{
    let done = if cur.len() > 0 {
        acc.push(cur)
    } else {
        acc
    };
    lemma_concat_push(acc, cur);
    assert(concat_words(done) =~= concat_words(acc) + cur);
    if i == s.len() {
        assert(s.skip(i) =~= Seq::<char>::empty());
        assert(concat_words(acc) + cur + non_ws(s.skip(i)) =~= concat_words(acc) + cur);
    } else {
        assert(s.skip(i).drop_first() =~= s.skip(i + 1));
        assert(s.skip(i)[0] == s[i]);
        if is_ws(s[i]) {
            lemma_ws_words_concat(s, i + 1, Seq::empty(), done);
            assert(concat_words(done) + Seq::<char>::empty() + non_ws(s.skip(i + 1)) =~= concat_words(acc)
                + cur + non_ws(s.skip(i)));
        } else {
            lemma_ws_words_concat(s, i + 1, cur.push(s[i]), acc);
            assert(concat_words(acc) + cur.push(s[i]) + non_ws(s.skip(i + 1)) =~= concat_words(acc) + cur
                + non_ws(s.skip(i)));
        }
    }
}

/// Law: splitting into words drops exactly the whitespace: the words, put back
/// together, are the text's non-whitespace characters in order. So wrapping
/// (which keeps the words, `law_wrap_keeps_the_words`) never drops or alters a
/// character that is not whitespace.
pub proof fn law_words_are_the_non_whitespace(s: Seq<char>)
    ensures
        concat_words(split_ws(s)) == non_ws(s),
{
    lemma_ws_words_concat(s, 0, Seq::empty(), Seq::empty());
    assert(s.skip(0) =~= s);
    assert(concat_words(Seq::<Seq<char>>::empty()) + Seq::<char>::empty() + non_ws(s) =~= non_ws(s));
}

proof fn lemma_ws_words_single(s: Seq<char>, i: int)
    requires
        0 <= i <= s.len(),
        s.len() > 0,
        forall|k: int| 0 <= k < s.len() ==> !is_ws(#[trigger] s[k]),
    ensures
        ws_words_from(s, i, s.take(i), Seq::empty()) == seq![s],
    decreases s.len() - i,
{
    if i == s.len() {
        assert(s.take(i) =~= s);
        assert(Seq::<Seq<char>>::empty().push(s) =~= seq![s]);
    } else {
        assert(!is_ws(s[i]));
        assert(s.take(i).push(s[i]) =~= s.take(i + 1));
        lemma_ws_words_single(s, i + 1);
    }
}

/// Law: a non-empty text without whitespace is one word, and wraps, at any
/// positive width, to exactly itself.
pub proof fn law_unbroken_text_wraps_to_itself(s: Seq<char>, width: nat)
    requires
        s.len() > 0,
        width > 0,
        forall|k: int| 0 <= k < s.len() ==> !is_ws(#[trigger] s[k]),
    ensures
        split_ws(s) == seq![s],
        wrap_spec(s, width) == seq![s],
{
    assert(s.take(0) =~= Seq::<char>::empty());
    lemma_ws_words_single(s, 0);
    let ws = split_ws(s);
    assert(wrap_state(ws, 0, width) == (Seq::<Seq<char>>::empty(), Seq::<char>::empty()));
    assert(wrap_state(ws, 1, width) == (Seq::<Seq<char>>::empty(), s));
    assert(Seq::<Seq<char>>::empty().push(s) =~= seq![s]);
}

// ───────────────────────── release notes ─────────────────────────

/// One release's notes: its version, its date (possibly empty) and its
/// markdown body.
#[derive(Debug, Clone, PartialEq, Eq)]
pub struct ReleaseNote {
    pub version: String,
    pub date: String,
    pub body: String,
}

/// How a display line is styled.
#[derive(Debug, Clone, Copy, PartialEq, Eq)]
pub enum NoteStyle {
    /// A blank spacer.
    Blank,
    /// A release's version (and date) header.
    Version,
    /// The rule under a version header.
    Rule,
    /// A wrapped chunk of a section heading.
    Heading,
    /// The first chunk of a bullet: drawn after its indent and a `• ` marker.
    BulletFirst,
    /// A later chunk of a bullet: drawn after its indent and two spaces.
    BulletNext,
    /// A wrapped chunk of a paragraph.
    Para,
}

/// One display line of the changelog modal.
#[derive(Debug, Clone, PartialEq, Eq)]
pub struct NoteLine {
    pub style: NoteStyle,
    /// Columns of indent before a bullet's marker.
    pub indent: usize,
    pub text: String,
}

pub struct NoteLineView {
    pub style: NoteStyle,
    pub indent: nat,
    pub text: Seq<char>,
}

impl View for NoteLine {
    type V = NoteLineView;

    open spec fn view(&self) -> NoteLineView {
        NoteLineView { style: self.style, indent: self.indent as nat, text: self.text@ }
    }
}

pub open spec fn lines_view(v: Seq<NoteLine>) -> Seq<NoteLineView> {
    v.map_values(|l: NoteLine| l@)
}

/// A line without a terminating `\r`.
pub open spec fn strip_cr(l: Seq<char>) -> Seq<char> {
    if l.len() > 0 && l.last() == '\r' {
        l.drop_last()
    } else {
        l
    }
}

/// The lines of `s[start..]`, after the lines `acc`.
pub open spec fn lines_from(s: Seq<char>, start: int, acc: Seq<Seq<char>>) -> Seq<Seq<char>>
    decreases s.len() - start,
{
    if start < 0 || start >= s.len() {
        acc
    } else {
        match find_from(s, start, '\n') {
            Some(nl) => {
                proof {
                    lemma_find_from(s, start, '\n');
                }
                lines_from(s, nl + 1, acc.push(strip_cr(s.subrange(start, nl))))
            },
            None => acc.push(s.subrange(start, s.len() as int)),
        }
    }
}

/// `str::lines`: split at `\n` or `\r\n`; a final line ending is optional.
pub open spec fn lines_spec(s: Seq<char>) -> Seq<Seq<char>> {
    lines_from(s, 0, Seq::empty())
}

/// The chunks of a wrapped text, as lines styled `first` and then `rest`.
pub open spec fn styled(chunks: Seq<Seq<char>>, first: NoteStyle, rest: NoteStyle, indent: nat) -> Seq<
    NoteLineView,
> {
    Seq::new(
        chunks.len(),
        |k: int|
            NoteLineView {
                style: if k == 0 {
                    first
                } else {
                    rest
                },
                indent,
                text: chunks[k],
            },
    )
}

pub open spec fn blank_line() -> NoteLineView {
    NoteLineView { style: NoteStyle::Blank, indent: 0, text: Seq::empty() }
}

/// The columns a bullet's text wraps to: what is left of `width` after the
/// indent and the two-column marker, and at least 1.
pub open spec fn bullet_avail(width: nat, indent: nat) -> nat {
    if width > indent + 2 {
        (width - indent - 2) as nat
    } else {
        1
    }
}

/// The display lines of one classified body line.
pub open spec fn block_lines(b: BlockView, width: nat) -> Seq<NoteLineView> {
    match b {
        BlockView::Blank => seq![blank_line()],
        BlockView::Heading(t) => seq![blank_line()] + styled(
            wrap_spec(t, width),
            NoteStyle::Heading,
            NoteStyle::Heading,
            0,
        ),
        BlockView::Bullet { depth, segs } => styled(
            wrap_spec(plain_text(segs), bullet_avail(width, depth * 2)),
            NoteStyle::BulletFirst,
            NoteStyle::BulletNext,
            depth * 2,
        ),
        BlockView::Para(segs) => styled(
            wrap_spec(plain_text(segs), width),
            NoteStyle::Para,
            NoteStyle::Para,
            0,
        ),
    }
}

/// The display lines of the raw body lines `lines`.
pub open spec fn body_lines(lines: Seq<Seq<char>>, width: nat) -> Seq<NoteLineView>
    decreases lines.len(),
{
    if lines.len() == 0 {
        Seq::empty()
    } else {
        body_lines(lines.drop_last(), width) + block_lines(classify_spec(lines.last()), width)
    }
}

pub struct NoteView {
    pub version: Seq<char>,
    pub date: Seq<char>,
    pub body: Seq<char>,
}

pub open spec fn notes_view(v: Seq<ReleaseNote>) -> Seq<NoteView> {
    v.map_values(|n: ReleaseNote| NoteView { version: n.version@, date: n.date@, body: n.body@ })
}

/// A release's header: its version, and its date after a separator when it
/// has one.
pub open spec fn note_head(n: NoteView) -> Seq<char> {
    if n.date.len() == 0 {
        n.version
    } else {
        n.version + "   ·   "@ + n.date
    }
}

/// The rule under a header: `width` box-drawing dashes.
pub open spec fn rule_text(width: nat) -> Seq<char> {
    Seq::new(width, |k: int| '─')
}

/// The display lines of one release: header, rule, then the body.
pub open spec fn note_lines(n: NoteView, width: nat) -> Seq<NoteLineView> {
    seq![
        NoteLineView { style: NoteStyle::Version, indent: 0, text: note_head(n) },
        NoteLineView { style: NoteStyle::Rule, indent: 0, text: rule_text(width) },
    ] + body_lines(lines_spec(n.body), width)
}

/// Every release, newest first as given, a blank line between releases.
pub open spec fn all_lines(notes: Seq<NoteView>, width: nat) -> Seq<NoteLineView>
    decreases notes.len(),
{
    if notes.len() == 0 {
        Seq::empty()
    } else {
        let before = all_lines(notes.drop_last(), width);
        let sep = if notes.len() > 1 {
            seq![blank_line()]
        } else {
            Seq::empty()
        };
        before + sep + note_lines(notes.last(), width)
    }
}

fn push_line(out: &mut Vec<NoteLine>, style: NoteStyle, indent: usize, text: String)
    ensures
        lines_view(final(out)@) == lines_view(old(out)@).push(
            NoteLineView { style, indent: indent as nat, text: text@ },
        ),
{
    out.push(NoteLine { style, indent, text });
    assert(lines_view(out@) =~= lines_view(old(out)@).push(out@.last()@));
}

fn push_blank(out: &mut Vec<NoteLine>)
    ensures
        lines_view(final(out)@) == lines_view(old(out)@).push(blank_line()),
{
    push_line(out, NoteStyle::Blank, 0, String::new());
}

/// Appends `chunks` as lines styled `first` and then `rest`.
fn push_chunks(out: &mut Vec<NoteLine>, chunks: Vec<String>, first: NoteStyle, rest: NoteStyle, indent: usize)
    ensures
        lines_view(final(out)@) == lines_view(old(out)@) + styled(
            strings_view(chunks@),
            first,
            rest,
            indent as nat,
        ),
{
    let ghost all = styled(strings_view(chunks@), first, rest, indent as nat);
    let mut k: usize = 0;
    while k < chunks.len()
        invariant
            k <= chunks@.len(),
            all == styled(strings_view(chunks@), first, rest, indent as nat),
            lines_view(out@) == lines_view(old(out)@) + all.take(k as int),
        decreases chunks@.len() - k,
    {
        let style = if k == 0 {
            first
        } else {
            rest
        };
        push_line(out, style, indent, chunks[k].clone());
        k = k + 1;
        assert(all.take(k as int) =~= all.take(k - 1).push(all[k - 1]));
    }
    assert(all.take(chunks@.len() as int) =~= all);
}

/// The plain text of `segs`, as a `String`.
fn segs_text(segs: &Vec<Seg>) -> (r: String)
    ensures
        r@ == plain_text(segs_view(segs@)),
{
    let mut s = String::new();
    let mut k: usize = 0;
    while k < segs.len()
        invariant
            k <= segs@.len(),
            s@ == plain_text(segs_view(segs@.take(k as int))),
        decreases segs@.len() - k,
    {
        s.append(segs[k].text.as_str());
        assert(segs_view(segs@.take(k + 1)).drop_last() =~= segs_view(segs@.take(k as int)));
        k = k + 1;
    }
    assert(segs@.take(segs@.len() as int) =~= segs@);
    s
}

/// Appends the display lines of one classified body line.
fn push_block(out: &mut Vec<NoteLine>, block: Block, width: usize)
    requires
        block@ is Bullet ==> (block@->depth) * 2 + 2 <= usize::MAX,
    ensures
        lines_view(final(out)@) == lines_view(old(out)@) + block_lines(block@, width as nat),
{
    match block {
        Block::Blank => {
            push_blank(out);
            assert(lines_view(out@) =~= lines_view(old(out)@) + seq![blank_line()]);
        },
        Block::Heading(text) => {
            push_blank(out);
            let chunks = wrap(text.as_str(), width);
            push_chunks(out, chunks, NoteStyle::Heading, NoteStyle::Heading, 0);
            assert(lines_view(out@) =~= lines_view(old(out)@) + block_lines(block@, width as nat));
        },
        Block::Bullet { depth, segs } => {
            let indent = depth * 2;
            let avail = if width > indent + 2 {
                width - (indent + 2)
            } else {
                1
            };
            let text = segs_text(&segs);
            let chunks = wrap(text.as_str(), avail);
            push_chunks(out, chunks, NoteStyle::BulletFirst, NoteStyle::BulletNext, indent);
        },
        Block::Para(segs) => {
            let text = segs_text(&segs);
            let chunks = wrap(text.as_str(), width);
            push_chunks(out, chunks, NoteStyle::Para, NoteStyle::Para, 0);
        },
    }
}

/// Appends the display lines of a release body held in `cs`.
fn push_body(out: &mut Vec<NoteLine>, cs: &Vec<char>, width: usize)
    requires
        fits_in_memory(cs@),
    ensures
        lines_view(final(out)@) == lines_view(old(out)@) + body_lines(lines_spec(cs@), width as nat),
{
    let mut start: usize = 0;
    let ghost mut acc: Seq<Seq<char>> = Seq::empty();
    assert(lines_view(out@) =~= lines_view(old(out)@) + body_lines(acc, width as nat));
    while start < cs.len()
        invariant
            start <= cs@.len(),
            fits_in_memory(cs@),
            lines_from(cs@, start as int, acc) == lines_spec(cs@),
            lines_view(out@) == lines_view(old(out)@) + body_lines(acc, width as nat),
        decreases cs@.len() - start,
    {
        let nl = find(cs, start, '\n');
        proof {
            lemma_find_from(cs@, start as int, '\n');
        }
        let end = match nl {
            Some(k) => k,
            None => cs.len(),
        };
        let mut line = sub_chars(cs, start, end);
        if nl.is_some() && line.len() > 0 && line[line.len() - 1] == '\r' {
            let n = line.len() - 1;
            line = sub_chars(&line, 0, n);
            assert(line@ =~= strip_cr(cs@.subrange(start as int, end as int)));
        }
        proof {
            lemma_encode_utf8_subrange(cs@, start as int, end as int);
            if line@.len() < cs@.subrange(start as int, end as int).len() {
                lemma_encode_utf8_subrange(cs@.subrange(start as int, end as int), 0, line@.len() as int);
                assert(cs@.subrange(start as int, end as int).subrange(0, line@.len() as int) =~= line@);
            }
        }
        let block = classify_chars(&line);
        proof {
            if block@ is Bullet {
                lemma_bullet_indent_fits(line@);
            }
        }
        push_block(out, block, width);
        proof {
            let acc2 = acc.push(line@);
            assert(acc2.drop_last() =~= acc);
            assert(lines_view(out@) =~= lines_view(old(out)@) + body_lines(acc2, width as nat));
            acc = acc2;
        }
        start = match nl {
            Some(k) => k + 1,
            None => cs.len(),
        };
    }
}

/// Flattens the release notes into styled, wrapped display lines (in the
/// order given, newest first): a version header and rule, then the body with
/// headings, bullets and paragraphs. `width` is the usable text width.
pub fn build_lines(notes: &Vec<ReleaseNote>, width: usize) -> (r: Vec<NoteLine>)
    requires
        forall|i: int| 0 <= i < notes@.len() ==> fits_in_memory(#[trigger] notes@[i].body@),
    ensures
        lines_view(r@) == all_lines(notes_view(notes@), width as nat),
{
    let mut out: Vec<NoteLine> = Vec::new();
    let mut i: usize = 0;
    assert(lines_view(out@) =~= Seq::<NoteLineView>::empty());
    assert(notes_view(notes@).take(0) =~= Seq::<NoteView>::empty());
    while i < notes.len()
        invariant
            i <= notes@.len(),
            forall|j: int| 0 <= j < notes@.len() ==> fits_in_memory(#[trigger] notes@[j].body@),
            lines_view(out@) == all_lines(notes_view(notes@).take(i as int), width as nat),
        decreases notes@.len() - i,
    {
        let ghost before = lines_view(out@);
        let n = &notes[i];
        if i > 0 {
            push_blank(&mut out);
        }
        let ghost mid = lines_view(out@);
        let head = if n.date.as_str().is_empty() {
            n.version.clone()
        } else {
            let mut h = n.version.clone();
            h.append("   ·   ");
            h.append(n.date.as_str());
            h
        };
        push_line(&mut out, NoteStyle::Version, 0, head);
        let mut rule = String::new();
        let mut k: usize = 0;
        while k < width
            invariant
                k <= width,
                rule@ == rule_text(k as nat),
            decreases width - k,
        {
            push_char(&mut rule, '─');
            k = k + 1;
            assert(rule@ =~= rule_text(k as nat));
        }
        push_line(&mut out, NoteStyle::Rule, 0, rule);
        let body = chars_of(n.body.as_str());
        push_body(&mut out, &body, width);
        proof {
            let nv = notes_view(notes@);
            assert(nv.take(i + 1).drop_last() =~= nv.take(i as int));
            assert(nv[i as int].body == body@);
            let sep = if i + 1 > 1 {
                seq![blank_line()]
            } else {
                Seq::<NoteLineView>::empty()
            };
            assert(mid =~= before + sep);
            assert(lines_view(out@) =~= before + sep + note_lines(nv[i as int], width as nat));
        }
        i = i + 1;
    }
    assert(notes_view(notes@).take(notes@.len() as int) =~= notes_view(notes@));
    out
}

} // verus!
