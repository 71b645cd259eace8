//! Terminal geometry for the modals and tables: rectangles, centering, modal
//! sizes, scrolling and the columns of a Mission Control row. Drawing into the
//! terminal buffer is done by the caller.
use vstd::prelude::*;

verus! {

/// A rectangle of terminal cells.
#[derive(Debug, Clone, Copy, PartialEq, Eq)]
pub struct Rect {
    pub x: u16,
    pub y: u16,
    pub width: u16,
    pub height: u16,
}

pub open spec fn sat_add16(a: u16, b: u16) -> u16 {
    if a + b > u16::MAX {
        u16::MAX
    } else {
        (a + b) as u16
    }
}

pub open spec fn sat_sub16(a: u16, b: u16) -> u16 {
    if a >= b {
        (a - b) as u16
    } else {
        0
    }
}

pub open spec fn sat_sub(a: usize, b: usize) -> usize {
    if a >= b {
        (a - b) as usize
    } else {
        0
    }
}

pub open spec fn min16(a: u16, b: u16) -> u16 {
    if a <= b {
        a
    } else {
        b
    }
}

impl Rect {
    /// The rectangle lies within the coordinate space.
    pub open spec fn wf(self) -> bool {
        self.x + self.width <= u16::MAX && self.y + self.height <= u16::MAX
    }

    /// A rectangle, its size clipped so that it stays within the coordinate
    /// space.
    pub open spec fn new_spec(x: u16, y: u16, width: u16, height: u16) -> Rect {
        Rect { x, y, width: (sat_add16(x, width) - x) as u16, height: (sat_add16(y, height) - y) as u16 }
    }

    /// A rectangle at (`x`, `y`), clipped to the coordinate space.
    pub fn new(x: u16, y: u16, width: u16, height: u16) -> (r: Rect)
        ensures
            r == Rect::new_spec(x, y, width, height),
            r.wf(),
    {
        let w = if width > u16::MAX - x {
            u16::MAX - x
        } else {
            width
        };
        let h = if height > u16::MAX - y {
            u16::MAX - y
        } else {
            height
        };
        Rect { x, y, width: w, height: h }
    }

    /// The column just right of the rectangle.
    pub fn right(&self) -> (r: u16)
        ensures
            r == sat_add16(self.x, self.width),
    {
        if self.width > u16::MAX - self.x {
            u16::MAX
        } else {
            self.x + self.width
        }
    }

    /// The row just below the rectangle.
    pub fn bottom(&self) -> (r: u16)
        ensures
            r == sat_add16(self.y, self.height),
    {
        if self.height > u16::MAX - self.y {
            u16::MAX
        } else {
            self.y + self.height
        }
    }
}

/// `inner` lies within `outer`.
pub open spec fn within(inner: Rect, outer: Rect) -> bool {
    &&& outer.x <= inner.x
    &&& inner.x + inner.width <= outer.x + outer.width
    &&& outer.y <= inner.y
    &&& inner.y + inner.height <= outer.y + outer.height
}

/// A `w`×`h` rectangle (clipped to `area`) centered in `area`.
pub open spec fn centered_spec(area: Rect, w: u16, h: u16) -> Rect {
    let w = min16(w, area.width);
    let h = min16(h, area.height);
    Rect {
        x: (area.x + (area.width - w) / 2) as u16,
        y: (area.y + (area.height - h) / 2) as u16,
        width: w,
        height: h,
    }
}

/// A `w`×`h` rectangle, clipped to `area`, centered in it.
pub fn centered_rect(area: Rect, w: u16, h: u16) -> (r: Rect)
    requires
        area.wf(),
    ensures
        r == centered_spec(area, w, h),
        r.wf(),
        within(r, area),
{
    let w = if w <= area.width {
        w
    } else {
        area.width
    };
    let h = if h <= area.height {
        h
    } else {
        area.height
    };
    Rect::new(area.x + (area.width - w) / 2, area.y + (area.height - h) / 2, w, h)
}

/// Law: a centered rectangle leaves margins on its two sides that differ by
/// at most one cell, horizontally and vertically.
pub proof fn law_centered_is_balanced(area: Rect, w: u16, h: u16)
    requires
        area.wf(),
    ensures
        ({
            let r = centered_spec(area, w, h);
            let left = r.x - area.x;
            let right = (area.x + area.width) - (r.x + r.width);
            let top = r.y - area.y;
            let bottom = (area.y + area.height) - (r.y + r.height);
            left <= right <= left + 1 && top <= bottom <= top + 1
        }),
{
}

/// A modal's extent along one axis: the available extent less a margin,
/// clamped to `lo..=hi`, and never more than what is available.
pub open spec fn modal_extent_spec(avail: u16, margin: u16, lo: u16, hi: u16) -> u16 {
    let want = sat_sub16(avail, margin);
    let clamped = if want < lo {
        lo
    } else if want > hi {
        hi
    } else {
        want
    };
    min16(clamped, avail)
}

/// A modal's extent along one axis (see [`modal_extent_spec`]).
pub fn modal_extent(avail: u16, margin: u16, lo: u16, hi: u16) -> (r: u16)
    requires
        lo <= hi,
    ensures
        r == modal_extent_spec(avail, margin, lo, hi),
        r <= avail,
        r <= hi,
{
    let want = if avail >= margin {
        avail - margin
    } else {
        0
    };
    let clamped = if want < lo {
        lo
    } else if want > hi {
        hi
    } else {
        want
    };
    if clamped <= avail {
        clamped
    } else {
        avail
    }
}

// ───────────────────────── the changelog modal ─────────────────────────

/// Where the parts of the changelog modal go, inside its border.
#[derive(Debug, Clone, Copy, PartialEq, Eq)]
pub struct ChangelogFrame {
    /// The close button, top right.
    pub close: Rect,
    /// The row of the "update available" headline, when there is one.
    pub headline_y: Option<u16>,
    /// The row of the "how to update" hint, with a rule under it.
    pub hint_y: u16,
    /// Where the notes scroll.
    pub body: Rect,
    /// The usable width of a note line, leaving a gutter for the scrollbar.
    pub text_width: usize,
    /// The row of the key hints, with a rule above it.
    pub footer_y: u16,
}

/// The layout of the changelog modal inside its border `inner`.
pub open spec fn changelog_frame_spec(inner: Rect, has_update: bool) -> ChangelogFrame {
    let hint_y = if has_update {
        inner.y + 3
    } else {
        inner.y + 2
    };
    let top = hint_y + 2;
    let body = Rect::new_spec(
        (inner.x + 1) as u16,
        top as u16,
        sat_sub16(inner.width, 2),
        sat_sub16(sat_add16(inner.y, inner.height), (top + 2) as u16),
    );
    ChangelogFrame {
        close: Rect::new_spec(sat_sub16(sat_add16(inner.x, inner.width), 3), inner.y, 3, 1),
        headline_y: if has_update {
            Some((inner.y + 2) as u16)
        } else {
            None
        },
        hint_y: hint_y as u16,
        body,
        text_width: sat_sub16(body.width, 1) as usize,
        footer_y: sat_sub16(sat_add16(inner.y, inner.height), 1),
    }
}

/// Lays out the changelog modal inside its border `inner`. The rows below the
/// top edge that it counts (six, seven with the headline) must exist.
pub fn changelog_frame(inner: Rect, has_update: bool) -> (r: ChangelogFrame)
    requires
        inner.x < u16::MAX,
        inner.y + (if has_update {
            7int
        } else {
            6int
        }) <= u16::MAX,
    ensures
        r == changelog_frame_spec(inner, has_update),
{
    let close = Rect::new(if inner.right() >= 3 {
        inner.right() - 3
    } else {
        0
    }, inner.y, 3, 1);
    let mut top = inner.y + 2;
    let headline_y = if has_update {
        Some(top)
    } else {
        None
    };
    if has_update {
        top = top + 1;
    }
    let hint_y = top;
    top = top + 2;
    let bottom = inner.bottom();
    let body = Rect::new(
        inner.x + 1,
        top,
        if inner.width >= 2 {
            inner.width - 2
        } else {
            0
        },
        if bottom >= top + 2 {
            bottom - (top + 2)
        } else {
            0
        },
    );
    let text_width = if body.width >= 1 {
        (body.width - 1) as usize
    } else {
        0
    };
    ChangelogFrame {
        close,
        headline_y,
        hint_y,
        body,
        text_width,
        footer_y: if bottom >= 1 {
            bottom - 1
        } else {
            0
        },
    }
}

/// The furthest the notes can scroll, and the scroll position kept within it.
/// As drawn, the overflow is cast to `u16` (wrapping past 65535 lines).
pub fn changelog_scroll(total: usize, visible: usize, scroll: u16) -> (r: (u16, u16))
    ensures
        r.0 == (sat_sub(total, visible) as u16),
        r.1 == min16(scroll, r.0),
{
    let over = if total >= visible {
        total - visible
    } else {
        0
    };
    let max_scroll = over as u16;
    (max_scroll, if scroll <= max_scroll {
        scroll
    } else {
        max_scroll
    })
}

/// The scrollbar thumb: its length, in proportion of the visible part of the
/// notes, at least one cell; and its offset in the track, in proportion of the
/// scroll position.
pub open spec fn thumb_spec(track: nat, visible: nat, total: nat, start: nat, max_scroll: nat) -> (
    nat,
    nat,
) {
    let raw = (track * visible) / (if total > 1 {
        total
    } else {
        1
    });
    let thumb: nat = if raw < 1 {
        1
    } else if raw > track {
        track
    } else {
        raw
    };
    let denom: nat = if max_scroll > 1 {
        max_scroll
    } else {
        1
    };
    let pos = ((track - thumb) * start) / (denom as int);
    (pos as nat, thumb)
}

/// The scrollbar thumb's offset and length in a track of `track` cells, the
/// height of the notes' view, so that `track` lines of the notes are visible.
pub fn scroll_thumb(track: u16, total: usize, start: u16, max_scroll: u16) -> (r: (usize, usize))
    requires
        track > 0,
    ensures
        (r.0 as nat, r.1 as nat) == thumb_spec(
            track as nat,
            track as nat,
            total as nat,
            start as nat,
            max_scroll as nat,
        ),
{
    let t = track as usize;
    let visible = t;
    let denom = if total > 1 {
        total
    } else {
        1
    };
    assert(t * visible <= 0xFFFF * 0xFFFF) by (nonlinear_arith)
        requires
            t <= 0xFFFF,
            visible == t,
    ;
    let raw = (t * visible) / denom;
    let thumb = if raw < 1 {
        1
    } else if raw > t {
        t
    } else {
        raw
    };
    let ms = if max_scroll > 1 {
        max_scroll as usize
    } else {
        1
    };
    assert((t - thumb) * (start as usize) <= 0xFFFF * 0xFFFF) by (nonlinear_arith)
        requires
            t - thumb <= 0xFFFF,
            start <= 0xFFFF,
    ;
    let pos = ((t - thumb) * (start as usize)) / ms;
    (pos, thumb)
}

/// Law: the thumb is at least one cell long and lies within the track, for
/// any scroll position within the scroll range.
pub proof fn law_thumb_within_track(track: nat, visible: nat, total: nat, start: nat, max_scroll: nat)
    requires
        track > 0,
        start <= max_scroll,
    ensures
        thumb_spec(track, visible, total, start, max_scroll).1 >= 1,
        thumb_spec(track, visible, total, start, max_scroll).0 + thumb_spec(
            track,
            visible,
            total,
            start,
            max_scroll,
        ).1 <= track,
{
    let (pos, thumb) = thumb_spec(track, visible, total, start, max_scroll);
    let m: nat = if max_scroll > 1 {
        max_scroll
    } else {
        1
    };
    let free: nat = (track - thumb) as nat;
    assert(start <= m);
    assert((free * start) / m <= free) by (nonlinear_arith)
        requires
            start <= m,
            m >= 1,
    ;
}

// ───────────────────────── Mission Control ─────────────────────────

/// The table body of Mission Control inside `area`: under the two header
/// rows, above the two footer rows unless `compact`; `None` when the area is
/// too small to draw the table (under 4 rows or 16 columns, or no body row).
pub open spec fn mission_body_spec(area: Rect, compact: bool) -> Option<Rect> {
    if area.height < 4 || area.width < 16 {
        None
    } else {
        let footer: u16 = if compact {
            0
        } else {
            2
        };
        let body = Rect::new_spec(
            (area.x + 1) as u16,
            (area.y + 2) as u16,
            sat_sub16(area.width, 2),
            sat_sub16(area.height, (2 + footer) as u16),
        );
        if body.height == 0 {
            None
        } else {
            Some(body)
        }
    }
}

/// Lays out the Mission Control table body (see [`mission_body_spec`]). An
/// area too small for the table is answered before any arithmetic; a table
/// area needs the two header rows and one column of room past its origin.
pub fn mission_body(area: Rect, compact: bool) -> (r: Option<Rect>)
    requires
        area.height >= 4 && area.width >= 16 ==> area.x < u16::MAX && area.y + 2 <= u16::MAX,
    ensures
        r == mission_body_spec(area, compact),
{
    if area.height < 4 || area.width < 16 {
        return None;
    }
    let footer: u16 = if compact {
        0
    } else {
        2
    };
    let body = Rect::new(
        area.x + 1,
        area.y + 2,
        area.width - 2,
        if area.height >= 2 + footer {
            area.height - (2 + footer)
        } else {
            0
        },
    );
    if body.height == 0 {
        None
    } else {
        Some(body)
    }
}

/// The cursor kept on a row, and the scroll moved just enough to show it,
/// within the scroll range.
pub open spec fn scroll_window_spec(len: nat, vis: nat, cursor: nat, scroll: nat) -> (nat, nat) {
    let last: nat = if len >= 1 {
        (len - 1) as nat
    } else {
        0
    };
    let c: nat = if cursor <= last {
        cursor
    } else {
        last
    };
    let s1: nat = if c < scroll {
        c
    } else if c >= scroll + vis {
        (c + 1 - vis) as nat
    } else {
        scroll
    };
    let limit: nat = if len >= vis {
        (len - vis) as nat
    } else {
        0
    };
    (c, if s1 <= limit {
        s1
    } else {
        limit
    })
}

/// Keeps the cursor on a row and scrolls just enough to show it (see
/// [`scroll_window_spec`]); returns the cursor and the scroll.
pub fn scroll_window(len: usize, vis: usize, cursor: usize, scroll: usize) -> (r: (usize, usize))
    requires
        vis >= 1,
    ensures
        (r.0 as nat, r.1 as nat) == scroll_window_spec(len as nat, vis as nat, cursor as nat, scroll as nat),
{
    let last = if len >= 1 {
        len - 1
    } else {
        0
    };
    let c = if cursor <= last {
        cursor
    } else {
        last
    };
    let mut s = scroll;
    if c < s {
        s = c;
    } else if c - s >= vis {
        s = c + 1 - vis;
    }
    let limit = if len >= vis {
        len - vis
    } else {
        0
    };
    (c, if s <= limit {
        s
    } else {
        limit
    })
}

/// Law: with at least one row, the cursor stays on a row and its row is
/// within the visible window.
pub proof fn law_cursor_is_visible(len: nat, vis: nat, cursor: nat, scroll: nat)
    requires
        len >= 1,
        vis >= 1,
    ensures
        scroll_window_spec(len, vis, cursor, scroll).0 < len,
        scroll_window_spec(len, vis, cursor, scroll).1 <= scroll_window_spec(len, vis, cursor, scroll).0,
        scroll_window_spec(len, vis, cursor, scroll).0 < scroll_window_spec(len, vis, cursor, scroll).1
            + vis,
{
}

/// The widths of the optional Mission Control columns, in the order they are
/// tried: context, compaction headroom, tokens, cost, model, location.
pub open spec fn column_widths() -> Seq<nat> {
    seq![6, 7, 10, 8, 8, 12]
}

/// The columns of one agent row after `used` columns of state dot and label:
/// the agent name (at most 14 columns, truncated to fit), then each optional
/// column, one space before it, only while it still fits; then, for a blocked
/// agent, the hint it waits on, when more than 6 columns remain.
pub struct RowLayoutView {
    pub name_width: nat,
    pub shown: Seq<bool>,
    pub used: nat,
    pub hint_room: Option<nat>,
}

/// After the first `k` optional columns, starting from `used0` columns used:
/// which were shown and the columns used.
pub open spec fn columns_from(width: nat, used0: nat, k: int) -> (Seq<bool>, nat)
    decreases k,
{
    if k <= 0 {
        (Seq::empty(), used0)
    } else {
        let (shown, used) = columns_from(width, used0, k - 1);
        let w = column_widths()[k - 1];
        if used + w < width {
            (shown.push(true), used + w + 1)
        } else {
            (shown.push(false), used)
        }
    }
}

pub open spec fn row_layout_spec(label_width: nat, width: nat, blocked: bool) -> RowLayoutView {
    let name_width: nat = if width >= label_width {
        if (width - label_width) as nat <= 14 {
            (width - label_width) as nat
        } else {
            14
        }
    } else {
        0
    };
    let (shown, used) = columns_from(width, label_width + name_width, 6);
    let room: nat = if width >= used {
        (width - used) as nat
    } else {
        0
    };
    RowLayoutView {
        name_width,
        shown,
        used,
        hint_room: if blocked && room > 6 {
            Some((room - 1) as nat)
        } else {
            None
        },
    }
}

/// The columns of one agent row (see [`RowLayoutView`]).
#[derive(Debug, Clone, PartialEq, Eq)]
pub struct RowLayout {
    pub name_width: usize,
    pub shown: Vec<bool>,
    pub used: usize,
    pub hint_room: Option<usize>,
}

/// Lays out one agent row of `width` columns whose state dot and label take
/// `label_width` columns.
pub fn row_layout(label_width: usize, width: usize, blocked: bool) -> (r: RowLayout)
    ensures
        r.name_width as nat == row_layout_spec(label_width as nat, width as nat, blocked).name_width,
        r.shown@ == row_layout_spec(label_width as nat, width as nat, blocked).shown,
        r.used as nat == row_layout_spec(label_width as nat, width as nat, blocked).used,
        match r.hint_room {
            Some(h) => row_layout_spec(label_width as nat, width as nat, blocked).hint_room == Some(
                h as nat,
            ),
            None => row_layout_spec(label_width as nat, width as nat, blocked).hint_room is None,
        },
{
    let room0 = if width >= label_width {
        width - label_width
    } else {
        0
    };
    let name_width = if room0 <= 14 {
        room0
    } else {
        14
    };
    let mut used = label_width + name_width;
    let widths: Vec<usize> = vec![6, 7, 10, 8, 8, 12];
    assert(widths@.len() == 6);
    let mut shown: Vec<bool> = Vec::new();
    let mut k: usize = 0;
    while k < 6
        invariant
            k <= 6,
            widths@ == seq![6usize, 7, 10, 8, 8, 12],
            (shown@, used as nat) == columns_from(width as nat, (label_width + name_width) as nat, k as int),
            used <= width || used == label_width + name_width,
            label_width + name_width <= width || used == label_width + name_width,
        decreases 6 - k,
    {
        let w = widths[k];
        assert(w as nat == column_widths()[k as int]);
        if used < width && w < width - used {
            shown.push(true);
            used = used + w + 1;
        } else {
            shown.push(false);
        }
        k = k + 1;
    }
    let room = if width >= used {
        width - used
    } else {
        0
    };
    RowLayout {
        name_width,
        shown,
        used,
        hint_room: if blocked && room > 6 {
            Some(room - 1)
        } else {
            None
        },
    }
}

proof fn lemma_columns_fit(width: nat, used0: nat, k: int)
    requires
        used0 <= width,
        0 <= k <= 6,
    ensures
        columns_from(width, used0, k).1 <= width,
        columns_from(width, used0, k).0.len() == k,
    decreases k,
{
    if k > 0 {
        lemma_columns_fit(width, used0, k - 1);
    }
}

/// Law: a row never runs past its width: when the state label fits, the name,
/// the columns shown and the hint, each with its leading space, end at or
/// before the last column.
pub proof fn law_row_fits(label_width: nat, width: nat, blocked: bool)
    requires
        label_width <= width,
    ensures
        row_layout_spec(label_width, width, blocked).used <= width,
        row_layout_spec(label_width, width, blocked).shown.len() == 6,
        row_layout_spec(label_width, width, blocked).hint_room matches Some(h) ==> row_layout_spec(
            label_width,
            width,
            blocked,
        ).used + 1 + h <= width,
{
    let l = row_layout_spec(label_width, width, blocked);
    lemma_columns_fit(width, label_width + l.name_width, 6);
}

} // verus!
