use bohay::layout::{
    centered_rect, changelog_frame, changelog_scroll, mission_body, modal_extent, row_layout,
    scroll_thumb, scroll_window, Rect,
};

#[test]
fn rects_clip_to_the_coordinate_space() {
    assert_eq!(Rect::new(65530, 1, 10, 2), Rect { x: 65530, y: 1, width: 5, height: 2 });
    let r = Rect::new(3, 4, 10, 20);
    assert_eq!(r.right(), 13);
    assert_eq!(r.bottom(), 24);
}

#[test]
fn centered_rects() {
    let area = Rect { x: 10, y: 5, width: 101, height: 40 };
    assert_eq!(centered_rect(area, 50, 12), Rect { x: 35, y: 19, width: 50, height: 12 });
    assert_eq!(centered_rect(area, 500, 100), area);
}

#[test]
fn modal_extents() {
    assert_eq!(modal_extent(120, 6, 50, 92), 92);
    assert_eq!(modal_extent(80, 6, 50, 92), 74);
    assert_eq!(modal_extent(54, 6, 50, 92), 50);
    assert_eq!(modal_extent(30, 6, 50, 92), 30);
    assert_eq!(modal_extent(3, 6, 12, 44), 3);
}

#[test]
fn changelog_frames() {
    let inner = Rect { x: 11, y: 3, width: 90, height: 42 };
    let f = changelog_frame(inner, true);
    assert_eq!(f.close, Rect { x: 98, y: 3, width: 3, height: 1 });
    assert_eq!(f.headline_y, Some(5));
    assert_eq!(f.hint_y, 6);
    assert_eq!(f.body, Rect { x: 12, y: 8, width: 88, height: 35 });
    assert_eq!(f.text_width, 87);
    assert_eq!(f.footer_y, 44);
    let g = changelog_frame(inner, false);
    assert_eq!(g.headline_y, None);
    assert_eq!(g.body, Rect { x: 12, y: 7, width: 88, height: 36 });
    // At the bottom edge of the coordinate space, without the headline.
    let low = changelog_frame(Rect::new(0, 65529, 10, 6), false);
    assert_eq!(low.hint_y, 65531);
    assert_eq!(low.body, Rect { x: 1, y: 65533, width: 8, height: 0 });
    assert_eq!(low.footer_y, 65534);
}

#[test]
fn scrolling_and_thumb() {
    assert_eq!(changelog_scroll(100, 30, 90), (70, 70));
    assert_eq!(changelog_scroll(10, 30, 5), (0, 0));
    assert_eq!(changelog_scroll(100, 30, 12), (70, 12));
    // The overflow is narrowed to u16 as drawn.
    assert_eq!(changelog_scroll(65536 + 40, 30, 0), (10, 0));
    assert_eq!(scroll_thumb(30, 100, 0, 70), (0, 9));
    assert_eq!(scroll_thumb(30, 100, 70, 70), (21, 9));
    assert_eq!(scroll_thumb(10, 1000, 35, 990), (0, 1));
    for start in 0..=70 {
        let (pos, thumb) = scroll_thumb(30, 100, start, 70);
        assert!(thumb >= 1 && pos + thumb <= 30);
    }
}

#[test]
fn mission_table() {
    assert_eq!(mission_body(Rect { x: 0, y: 0, width: 15, height: 10 }, false), None);
    // Too small for the table, anywhere in the coordinate space.
    assert_eq!(mission_body(Rect { x: 65535, y: 65535, width: 10, height: 3 }, false), None);
    assert_eq!(mission_body(Rect { x: 0, y: 0, width: 40, height: 3 }, false), None);
    assert_eq!(mission_body(Rect { x: 0, y: 0, width: 40, height: 4 }, false), None);
    assert_eq!(
        mission_body(Rect { x: 0, y: 0, width: 40, height: 4 }, true),
        Some(Rect { x: 1, y: 2, width: 38, height: 2 })
    );
    assert_eq!(
        mission_body(Rect { x: 2, y: 1, width: 40, height: 20 }, false),
        Some(Rect { x: 3, y: 3, width: 38, height: 16 })
    );
    assert_eq!(scroll_window(10, 3, 0, 5), (0, 0));
    assert_eq!(scroll_window(10, 3, 8, 0), (8, 6));
    assert_eq!(scroll_window(10, 3, 99, 0), (9, 7));
    assert_eq!(scroll_window(10, 3, 5, 4), (5, 4));
    assert_eq!(scroll_window(2, 5, 1, 3), (1, 0));
    assert_eq!(scroll_window(4, 3, 2, usize::MAX), (2, 1));
    for len in 1..8 {
        for vis in 1..5 {
            for cursor in 0..10 {
                for scroll in 0..10 {
                    let (c, s) = scroll_window(len, vis, cursor, scroll);
                    assert!(c < len && s <= c && c < s + vis);
                }
            }
        }
    }
}

#[test]
fn row_columns_fit() {
    let wide = row_layout(10, 120, true);
    assert_eq!(wide.name_width, 14);
    assert_eq!(wide.shown, vec![true; 6]);
    assert_eq!(wide.used, 10 + 14 + 57);
    assert_eq!(wide.hint_room, Some(120 - 81 - 1));
    let narrow = row_layout(10, 40, false);
    assert_eq!(narrow.shown, vec![true, true, false, false, false, false]);
    assert_eq!(narrow.used, 10 + 14 + 7 + 8);
    assert_eq!(narrow.hint_room, None);
    let tiny = row_layout(10, 12, true);
    assert_eq!(tiny.name_width, 2);
    assert_eq!(tiny.shown, vec![false; 6]);
    assert_eq!(tiny.hint_room, None);
}
