use bohay::notes::{build_lines, wrap, NoteLine, NoteStyle, ReleaseNote};

fn line(style: NoteStyle, indent: usize, text: &str) -> NoteLine {
    NoteLine { style, indent, text: text.to_string() }
}

#[test]
fn wrap_is_greedy_and_keeps_long_words() {
    assert_eq!(wrap("the quick brown fox", 9), vec!["the quick", "brown fox"]);
    assert_eq!(wrap("a supercalifragilistic b", 5), vec!["a", "supercalifragilistic", "b"]);
    assert_eq!(wrap("  spaced   out  ", 80), vec!["spaced out"]);
    assert_eq!(wrap("", 10), vec![""]);
    assert_eq!(wrap("   ", 10), vec![""]);
    assert_eq!(wrap("left as is", 0), vec!["left as is"]);
    // Display width, not characters: each ideograph takes two columns.
    assert_eq!(wrap("漢字 漢字", 4), vec!["漢字", "漢字"]);
    assert_eq!(wrap("漢字 漢字", 9), vec!["漢字 漢字"]);
}

#[test]
fn wrap_keeps_every_word() {
    let text = "one two three four five six seven eight nine ten";
    for width in 1..30 {
        let lines = wrap(text, width);
        assert!(!lines.is_empty());
        assert_eq!(lines.join(" "), text, "width {width}");
    }
}

#[test]
fn notes_flatten_to_styled_lines() {
    let notes = vec![
        ReleaseNote {
            version: "v0.9.3".to_string(),
            date: "2025-01-02".to_string(),
            body: "### Added\n- **New** thing here\r\n  - nested\n\nPlain prose.".to_string(),
        },
        ReleaseNote {
            version: "v0.9.2".to_string(),
            date: String::new(),
            body: "Fixed.\n".to_string(),
        },
    ];
    let lines = build_lines(&notes, 14);
    assert_eq!(
        lines,
        vec![
            line(NoteStyle::Version, 0, "v0.9.3   ·   2025-01-02"),
            line(NoteStyle::Rule, 0, "──────────────"),
            line(NoteStyle::Blank, 0, ""),
            line(NoteStyle::Heading, 0, "Added"),
            line(NoteStyle::BulletFirst, 0, "New thing"),
            line(NoteStyle::BulletNext, 0, "here"),
            line(NoteStyle::BulletFirst, 2, "nested"),
            line(NoteStyle::Blank, 0, ""),
            line(NoteStyle::Para, 0, "Plain prose."),
            line(NoteStyle::Blank, 0, ""),
            line(NoteStyle::Version, 0, "v0.9.2"),
            line(NoteStyle::Rule, 0, "──────────────"),
            line(NoteStyle::Para, 0, "Fixed."),
        ]
    );
    assert!(build_lines(&Vec::new(), 10).is_empty());
}

#[test]
fn wrap_breaks_only_when_the_next_word_does_not_fit() {
    let lines = wrap("aa bb cc dd ee", 5);
    assert_eq!(lines, vec!["aa bb", "cc dd", "ee"]);
    for pair in lines.windows(2) {
        let next_first = pair[1].split(' ').next().unwrap();
        assert!(pair[0].chars().count() + 1 + next_first.chars().count() > 5);
    }
}
