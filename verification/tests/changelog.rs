use bohay::changelog::{classify, strip_inline, Block, Seg};

#[test]
fn strips_bold_code_and_links() {
    assert_eq!(strip_inline("**Fork** a session"), "Fork a session");
    assert_eq!(strip_inline("press `Ctrl+f` now"), "press Ctrl+f now");
    assert_eq!(
        strip_inline("see [#19](https://x/pull/19) for more"),
        "see #19 for more"
    );
    // Markup inside a link's text is stripped too (the commit-ref shape).
    assert_eq!(
        strip_inline("([`59a2bd5`](https://x/c/59a2bd5))"),
        "(59a2bd5)"
    );
    // A stray bracket that is not a link is left intact.
    assert_eq!(strip_inline("array[0] value"), "array[0] value");
}

#[test]
fn keeps_bold_area_and_trailing_release_links() {
    assert_eq!(
        bohay::changelog::inline("**Agents:** Keep exited agents at the shell ([`1192e7b`](https://x/commit/1192e7b), [#39](https://x/pull/39))."),
        vec![
            Seg {
                text: "Agents:".into(),
                url: None,
                bold: true,
            },
            Seg::plain(" Keep exited agents at the shell ("),
            Seg {
                text: "1192e7b".into(),
                url: Some("https://x/commit/1192e7b".into()),
                bold: false,
            },
            Seg::plain(", "),
            Seg {
                text: "#39".into(),
                url: Some("https://x/pull/39".into()),
                bold: false,
            },
            Seg::plain(")."),
        ]
    );
}

#[test]
fn keeps_link_urls_as_segments() {
    assert_eq!(
        bohay::changelog::inline("see [#19](https://x/pull/19) for more"),
        vec![
            Seg::plain("see "),
            Seg {
                text: "#19".into(),
                url: Some("https://x/pull/19".into()),
                bold: false,
            },
            Seg::plain(" for more"),
        ]
    );
    // The commit-ref shape: backticks inside the label are stripped, the URL kept.
    assert_eq!(
        bohay::changelog::inline("([`59a2bd5`](https://x/c/59a2bd5))"),
        vec![
            Seg::plain("("),
            Seg {
                text: "59a2bd5".into(),
                url: Some("https://x/c/59a2bd5".into()),
                bold: false,
            },
            Seg::plain(")"),
        ]
    );
    // A link with no label or no target degrades to plain text.
    assert_eq!(bohay::changelog::inline("[](https://x)"), vec![]);
    assert_eq!(bohay::changelog::inline("[label]()"), vec![Seg::plain("label")]);
    // Not a link at all.
    assert_eq!(bohay::changelog::inline("array[0] value"), vec![Seg::plain("array[0] value")]);
}

#[test]
fn classifies_lines() {
    assert!(matches!(classify(""), Block::Blank));
    assert!(matches!(classify("### ✨ Added"), Block::Heading(h) if h == "✨ Added"));
    assert!(
        matches!(classify("- **A** thing"), Block::Bullet { depth: 0, segs } if segs == vec![Seg { text: "A".into(), url: None, bold: true }, Seg::plain(" thing")])
    );
    assert!(matches!(
        classify("  - nested"),
        Block::Bullet { depth: 1, .. }
    ));
    assert!(
        matches!(classify("Just prose."), Block::Para(p) if p == vec![Seg::plain("Just prose.")])
    );
}

#[test]
fn link_urls_are_trimmed_and_labels_flattened() {
    assert_eq!(
        bohay::changelog::inline("[**bold** label]( https://x/y )"),
        vec![Seg {
            text: "bold label".into(),
            url: Some("https://x/y".into()),
            bold: false,
        }]
    );
    // A target of only whitespace is no target: the label is plain text.
    assert_eq!(bohay::changelog::inline("a [b](   ) c"), vec![Seg::plain("a "), Seg::plain("b c")]);
    assert_eq!(strip_inline("a [b](   ) c"), "a b c");
}

#[test]
fn unclosed_markup_is_text() {
    assert_eq!(bohay::changelog::inline("[open"), vec![Seg::plain("[open")]);
    assert_eq!(bohay::changelog::inline("[a] (b)"), vec![Seg::plain("[a] (b)")]);
    assert_eq!(bohay::changelog::inline("[a](b"), vec![Seg::plain("[a](b")]);
    // A single star is not emphasis.
    assert_eq!(bohay::changelog::inline("2 * 3"), vec![Seg::plain("2 * 3")]);
    // An unterminated bold run stays bold to the end.
    assert_eq!(
        bohay::changelog::inline("a **b"),
        vec![
            Seg::plain("a "),
            Seg {
                text: "b".into(),
                url: None,
                bold: true,
            }
        ]
    );
}

#[test]
fn segments_are_never_empty() {
    for s in ["****", "``", "**`**", "[]()", "[x]( )", "**a****b**"] {
        for seg in bohay::changelog::inline(s) {
            assert!(!seg.text.is_empty(), "{s}");
            if let Some(u) = &seg.url {
                assert!(!u.is_empty() && u.trim() == u, "{s}");
            }
        }
    }
}

#[test]
fn plain_text_passes_through_unchanged() {
    let s = "no markup * here ) ( ] just text";
    assert_eq!(bohay::changelog::inline(s), vec![Seg::plain(s)]);
    assert_eq!(strip_inline(s), s);
    assert_eq!(bohay::changelog::inline(""), vec![]);
}

#[test]
fn classifies_headings_bullets_and_blanks() {
    assert!(matches!(classify("   \t "), Block::Blank));
    assert!(matches!(classify("## **Fixed**  "), Block::Heading(h) if h == "Fixed"));
    assert!(matches!(classify("#"), Block::Heading(h) if h.is_empty()));
    assert!(
        matches!(classify("    * deep "), Block::Bullet { depth: 2, segs } if segs == vec![Seg::plain("deep")])
    );
    // Indent is counted in bytes: an ideographic space is three.
    assert!(matches!(classify("\u{3000}- wide"), Block::Bullet { depth: 1, .. }));
    // A dash without a space is prose.
    assert!(matches!(classify("-x"), Block::Para(p) if p == vec![Seg::plain("-x")]));
}

#[test]
fn flattened_text_is_never_longer() {
    for s in ["**a**", "[label](https://x)", "`x`", "plain", "[[a](b)](c)", "**"] {
        assert!(strip_inline(s).chars().count() <= s.chars().count(), "{s}");
    }
    assert_eq!(strip_inline("[[a](b)](c)"), "[a](c)");
}
