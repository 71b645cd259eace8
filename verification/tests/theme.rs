use bohay::theme::{
    check_https_url, classify_source, is_toml_file_name, community_url, dependents_of, hex_lower, is_yes,
    provenance_digest, provenance_file_name, reject_duplicate_destination, starter_title_of,
    starter_toml, temp_file_name, theme_file_name, validate_id, ExistingTheme, ThemeError,
    ThemeHeader, ThemeSource,
};

#[test]
fn community_coordinate_is_bounded_and_unambiguous() {
    assert_eq!(
        community_url("warm-copper").unwrap(),
        "https://raw.githubusercontent.com/RizRiyz/luvus/main/community/themes/warm-copper.toml"
    );
    for bad in ["../escape", "two words", "a/b"] {
        assert!(community_url(bad).is_err(), "{bad}");
    }
}

#[test]
fn starter_is_valid_schema_one() {
    let complete = starter_toml("my-theme", None);
    let table: toml::Table = complete.parse().unwrap();
    assert_eq!(table["schema"].as_integer(), Some(1));
    assert_eq!(table["id"].as_str(), Some("my-theme"));
    assert_eq!(table["display_name"].as_str(), Some("My Theme"));
    let colors = table["colors"].as_table().unwrap();
    assert_eq!(colors.len(), 18);
    assert!(table.get("extends").is_none());
    let child = starter_toml("my-child", Some("noir"));
    let file: toml::Table = child.parse().unwrap();
    assert_eq!(file["extends"].as_str(), Some("noir"));
    assert_eq!(file["colors"].as_table().unwrap().len(), 2);
}

#[test]
fn ids_follow_the_id_rule() {
    for good in ["noir", "warm-copper", "a", "my_theme-2", "0day"] {
        assert_eq!(validate_id(good), Ok(()), "{good}");
    }
    let long = "a".repeat(65);
    for bad in ["", "-lead", "_lead", "Upper", "dot.ted", "sp ace", "é", long.as_str()] {
        assert_eq!(validate_id(bad), Err(ThemeError::InvalidId), "{bad}");
    }
    assert_eq!(validate_id(&"a".repeat(64)), Ok(()));
}

#[test]
fn sources_are_classified() {
    assert_eq!(
        classify_source("community/noir"),
        Ok(ThemeSource::Community {
            url: "https://raw.githubusercontent.com/RizRiyz/luvus/main/community/themes/noir.toml"
                .to_string()
        })
    );
    assert_eq!(classify_source("community/"), Err(ThemeError::CommunitySyntax));
    assert_eq!(classify_source("community/a/b"), Err(ThemeError::CommunitySyntax));
    assert_eq!(classify_source("community/Bad"), Err(ThemeError::InvalidId));
    assert_eq!(
        classify_source("https://example.com/t.toml"),
        Ok(ThemeSource::Remote { url: "https://example.com/t.toml".to_string() })
    );
    assert_eq!(classify_source("http://example.com/t.toml"), Err(ThemeError::NotHttps));
    assert_eq!(
        classify_source("./themes/mine.toml"),
        Ok(ThemeSource::Local { path: "./themes/mine.toml".to_string() })
    );
}

#[test]
fn download_urls_are_checked() {
    assert_eq!(check_https_url("https://x/t.toml"), Ok(()));
    for bad in ["http://x/t.toml", "https://x/a b", "https://x/\u{7}", "https://x/\u{85}", "ftp://x"] {
        assert_eq!(check_https_url(bad), Err(ThemeError::InvalidHttpsUrl), "{bad:?}");
    }
}

#[test]
fn confirmation_accepts_only_yes() {
    for yes in ["y", "Y", "yes", " YeS \n"] {
        assert!(is_yes(yes), "{yes:?}");
    }
    for no in ["", "n", "no", "yess", "y e s", "ye"] {
        assert!(!is_yes(no), "{no:?}");
    }
}

#[test]
fn duplicate_destinations_are_refused() {
    assert_eq!(reject_duplicate_destination(&None, "/t/a.toml"), Ok(()));
    let same = Some(ExistingTheme::Local { path: "/t//a.toml".to_string() });
    assert_eq!(reject_duplicate_destination(&same, "/t/a.toml"), Ok(()));
    let other = Some(ExistingTheme::Local { path: "/u/a.toml".to_string() });
    assert_eq!(
        reject_duplicate_destination(&other, "/t/a.toml"),
        Err(ThemeError::AlreadyInstalled { path: "/u/a.toml".to_string() })
    );
    assert_eq!(
        reject_duplicate_destination(&Some(ExistingTheme::Bundled), "/t/a.toml"),
        Err(ThemeError::Reserved)
    );
}

#[test]
fn file_names() {
    assert_eq!(theme_file_name("noir"), "noir.toml");
    assert_eq!(provenance_file_name("noir"), "noir.source.json");
    assert_eq!(temp_file_name(Some("noir.toml"), 4242, 7), ".noir.toml.tmp-4242-7");
    assert_eq!(temp_file_name(None, 0, 18446744073709551615), ".theme.tmp-0-18446744073709551615");
}

#[test]
fn provenance_digest_is_sha256_hex() {
    assert_eq!(
        provenance_digest(b""),
        "e3b0c44298fc1c149afbf4c8996fb92427ae41e4649b934ca495991b7852b855"
    );
    assert_eq!(
        provenance_digest(b"abc"),
        "ba7816bf8f01cfea414140de5dae2223b00361a396177a9cb410ff61f20015ad"
    );
    assert_eq!(hex_lower(&vec![0, 15, 16, 255]), "000f10ff");
}

#[test]
fn dependents_are_sorted_and_complete() {
    let h = |id: &str, ext: Option<&str>| ThemeHeader {
        id: id.to_string(),
        extends: ext.map(|e| e.to_string()),
    };
    let themes = vec![
        h("zeta", Some("noir")),
        h("alpha", Some("noir")),
        h("solo", None),
        h("mid", Some("other")),
        h("beta", Some("noir")),
        h("alpha", Some("noir")),
    ];
    assert_eq!(dependents_of(&themes, "noir"), vec!["alpha", "alpha", "beta", "zeta"]);
    assert!(dependents_of(&themes, "none").is_empty());
    assert_eq!(dependents_of(&themes, "other"), vec!["mid"]);
}

#[test]
fn starter_titles_capitalize_words() {
    assert_eq!(starter_title_of("my-theme"), "My Theme");
    assert_eq!(starter_title_of("warm_copper.v2"), "Warm Copper V2");
    assert_eq!(starter_title_of("--a--b--"), "A B");
    assert_eq!(starter_title_of(""), "");
    assert_eq!(starter_title_of("ßig"), "SSig");
}

#[test]
fn theme_files_have_a_toml_extension() {
    assert!(is_toml_file_name("noir.toml"));
    assert!(is_toml_file_name("a.b.toml"));
    assert!(!is_toml_file_name(".toml"));
    assert!(!is_toml_file_name("noir.source.json"));
    assert!(!is_toml_file_name("toml"));
    assert!(!is_toml_file_name("noir.TOML"));
}
