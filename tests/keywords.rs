use lgg::keywords::{Keyword, Keywords};

#[test]
fn default_constants() {
    let k = Keywords::new();
    assert!(k.matches(Keyword::Today, "today"));
    assert!(k.matches(Keyword::Yesterday, "yesterday"));
}

#[test]
fn synonyms_extend() {
    let mut k = Keywords::new();
    k.extend(&[
        ("ytd".into(), "yesterday".into()),
        ("ayer".into(), "yesterday".into()),
        ("tmrw".into(), "tomorrow".into()),
    ]);
    assert!(k.matches(Keyword::Yesterday, "ytd"));
    assert!(k.matches(Keyword::Yesterday, "ayer"));
    assert!(k.matches(Keyword::Tomorrow, "tmrw"));
}

#[test]
fn unknown_word_in_matches_returns_none() {
    let k = Keywords::new();
    if k.matches(Keyword::Tomorrow, "not in registry") {
        assert!(false);
    } else {
        assert!(true);
    }
}

#[test]
fn find_word_finds_whole_word() {
    assert_eq!(Keywords::find_word(Keyword::At, "text at text"), Some("at".to_string()));
    assert_eq!(Keywords::find_word(Keyword::Friday, "go friday go"), Some("friday".to_string()));
}

#[test]
fn find_word_does_not_find_substring() {
    assert_eq!(Keywords::find_word(Keyword::At, "saturday"), None);
    assert_eq!(Keywords::find_word(Keyword::Friday, "fridaya"), None);
}

#[test]
fn find_position_finds_whole_word() {
    assert_eq!(Keywords::find_position(Keyword::At, "text at text"), Some(5));
    assert_eq!(Keywords::find_position(Keyword::Friday, "go friday go"), Some(3));
}

#[test]
fn find_position_does_not_find_substring() {
    assert_eq!(Keywords::find_position(Keyword::At, "saturday"), None);
    assert_eq!(Keywords::find_position(Keyword::Friday, "fridaya"), None);
}

#[test]
fn unknown_word_in_find_returns_none() {
    if let Some(_) = Keywords::find_position(Keyword::Tomorrow, "text text text") {
        assert!(false);
    } else {
        assert!(true);
    }
}

#[test]
fn alias_resolves_and_canonical_alias_is_rejected() {
    let mut k = Keywords::new();
    k.extend(&[("ytd".into(), "yesterday".into())]);
    assert!(k.matches(Keyword::Yesterday, "ytd"));
    assert!(!k.matches(Keyword::Yesterday, "today"));
    k.extend(&[("today".into(), "yesterday".into())]);
    assert!(k.matches(Keyword::Today, "today"));
    assert!(!k.matches(Keyword::Yesterday, "today"));
}

#[test]
fn alias_with_unknown_target_is_dropped() {
    let mut k = Keywords::new();
    k.extend(&[("soon".into(), "someday".into())]);
    assert!(!k.matches(Keyword::Tomorrow, "soon"));
    assert!(!k.matches(Keyword::Today, "soon"));
}

#[test]
fn aliases_and_keywords_ignore_case() {
    let mut k = Keywords::new();
    k.extend(&[("YTD".into(), "Yesterday".into())]);
    assert!(k.matches(Keyword::Yesterday, "ytd"));
    assert!(k.matches(Keyword::Yesterday, "Ytd"));
    assert!(k.matches(Keyword::Yesterday, "YESTERDAY"));
}

#[test]
fn alias_of_alias_resolves_to_canonical() {
    let mut k = Keywords::new();
    k.extend(&[("ytd".into(), "yesterday".into()), ("y".into(), "ytd".into())]);
    assert!(k.matches(Keyword::Yesterday, "y"));
}

#[test]
fn canonical_spellings() {
    assert!(Keywords::is_canonical("last week"));
    assert!(Keywords::is_canonical("monday"));
    assert!(!Keywords::is_canonical("ytd"));
}

#[test]
fn find_position_is_case_insensitive() {
    assert_eq!(Keywords::find_position(Keyword::At, "Today AT 5pm"), Some(6));
}
