use resonda::sources::matching::{match_facts, core_title, coverage_counts, fold, is_year, norm, same_word, tokens, version_tokens};

#[test]
fn normaliza_acentos_y_signos() {
    assert_eq!(norm("Tití Me Preguntó!"), "titi me pregunto");
    assert_eq!(norm("  ÑANDÚ   y  Ça  "), "nandu y ca");
    assert_eq!(fold('Á'), Some('a'));
    assert_eq!(fold('-'), Some(' '));
    assert_eq!(fold('7'), Some('7'));
}

#[test]
fn titulo_limpio() {
    assert_eq!(core_title("Come Together - Remastered 2009"), "come together");
    assert_eq!(core_title("Tití Me Preguntó (feat. Alguien)"), "titi me pregunto");
    assert_eq!(core_title("Song [Official] (Live)"), "song");
    assert_eq!(core_title("a) b"), "a b");
}

#[test]
fn palabras_de_la_version() {
    assert_eq!(version_tokens("Song Name - Live"), vec!["live".to_string()]);
    assert_eq!(version_tokens("Come Together - Remastered 2009"), vec!["remastered".to_string(), "2009".to_string()]);
    assert!(version_tokens("Tití Me Preguntó (feat. Alguien)").is_empty());
    assert!(version_tokens("Plain").is_empty());
}

#[test]
fn palabras_y_anios() {
    assert_eq!(tokens(" a  b\tc "), vec!["a".to_string(), "b".to_string(), "c".to_string()]);
    assert!(is_year("1987"));
    assert!(!is_year("3000"));
    assert!(!is_year("198"));
    assert!(same_word("remaster", "remastered"));
    assert!(!same_word("mix", "mixed"));
    assert!(same_word("live", "live"));
}

#[test]
fn cobertura_de_palabras() {
    assert_eq!(coverage_counts("never gonna give", "rick astley never gonna give you up"), (3, 3));
    assert_eq!(coverage_counts("a b a c", "a c"), (3, 4));
    assert_eq!(coverage_counts("", "x"), (0, 0));
}

#[test]
fn hechos_de_una_coincidencia() {
    let artists = vec!["The Beatles".to_string()];
    let f = match_facts("Come Together - Remastered 2009", &artists, "Come Together (Remastered 2009)", "The Beatles - Topic");
    assert_eq!((f.title_found, f.title_words), (2, 2));
    assert!(f.artist_in);
    assert!(f.topic);
    assert_eq!((f.version_hits, f.version_words), (2, 2));
    assert_eq!(f.forbidden, 0);
    assert_eq!((f.extra_years, f.extra_other), (0, 0));
    assert!(!f.exact_title);

    let g = match_facts("Come Together - Remastered 2009", &artists, "Come Together (50th Anniversary Mix)", "fan");
    assert_eq!(g.forbidden, 2);
    assert!(!g.topic);
    assert!(!g.artist_in);
    assert_eq!((g.extra_years, g.extra_other), (0, 3));

    let h = match_facts("Never Gonna Give You Up", &vec!["Rick Astley".to_string()], "Rick Astley - Never Gonna Give You Up", "RickAstleyVEVO");
    assert!(h.exact_title);
    assert!(h.artist_in);
    assert!(!h.own_channel);
    assert_eq!(h.version_words, 0);
}
