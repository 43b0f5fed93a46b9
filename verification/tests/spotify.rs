use resonda::json::Json;
use resonda::sources::spotify::{
    best_image, collection_from, collection_of, collection_of_page, PageError, next_data, page_status, parse_link, refined, split_artists, track_id,
    year_of, Entity, EntityError, Image, Kind, ListEntry, SpotifyError, Track,
};

#[test]
fn enlaces_de_spotify() {
    let id = "4cOdK2wGLETKBW3PvgPWqT";
    for url in [
        format!("https://open.spotify.com/track/{id}"),
        format!("https://open.spotify.com/track/{id}?si=abc123"),
        format!("https://open.spotify.com/intl-es/track/{id}?si=abc"),
        format!("open.spotify.com/track/{id}"),
        format!("spotify:track:{id}"),
    ] {
        assert_eq!(parse_link(&url), Some((Kind::Track, id.to_string())), "{url}");
    }
    assert_eq!(parse_link("https://open.spotify.com/playlist/37i9dQZF1DXcBWIGoYBM5M").unwrap().0, Kind::Playlist);
    assert_eq!(parse_link("https://open.spotify.com/album/0ETFjACtuP2ADo6LFhL6HN").unwrap().0, Kind::Album);
    assert_eq!(parse_link("https://open.spotify.com/artist/0gxyHStUsqpMadRV0Di1Qt"), None);
    assert_eq!(parse_link("https://youtu.be/dQw4w9WgXcQ"), None);
    assert_eq!(parse_link("https://open.spotify.com/track/corto"), None);
}

#[test]
fn enlaces_con_espacios_y_uri_de_album() {
    assert_eq!(
        parse_link("  spotify:album:0ETFjACtuP2ADo6LFhL6HN "),
        Some((Kind::Album, "0ETFjACtuP2ADo6LFhL6HN".to_string()))
    );
    assert_eq!(parse_link("spotify:artist:0ETFjACtuP2ADo6LFhL6HN"), None);
    assert_eq!(parse_link("http://open.spotify.com/track/4cOdK2wGLETKBW3PvgPWqT#x"), Some((Kind::Track, "4cOdK2wGLETKBW3PvgPWqT".to_string())));
}

#[test]
fn kind_da_la_ruta_de_la_pagina() {
    assert_eq!(Kind::Track.path(), "track");
    assert_eq!(Kind::Album.path(), "album");
    assert_eq!(Kind::Playlist.path(), "playlist");
}

fn track(artists: &[&str], title: &str) -> Track {
    Track {
        id: "id".into(),
        title: title.into(),
        artists: artists.iter().map(|a| a.to_string()).collect(),
        duration_ms: 1000,
        album: None,
        year: None,
        cover_url: None,
    }
}

#[test]
fn etiqueta_y_artista_principal() {
    let t = track(&["A", "B"], "Canción");
    assert_eq!(t.label(), "A, B - Canción");
    assert_eq!(t.main_artist(), "A");
    assert_eq!(track(&[], "X").main_artist(), "");
}

#[test]
fn id_de_una_uri() {
    assert_eq!(track_id("spotify:track:abc"), "abc");
    assert_eq!(track_id("sin-dos-puntos"), "sin-dos-puntos");
}

#[test]
fn anio_de_una_fecha() {
    assert_eq!(year_of(Some("1987-05-01T00:00:00Z")), Some("1987".to_string()));
    assert_eq!(year_of(Some("99")), Some("99".to_string()));
    assert_eq!(year_of(None), None);
}

#[test]
fn artistas_del_subtitulo() {
    assert_eq!(split_artists("Artist 1,  Artist\u{a0}2 , ,"), vec!["Artist 1".to_string(), "Artist 2".to_string()]);
    assert!(split_artists("").is_empty());
}

#[test]
fn la_imagen_mas_ancha() {
    let imgs = vec![
        Image { max_width: Some(300), width: None, url: Some("a".into()) },
        Image { max_width: None, width: Some(640), url: Some("b".into()) },
        Image { max_width: Some(900), width: None, url: None },
        Image { max_width: Some(640), width: None, url: Some("c".into()) },
    ];
    assert_eq!(best_image(&imgs), Some("c".to_string()));
    assert_eq!(best_image(&vec![]), None);
}

#[test]
fn datos_de_la_pagina() {
    let html = r#"<script id="__NEXT_DATA__" type="application/json">{"a":1}</script>"#;
    assert_eq!(next_data(html), Ok("{\"a\":1}".to_string()));
    assert_eq!(next_data("<html></html>"), Err(SpotifyError::NoData));
    assert_eq!(next_data(r#"<script id="__NEXT_DATA__">{"a":1}"#), Err(SpotifyError::Unreadable));
    assert_eq!(SpotifyError::NoData.message(), "Spotify no devolvió datos (¿enlace privado o inexistente?)");
}

#[test]
fn una_cancion_de_lista_se_completa_con_su_ficha() {
    let list = Track { year: Some("1999".into()), ..track(&["A"], "T") };
    let fresh = Track { duration_ms: 0, cover_url: Some("c".into()), ..track(&["A", "B"], "otro") };
    let t = refined(&list, Some(&fresh));
    assert_eq!(t.artists, vec!["A".to_string(), "B".to_string()]);
    assert_eq!(t.title, "T");
    assert_eq!(t.duration_ms, 1000);
    assert_eq!(t.cover_url, Some("c".to_string()));
    assert_eq!(t.year, Some("1999".to_string()));
    let same = refined(&list, None);
    assert_eq!(same.artists, list.artists);
}

fn s(t: &str) -> Json {
    Json::Str(t.into())
}

fn obj(ps: Vec<(&str, Json)>) -> Json {
    Json::Obj(ps.into_iter().map(|(k, v)| (k.to_string(), v)).collect())
}

fn page(entity: Json) -> Json {
    obj(vec![("props", obj(vec![("pageProps", obj(vec![("state", obj(vec![("data", obj(vec![("entity", entity)]))]))]))]))])
}

#[test]
fn una_ficha_de_album() {
    let entity = obj(vec![
        ("name", s("Disco")),
        ("releaseDate", obj(vec![("isoString", s("2001-01-01"))])),
        ("coverArt", obj(vec![("sources", Json::Arr(vec![obj(vec![("url", s("portada"))])]))])),
        (
            "trackList",
            Json::Arr(vec![
                obj(vec![("title", s("Uno")), ("uri", s("spotify:track:111")), ("subtitle", s("A, B")), ("duration", Json::Num(Some(1000)))]),
                obj(vec![("title", s("Sin uri"))]),
                obj(vec![("title", s("Dos")), ("uri", s("spotify:track:222"))]),
            ]),
        ),
    ]);
    let c = collection_from(Kind::Album, "x", &page(entity)).unwrap();
    assert_eq!(c.name, "Disco");
    assert_eq!(c.tracks.len(), 2);
    assert_eq!(c.tracks[0].id, "111");
    assert_eq!(c.tracks[0].artists, vec!["A".to_string(), "B".to_string()]);
    assert_eq!(c.tracks[0].duration_ms, 1000);
    assert_eq!(c.tracks[0].album, Some("Disco".to_string()));
    assert_eq!(c.tracks[0].year, Some("2001".to_string()));
    assert_eq!(c.tracks[0].cover_url, Some("portada".to_string()));
    assert_eq!(c.tracks[1].title, "Dos");
    assert!(c.tracks[1].artists.is_empty());
}

#[test]
fn una_ficha_de_cancion() {
    let entity = obj(vec![
        ("title", s("Tema")),
        ("artists", Json::Arr(vec![obj(vec![("name", s("A"))]), obj(vec![]), obj(vec![("name", s("B"))])])),
        ("duration", Json::Num(Some(215000))),
        ("visualIdentity", obj(vec![("image", Json::Arr(vec![obj(vec![("url", s("i")), ("maxWidth", Json::Num(Some(64)))])]))])),
    ]);
    let c = collection_from(Kind::Track, "abc", &page(entity)).unwrap();
    assert_eq!(c.kind, Kind::Track);
    assert_eq!(c.name, "Tema");
    assert_eq!(c.tracks.len(), 1);
    assert_eq!(c.tracks[0].id, "abc");
    assert_eq!(c.tracks[0].artists, vec!["A".to_string(), "B".to_string()]);
    assert_eq!(c.tracks[0].duration_ms, 215000);
    assert_eq!(c.tracks[0].cover_url, Some("i".to_string()));
    assert_eq!(c.tracks[0].album, None);
}

#[test]
fn una_ficha_vacia_o_nula() {
    assert_eq!(collection_from(Kind::Album, "x", &page(Json::Null)).err(), Some(EntityError::Missing));
    assert_eq!(collection_from(Kind::Album, "x", &obj(vec![])).err(), Some(EntityError::Missing));
    assert_eq!(collection_from(Kind::Playlist, "x", &page(obj(vec![("name", s("L"))]))).err(), Some(EntityError::NoTracks));
    assert_eq!(EntityError::NoTracks.message(), "No se encontraron canciones en ese enlace de Spotify");
    let empty = Entity {
        name: None,
        title: None,
        images: vec![],
        cover_source: None,
        release: None,
        artists: vec![],
        duration: None,
        track_list: Some(vec![ListEntry { title: None, uri: None, subtitle: None, duration: None }]),
    };
    assert_eq!(collection_of(Kind::Playlist, "x", Some(&empty)).err(), Some(EntityError::NoTracks));
}

#[test]
fn estado_http_de_la_pagina() {
    assert!(page_status(200).is_ok());
    assert_eq!(page_status(404), Err("Spotify respondió HTTP 404".to_string()));
}

#[test]
fn pagina_completa_de_spotify() {
    let html = r#"<html><script id="__NEXT_DATA__" type="application/json">{"props":{"pageProps":{"state":{"data":{"entity":{"title":"Tema","duration":215000,"artists":[{"name":"A"}]}}}}}}</script></html>"#;
    let c = collection_of_page(Kind::Track, "abc", html).unwrap();
    assert_eq!(c.name, "Tema");
    assert_eq!(c.tracks.len(), 1);
    assert_eq!(c.tracks[0].id, "abc");
    assert_eq!(c.tracks[0].duration_ms, 215000);
    assert_eq!(c.tracks[0].artists, vec!["A".to_string()]);
    assert!(matches!(collection_of_page(Kind::Track, "abc", "<html></html>"), Err(PageError::Page(SpotifyError::NoData))));
    let roto = r#"<script id="__NEXT_DATA__">{"props":</script>"#;
    assert!(matches!(collection_of_page(Kind::Track, "abc", roto), Err(PageError::Json(_))));
    let vacia = r#"<script id="__NEXT_DATA__">{"props":{}}</script>"#;
    assert!(matches!(collection_of_page(Kind::Track, "abc", vacia), Err(PageError::Entity(EntityError::Missing))));
}
