use resonda::pipeline::{
    add_new_results, default_output, plan, safe_name, search_queries, song_file_name, song_tags, with_suffix, Output,
    Plan, Target,
};
use resonda::sources::spotify::Track;
use resonda::sources::youtube::{Format, Kind, SearchResult, VideoInfo, YtError};
use resonda::Cancelled;

fn fmt(itag: u32, kind: Kind, codec: &str, height: u32, size: u64) -> Format {
    Format { itag, url: format!("u{itag}"), kind, codec: codec.into(), height, fps: 30, bitrate: itag as u64, size }
}

fn info(title: &str, formats: Vec<Format>) -> VideoInfo {
    VideoInfo { id: "dQw4w9WgXcQ".into(), title: title.into(), seconds: 1, formats, ua: "ua".into() }
}

#[test]
fn extensiones_de_salida() {
    assert_eq!(Output::Mp4.extension(false), "mp4");
    assert_eq!(Output::Mp4.extension(true), "m4a");
    assert_eq!(Output::Adts.extension(true), "aac");
    assert_eq!(Output::Wav.extension(true), "wav");
    assert_eq!(Output::Flac.extension(true), "flac");
    assert_eq!(Output::Mp3(320).extension(true), "mp3");
    let t = Target::mp4();
    assert_eq!(t.output, Output::Mp4);
    assert!(t.tags.is_none());
}

#[test]
fn nombres_de_archivo_seguros() {
    assert_eq!(safe_name("AC/DC: Back in Black?"), "AC_DC_ Back in Black_");
    assert_eq!(safe_name("  muchos   espacios  "), "muchos espacios");
    assert_eq!(safe_name("a\tb\nc"), "a_b_c");
    assert_eq!(safe_name(""), "video");
    assert_eq!(safe_name("   "), "video");
    assert_eq!(safe_name(&"x".repeat(200)).chars().count(), 150);
    assert_eq!(safe_name("a\u{7}b"), "a_b");
    assert_eq!(default_output(&info("Hola: mundo", vec![]), "mp4"), "Hola_ mundo.mp4");
    assert_eq!(with_suffix("/tmp/v.mp4", ".part"), "/tmp/v.mp4.part");
}

#[test]
fn hasta_360p_se_baja_el_mp4_completo() {
    let i = info("t", vec![fmt(18, Kind::Muxed, "avc1", 360, 1000), fmt(140, Kind::Audio, "mp4a", 0, 10), fmt(137, Kind::Video, "avc1", 1080, 99)]);
    match plan(&i, 360, false).unwrap() {
        Plan::Direct(f) => assert_eq!(f.itag, 18),
        Plan::Merge { .. } => panic!("esperaba el MP4 completo"),
    }
    match plan(&i, 1080, false).unwrap() {
        Plan::Merge { video, audio } => {
            assert_eq!(video.unwrap().itag, 137);
            assert_eq!(audio.itag, 140);
        }
        Plan::Direct(_) => panic!("esperaba unir vídeo y audio"),
    }
    match plan(&i, 360, true).unwrap() {
        Plan::Merge { video, audio } => {
            assert!(video.is_none());
            assert_eq!(audio.itag, 140);
        }
        Plan::Direct(_) => panic!("solo audio nunca es directo"),
    }
    assert_eq!(plan(&info("t", vec![]), 1080, false).err(), Some(YtError::NoAudio));
}

#[test]
fn bytes_previstos() {
    assert_eq!(Plan::Direct(fmt(18, Kind::Muxed, "avc1", 360, 1000)).planned_bytes(), Some((1000, 0)));
    assert_eq!(Plan::Direct(fmt(18, Kind::Muxed, "avc1", 360, 0)).planned_bytes(), None);
    let merge = Plan::Merge { video: Some(fmt(137, Kind::Video, "avc1", 1080, 50)), audio: fmt(140, Kind::Audio, "mp4a", 0, 7) };
    assert_eq!(merge.planned_bytes(), Some((50, 7)));
    let unknown = Plan::Merge { video: Some(fmt(137, Kind::Video, "avc1", 1080, 0)), audio: fmt(140, Kind::Audio, "mp4a", 0, 7) };
    assert_eq!(unknown.planned_bytes(), None);
    let audio = Plan::Merge { video: None, audio: fmt(140, Kind::Audio, "mp4a", 0, 7) };
    assert_eq!(audio.planned_bytes(), Some((0, 7)));
}

fn song() -> Track {
    Track {
        id: "1".into(),
        title: "Come Together".into(),
        artists: vec!["The Beatles".into(), "Otro".into()],
        duration_ms: 259_000,
        album: Some("Abbey Road".into()),
        year: Some("1969".into()),
        cover_url: None,
    }
}

#[test]
fn busquedas_de_una_cancion() {
    let q = search_queries(&song());
    assert_eq!(q, vec!["The Beatles Otro - Come Together".to_string(), "The Beatles Come Together topic".to_string()]);
}

fn result(id: &str, title: &str) -> SearchResult {
    SearchResult { id: id.into(), title: title.into(), channel: "c".into(), seconds: 1 }
}

#[test]
fn los_resultados_repetidos_no_se_duplican() {
    let mut pool = vec![result("a", "A")];
    add_new_results(&mut pool, &vec![result("b", "B"), result("a", "otra A"), result("b", "otra B"), result("c", "C")]);
    let ids: Vec<(&str, &str)> = pool.iter().map(|r| (r.id.as_str(), r.title.as_str())).collect();
    assert_eq!(ids, [("a", "A"), ("b", "B"), ("c", "C")]);
}

#[test]
fn etiquetas_y_nombre_de_una_cancion() {
    let t = song_tags(&song(), Some(vec![1, 2]));
    assert_eq!(t.title, "Come Together");
    assert_eq!(t.artist, "The Beatles, Otro");
    assert_eq!(t.album, Some("Abbey Road".to_string()));
    assert_eq!(t.year, Some("1969".to_string()));
    assert_eq!(t.cover, Some(vec![1, 2]));
    assert_eq!(song_file_name(&song(), "mp3"), "The Beatles, Otro - Come Together.mp3");
}

#[test]
fn cancelar_no_es_un_fallo() {
    assert_eq!(Cancelled.message(), "Cancelado");
}
