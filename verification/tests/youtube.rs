use resonda::json::Json;
use resonda::sources::youtube::{
    round_end, RoundEnd, after_client, ClientOutcome, ClientStep, INFO_ROUNDS, clients, player_body, CLIENT_COUNT, search_body, web_version, Session, between, collect_videos, is_id, normalize, parse_clock, parse_video_id, pick_formats, probe_answer, probe_target,
    session_of, video_info_of, Format, Kind, PlayerError, SearchResult, VideoInfo, YtError,
};

fn fmt(itag: u32, kind: Kind, codec: &str, height: u32, fps: u32, bitrate: u64, size: u64) -> Format {
    Format { itag, url: format!("u{itag}"), kind, codec: codec.into(), height, fps, bitrate, size }
}

fn info(formats: Vec<Format>) -> VideoInfo {
    VideoInfo { id: "dQw4w9WgXcQ".into(), title: "t".into(), seconds: 10, formats, ua: "ua".into() }
}

#[test]
fn ids_y_enlaces_de_youtube() {
    let id = "dQw4w9WgXcQ";
    for url in [
        id.to_string(),
        format!("https://www.youtube.com/watch?v={id}"),
        format!("https://youtube.com/watch?feature=x&v={id}#t=3"),
        format!("youtu.be/{id}"),
        format!("https://youtu.be/{id}?si=abc"),
        format!("https://m.youtube.com/shorts/{id}"),
        format!("https://music.youtube.com/watch?v={id}"),
        format!("https://www.youtube.com/embed/{id}"),
    ] {
        assert_eq!(parse_video_id(&url), Ok(id.to_string()), "{url}");
    }
    assert_eq!(parse_video_id("https://vimeo.com/123"), Err(YtError::NotYoutube("https://vimeo.com/123".into())));
    assert_eq!(parse_video_id("https://www.youtube.com/watch?v=corto"), Err(YtError::NoId("https://www.youtube.com/watch?v=corto".into())));
    assert!(is_id("a_b-c123456"));
    assert!(!is_id("a_b-c12345!"));
}

#[test]
fn mensajes_de_error_de_youtube() {
    assert_eq!(YtError::NoAudio.message(), "No hay pista de audio AAC disponible");
    assert_eq!(YtError::NoVideo(720).message(), "No hay vídeo de 720p o menos");
    assert_eq!(YtError::NotYoutube("x".into()).message(), "\"x\" no parece una URL ni un ID de YouTube");
}

#[test]
fn elige_video_y_audio() {
    let i = info(vec![
        fmt(1, Kind::Audio, "mp4a", 0, 0, 128, 1),
        fmt(2, Kind::Audio, "mp4a", 0, 0, 256, 1),
        fmt(3, Kind::Audio, "opus", 0, 0, 999, 1),
        fmt(4, Kind::Video, "av01", 1080, 30, 5, 1),
        fmt(5, Kind::Video, "avc1", 1080, 30, 1, 1),
        fmt(6, Kind::Video, "avc1", 1440, 30, 9, 1),
        fmt(7, Kind::Video, "vp09", 1080, 60, 9, 1),
    ]);
    let (v, a) = pick_formats(&i, 1080, false).unwrap();
    assert_eq!(a.itag, 2);
    assert_eq!(v.unwrap().itag, 5);
    let (v, a) = pick_formats(&i, 1080, true).unwrap();
    assert!(v.is_none());
    assert_eq!(a.itag, 2);
    assert_eq!(pick_formats(&i, 144, false).err(), Some(YtError::NoVideo(144)));
    assert_eq!(pick_formats(&info(vec![]), 144, false).err(), Some(YtError::NoAudio));
}

#[test]
fn relojes_de_la_busqueda() {
    assert_eq!(parse_clock("3:34"), Some(214));
    assert_eq!(parse_clock("1:02:03"), Some(3723));
    assert_eq!(parse_clock(" 7 "), Some(7));
    assert_eq!(parse_clock("a:10"), None);
    assert_eq!(parse_clock(""), None);
}

#[test]
fn lo_que_sigue_a_una_marca() {
    assert_eq!(between("ab\"STS\":123,", "\"STS\":"), Some("123,".to_string()));
    assert_eq!(between("abc", "x"), None);
}

fn s(t: &str) -> Json {
    Json::Str(t.into())
}

fn n(v: u64) -> Json {
    Json::Num(Some(v))
}

fn obj(ps: Vec<(&str, Json)>) -> Json {
    Json::Obj(ps.into_iter().map(|(k, v)| (k.to_string(), v)).collect())
}

fn stream(itag: u64, mime: &str) -> Json {
    obj(vec![
        ("itag", n(itag)),
        ("url", s("https://x")),
        ("mimeType", s(mime)),
        ("height", n(720)),
        ("fps", n(30)),
        ("bitrate", n(1000)),
        ("contentLength", s("12345")),
    ])
}

#[test]
fn formatos_del_reproductor() {
    let f = normalize(&stream(136, "video/mp4; codecs=\"avc1.4d401f\""), false).unwrap();
    assert_eq!((f.itag, f.kind, f.codec.as_str(), f.height, f.fps, f.bitrate, f.size), (136, Kind::Video, "avc1", 720, 30, 1000, 12345));
    let a = normalize(&stream(140, "audio/mp4; codecs=\"mp4a.40.2\""), false).unwrap();
    assert_eq!((a.kind, a.codec.as_str()), (Kind::Audio, "mp4a"));
    let m = normalize(&stream(18, "video/mp4; codecs=\"avc1.42001E, mp4a.40.2\""), true).unwrap();
    assert_eq!((m.kind, m.codec.as_str()), (Kind::Muxed, "avc1"));
    assert!(normalize(&stream(251, "audio/webm; codecs=\"opus\""), false).is_none());
    assert!(normalize(&stream(1, "video/mp4"), false).is_none());
    assert!(normalize(&obj(vec![("mimeType", s("video/mp4; codecs=\"avc1\""))]), false).is_none());
    let no_size = obj(vec![("itag", n(1)), ("url", s("u")), ("mimeType", s("video/mp4; codecs=\"av01.0\""))]);
    let f = normalize(&no_size, false).unwrap();
    assert_eq!((f.height, f.size), (0, 0));
}

fn player(status: &str, adaptive: Vec<Json>) -> Json {
    obj(vec![
        ("playabilityStatus", obj(vec![("status", s(status)), ("reason", s("privado"))])),
        ("videoDetails", obj(vec![("title", s("Título")), ("lengthSeconds", s("212"))])),
        ("streamingData", obj(vec![("adaptiveFormats", Json::Arr(adaptive)), ("formats", Json::Arr(vec![stream(18, "video/mp4; codecs=\"avc1.42001E\"")]))])),
    ])
}

#[test]
fn respuesta_del_reproductor() {
    let ok = player("OK", vec![stream(136, "video/mp4; codecs=\"avc1.4d401f\""), stream(140, "audio/mp4; codecs=\"mp4a.40.2\"")]);
    let i = video_info_of("dQw4w9WgXcQ", "IOS", "agente", &ok).unwrap();
    assert_eq!(i.title, "Título");
    assert_eq!(i.seconds, 212);
    assert_eq!(i.ua, "agente");
    let kinds: Vec<Kind> = i.formats.iter().map(|f| f.kind).collect();
    assert_eq!(kinds, vec![Kind::Video, Kind::Audio, Kind::Muxed]);

    let private = player("LOGIN_REQUIRED", vec![]);
    let e = video_info_of("x", "IOS", "a", &private).err().unwrap();
    assert_eq!(e.message(), "LOGIN_REQUIRED: privado");

    let only_audio = player("OK", vec![stream(140, "audio/mp4; codecs=\"mp4a.40.2\"")]);
    let e = video_info_of("x", "IOS", "a", &only_audio).err().unwrap();
    assert!(matches!(e, PlayerError::NoStreams(_)));
    assert_eq!(e.message(), "El cliente IOS no devolvió formatos MP4 de vídeo y audio");

    let live = obj(vec![("playabilityStatus", obj(vec![("status", s("OK"))])), ("videoDetails", obj(vec![("isLive", Json::Bool(true))]))]);
    assert!(matches!(video_info_of("x", "IOS", "a", &live), Err(PlayerError::Live)));

    let nothing = obj(vec![]);
    assert_eq!(video_info_of("x", "IOS", "a", &nothing).err().unwrap().message(), "ERROR: vídeo no disponible");
}

#[test]
fn sonda_del_ultimo_byte() {
    let i = info(vec![
        fmt(1, Kind::Audio, "mp4a", 0, 0, 1, 10),
        fmt(2, Kind::Video, "avc1", 720, 30, 1, 500),
        fmt(3, Kind::Video, "avc1", 360, 30, 1, 0),
        fmt(4, Kind::Video, "avc1", 480, 30, 1, 200),
        fmt(5, Kind::Video, "av01", 480, 30, 1, 200),
    ]);
    assert_eq!(probe_target(&i), Some((3, 199)));
    assert_eq!(probe_target(&info(vec![])), None);
    assert_eq!(probe_answer(206), Ok(true));
    assert_eq!(probe_answer(403), Ok(false));
    assert_eq!(probe_answer(500), Err("HTTP 500 al comprobar el stream".to_string()));
}

#[test]
fn sesion_anonima() {
    let cookies = vec![
        "YSC=abc; Path=/".to_string(),
        "VISITOR_INFO1_LIVE=v1; Secure".to_string(),
        " YSC =def".to_string(),
        "sin-igual".to_string(),
    ];
    let html = r#"x "VISITOR_DATA":"Cgt" y "STS":20123, "INNERTUBE_CLIENT_VERSION":"2.2026" z"#;
    let s = session_of(&cookies, html);
    assert_eq!(s.cookies, "PREF=hl=en&tz=UTC; SOCS=CAI; VISITOR_INFO1_LIVE=v1; YSC=def");
    assert_eq!(s.visitor_data, "Cgt");
    assert_eq!(s.sts, Some(20123));
    assert_eq!(s.web_version, Some("2.2026".to_string()));
    let empty = session_of(&vec![], "nada");
    assert_eq!(empty.cookies, "PREF=hl=en&tz=UTC; SOCS=CAI");
    assert_eq!(empty.visitor_data, "");
    assert_eq!(empty.sts, None);
    assert_eq!(empty.web_version, None);
}

fn runs(t: &str) -> Json {
    obj(vec![("runs", Json::Arr(vec![obj(vec![("text", s(t))])]))])
}

#[test]
fn resultados_de_busqueda_en_orden() {
    let video = |id: &str, clock: &str| {
        obj(vec![(
            "videoRenderer",
            obj(vec![
                ("videoId", s(id)),
                ("title", runs(&format!("título {id}"))),
                ("ownerText", runs("canal")),
                ("lengthText", obj(vec![("simpleText", s(clock))])),
            ]),
        )])
    };
    let answer = obj(vec![(
        "contents",
        Json::Arr(vec![
            video("a", "3:34"),
            obj(vec![("shelf", Json::Arr(vec![video("b", "1:00"), video("sin_reloj", "EN DIRECTO")]))]),
            video("c", "10"),
        ]),
    )]);
    let mut out: Vec<SearchResult> = Vec::new();
    collect_videos(&answer, &mut out);
    let ids: Vec<&str> = out.iter().map(|r| r.id.as_str()).collect();
    assert_eq!(ids, ["a", "b", "c"]);
    assert_eq!(out[0].seconds, 214);
    assert_eq!(out[0].title, "título a");
    assert_eq!(out[0].channel, "canal");
}

#[test]
fn rondas_de_clientes() {
    assert!(matches!(round_end(1, false, "privado".into()), RoundEnd::GiveUp(m) if m == "privado"));
    assert!(matches!(round_end(1, true, "x".into()), RoundEnd::Retry(1500)));
    assert!(matches!(round_end(2, true, "x".into()), RoundEnd::Retry(3000)));
    match round_end(INFO_ROUNDS, true, "x".into()) {
        RoundEnd::GiveUp(m) => assert!(m.starts_with("YouTube solo entrega los primeros ~60 segundos")),
        RoundEnd::Retry(_) => panic!("la última ronda se rinde"),
    }
}

fn find<'a>(j: &'a Json, k: &str) -> Option<&'a Json> {
    match j {
        Json::Obj(ps) => ps.iter().find(|(n, _)| n == k).map(|(_, v)| v),
        _ => None,
    }
}

fn text_of(j: Option<&Json>) -> Option<String> {
    match j {
        Some(Json::Str(t)) => Some(t.clone()),
        _ => None,
    }
}

#[test]
fn clientes_por_orden() {
    let cs = clients();
    assert_eq!(cs.len(), CLIENT_COUNT);
    let names: Vec<&str> = cs.iter().map(|c| c.name.as_str()).collect();
    assert_eq!(names, vec!["VISIONOS", "ANDROID_VR", "ANDROID", "IOS"]);
    let ids: Vec<u32> = cs.iter().map(|c| c.id).collect();
    assert_eq!(ids, vec![101, 28, 3, 5]);
    assert!(cs[2].ua.starts_with("com.google.android.youtube/20.10.38"));
}

#[test]
fn cuerpo_del_reproductor() {
    let b = player_body(1, Some(20000), "dQw4w9WgXcQ");
    assert_eq!(text_of(find(&b, "videoId")), Some("dQw4w9WgXcQ".to_string()));
    assert!(matches!(find(&b, "contentCheckOk"), Some(Json::Bool(true))));
    let client = find(find(&b, "context").unwrap(), "client").unwrap();
    assert_eq!(text_of(find(client, "clientName")), Some("ANDROID_VR".to_string()));
    assert_eq!(text_of(find(client, "clientVersion")), Some("1.60.19".to_string()));
    assert!(matches!(find(client, "androidSdkVersion"), Some(Json::Num(Some(32)))));
    assert_eq!(text_of(find(client, "timeZone")), Some("UTC".to_string()));
    let pb = find(find(&b, "playbackContext").unwrap(), "contentPlaybackContext").unwrap();
    assert!(matches!(find(pb, "signatureTimestamp"), Some(Json::Num(Some(20000)))));
    let sin = player_body(0, None, "x");
    let pb = find(find(&sin, "playbackContext").unwrap(), "contentPlaybackContext").unwrap();
    assert!(find(pb, "signatureTimestamp").is_none());
    assert_eq!(text_of(find(pb, "html5Preference")), Some("HTML5_PREF_WANTS".to_string()));
}

#[test]
fn cuerpo_de_la_busqueda() {
    let s = Session { cookies: String::new(), visitor_data: "Cgt4".to_string(), sts: None, web_version: None };
    assert_eq!(web_version(&s), "2.20260918.00.00");
    let b = search_body(&s, "daft punk");
    assert_eq!(text_of(find(&b, "query")), Some("daft punk".to_string()));
    assert_eq!(text_of(find(&b, "params")), Some("EgIQAQ%3D%3D".to_string()));
    let client = find(find(&b, "context").unwrap(), "client").unwrap();
    assert_eq!(text_of(find(client, "clientName")), Some("WEB".to_string()));
    assert_eq!(text_of(find(client, "clientVersion")), Some("2.20260918.00.00".to_string()));
    assert_eq!(text_of(find(client, "visitorData")), Some("Cgt4".to_string()));
    assert_eq!(text_of(find(client, "gl")), Some("US".to_string()));
    let s2 = Session { cookies: String::new(), visitor_data: String::new(), sts: None, web_version: Some("2.2025".to_string()) };
    assert_eq!(web_version(&s2), "2.2025");
}

#[test]
fn paso_tras_cada_cliente() {
    assert!(matches!(after_client(ClientOutcome::Full, false, "x".to_string()), ClientStep::Done));
    match after_client(ClientOutcome::Truncated, false, "antes".to_string()) {
        ClientStep::Next { truncated, last_error } => {
            assert!(truncated);
            assert_eq!(last_error, "antes");
        }
        ClientStep::Done => panic!("debía seguir"),
    }
    match after_client(ClientOutcome::Failed("HTTP 403".to_string()), true, "antes".to_string()) {
        ClientStep::Next { truncated, last_error } => {
            assert!(truncated);
            assert_eq!(last_error, "HTTP 403");
        }
        ClientStep::Done => panic!("debía seguir"),
    }
}
