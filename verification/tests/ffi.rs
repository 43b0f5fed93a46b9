use resonda::ffi::{
    available_heights, output_of, overall_progress, spotify_kind_code, spotify_output, stage_code,
    UnknownFormat, RS_FORMAT_AAC, RS_FORMAT_FLAC, RS_FORMAT_M4A, RS_FORMAT_MP3, RS_FORMAT_MP4, RS_FORMAT_WAV,
};
use resonda::pipeline::{Output, Stage};
use resonda::sources::spotify::Kind as SpotifyKind;
use resonda::sources::youtube::{Format, Kind, VideoInfo};

#[test]
fn codigos_de_formato() {
    assert_eq!(output_of(RS_FORMAT_MP4, 0), Ok((Output::Mp4, false)));
    assert_eq!(output_of(RS_FORMAT_M4A, 0), Ok((Output::Mp4, true)));
    assert_eq!(output_of(RS_FORMAT_AAC, 0), Ok((Output::Adts, true)));
    assert_eq!(output_of(RS_FORMAT_WAV, 0), Ok((Output::Wav, true)));
    assert_eq!(output_of(RS_FORMAT_FLAC, 0), Ok((Output::Flac, true)));
    assert_eq!(output_of(RS_FORMAT_MP3, 256), Ok((Output::Mp3(256), true)));
    assert_eq!(output_of(9, 0), Err(UnknownFormat(9)));
    assert_eq!(UnknownFormat(9).message(), "Formato desconocido: 9");
    assert_eq!(UnknownFormat(-3).message(), "Formato desconocido: -3");
    assert_eq!(UnknownFormat(i32::MIN).message(), "Formato desconocido: -2147483648");
    assert_eq!(spotify_output(RS_FORMAT_MP4, 0), Ok(Output::Mp4));
    assert_eq!(spotify_output(RS_FORMAT_MP3, 128), Ok(Output::Mp3(128)));
    assert_eq!(spotify_output(42, 0), Err(UnknownFormat(42)));
}

#[test]
fn codigos_de_etapa_y_de_enlace() {
    assert_eq!(stage_code(Stage::Video), 0);
    assert_eq!(stage_code(Stage::Audio), 1);
    assert_eq!(stage_code(Stage::Muxing), 2);
    assert_eq!(spotify_kind_code(SpotifyKind::Track), 0);
    assert_eq!(spotify_kind_code(SpotifyKind::Album), 1);
    assert_eq!(spotify_kind_code(SpotifyKind::Playlist), 2);
}

#[test]
fn progreso_global() {
    assert_eq!(overall_progress(Some((100, 50)), Stage::Video, 30, 100), (30, 150));
    assert_eq!(overall_progress(Some((100, 50)), Stage::Audio, 20, 50), (120, 150));
    assert_eq!(overall_progress(Some((100, 50)), Stage::Muxing, 0, 0), (150, 150));
    assert_eq!(overall_progress(None, Stage::Audio, 20, 50), (20, 50));
}

fn fmt(kind: Kind, codec: &str, height: u32) -> Format {
    Format { itag: 1, url: String::new(), kind, codec: codec.into(), height, fps: 30, bitrate: 1, size: 1 }
}

#[test]
fn alturas_disponibles_sin_repetir() {
    let info = VideoInfo {
        id: "x".into(),
        title: "t".into(),
        seconds: 1,
        formats: vec![
            fmt(Kind::Video, "avc1", 720),
            fmt(Kind::Video, "av01", 1080),
            fmt(Kind::Video, "avc1", 1080),
            fmt(Kind::Video, "vp09", 2160),
            fmt(Kind::Muxed, "avc1", 360),
            fmt(Kind::Audio, "mp4a", 0),
            fmt(Kind::Video, "avc1", 144),
        ],
        ua: String::new(),
    };
    assert_eq!(available_heights(&info), vec![1080, 720, 144]);
}

