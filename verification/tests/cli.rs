use resonda::cli::{format_output, max_height_of, parse_args, song_output, songs_to_fetch};
use resonda::pipeline::Output;

fn args(a: &[&str]) -> Vec<String> {
    a.iter().map(|s| s.to_string()).collect()
}

#[test]
fn opciones_por_defecto() {
    let o = parse_args(&args(&["dQw4w9WgXcQ"])).unwrap().unwrap();
    assert_eq!(o.quality, "1080");
    assert_eq!(o.dir, ".");
    assert_eq!(o.format, "mp4");
    assert_eq!(o.bitrate, 0);
    assert!(!o.list);
    assert_eq!(o.limit, None);
    assert_eq!(o.output, None);
    assert_eq!(o.inputs, vec!["dQw4w9WgXcQ".to_string()]);
}

#[test]
fn opciones_con_valor() {
    let o = parse_args(&args(&["-q", "720", "--format=MP3", "-b", "320", "a", "--dir=música", "-n", "3", "-l", "b", "-"]))
        .unwrap()
        .unwrap();
    assert_eq!(o.quality, "720");
    assert_eq!(o.format, "mp3");
    assert_eq!(o.bitrate, 320);
    assert_eq!(o.dir, "música");
    assert_eq!(o.limit, Some(3));
    assert!(o.list);
    assert_eq!(o.inputs, vec!["a".to_string(), "b".to_string(), "-".to_string()]);
    let o = parse_args(&args(&["-a", "-o", "x.m4a", "id"])).unwrap().unwrap();
    assert_eq!(o.format, "m4a");
    assert_eq!(o.output, Some("x.m4a".to_string()));
}

#[test]
fn errores_y_ayuda() {
    assert!(parse_args(&args(&["-h", "--nope"])).unwrap().is_none());
    assert_eq!(parse_args(&args(&["--nope"])).err(), Some("Opción desconocida: --nope".to_string()));
    assert_eq!(parse_args(&args(&["--zz=1"])).err(), Some("Opción desconocida: --zz".to_string()));
    assert_eq!(parse_args(&args(&["-q"])).err(), Some("Falta el valor de --quality".to_string()));
    assert_eq!(parse_args(&args(&["-b", "mucho"])).err(), Some("El valor de --bitrate debe ser un número".to_string()));
    assert_eq!(parse_args(&args(&["-n", "-1"])).err(), Some("El valor de --limit debe ser un número".to_string()));
}

#[test]
fn formatos_y_calidades() {
    assert_eq!(format_output("mp4", 0), Ok((Output::Mp4, false)));
    assert_eq!(format_output("m4a", 0), Ok((Output::Mp4, true)));
    assert_eq!(format_output("mp3", 256), Ok((Output::Mp3(256), true)));
    assert_eq!(format_output("ogg", 0), Err("Formato no soportado: \"ogg\" (usa mp4, mp3, flac, wav, m4a o aac)".to_string()));
    assert_eq!(max_height_of("best"), Ok(u32::MAX));
    assert_eq!(max_height_of("480"), Ok(480));
    assert_eq!(max_height_of("0"), Err("Calidad no válida: \"0\"".to_string()));
    assert_eq!(max_height_of("alta"), Err("Calidad no válida: \"alta\"".to_string()));
    assert_eq!(song_output("mp4", 0), Ok(Output::Mp4));
    assert_eq!(song_output("flac", 0), Ok(Output::Flac));
    assert!(song_output("ogg", 0).is_err());
    assert_eq!(songs_to_fetch(10, Some(3)), 3);
    assert_eq!(songs_to_fetch(2, Some(3)), 2);
    assert_eq!(songs_to_fetch(2, None), 2);
}
