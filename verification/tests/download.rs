use resonda::sources::download::{after_failure, chunk_ranges, content_range_size, range_header, range_len, range_status, AfterFailure, CHUNK};

#[test]
fn trozos_que_cubren_el_archivo() {
    assert!(chunk_ranges(0).is_empty());
    assert_eq!(chunk_ranges(1), vec![(0, 0)]);
    assert_eq!(chunk_ranges(CHUNK), vec![(0, CHUNK - 1)]);
    assert_eq!(chunk_ranges(CHUNK + 1), vec![(0, CHUNK - 1), (CHUNK, CHUNK)]);
    let r = chunk_ranges(3 * CHUNK + 5);
    assert_eq!(r.len(), 4);
    assert_eq!(r[0].0, 0);
    for w in r.windows(2) {
        assert_eq!(w[1].0, w[0].1 + 1);
    }
    assert_eq!(r[3].1, 3 * CHUNK + 4);
}

#[test]
fn cabecera_range() {
    assert_eq!(range_header(0, 8388607), "bytes=0-8388607");
    assert_eq!(range_len(10, 19), 10);
}

#[test]
fn estado_de_un_trozo() {
    assert!(range_status(206).is_ok());
    assert!(range_status(200).is_ok());
    assert_eq!(range_status(403), Err("HTTP 403".to_string()));
}

#[test]
fn reintentos_tras_un_fallo() {
    match after_failure(1, "HTTP 500", 0, 9) {
        AfterFailure::Retry(ms) => assert_eq!(ms, 400),
        _ => panic!("esperaba reintentar"),
    }
    match after_failure(3, "timeout", 0, 9) {
        AfterFailure::Retry(ms) => assert_eq!(ms, 3600),
        _ => panic!("esperaba reintentar"),
    }
    match after_failure(4, "timeout", 5, 9) {
        AfterFailure::GiveUp(ms, m) => {
            assert_eq!(ms, 6400);
            assert_eq!(m, "Fallo descargando bytes 5-9: timeout");
        }
        _ => panic!("esperaba rendirse"),
    }
    match after_failure(1, "HTTP 403 Forbidden", 16, 31) {
        AfterFailure::Refused(m) => assert_eq!(
            m,
            "YouTube cortó la descarga (HTTP 403 a partir del byte 16): no entrega el resto de este vídeo a las apps sin sesión iniciada"
        ),
        _ => panic!("un 403 no se reintenta"),
    }
}

#[test]
fn tamano_de_content_range() {
    assert_eq!(content_range_size("bytes 0-0/12345"), Some(12345));
    assert_eq!(content_range_size("bytes 0-0/*"), None);
    assert_eq!(content_range_size("777"), Some(777));
    assert_eq!(content_range_size("a/b/42"), Some(42));
    assert_eq!(content_range_size("bytes 0-0/"), None);
}
