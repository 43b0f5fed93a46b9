use resonda::media::bits::{zigzag_u64, Bits};
use resonda::media::flac::{crc16, crc8, residual, FlacWriter};
use resonda::media::mp3::Mp3Writer;
use resonda::media::mp4::boxes::BoxNode;
use resonda::media::mp4::track::Track;
use resonda::media::pcm::{pcm_or_silence, AacPcm};
use resonda::media::mp3::{frame, id3v2, synchsafe, text_payload};
use resonda::media::mp4::aac::{adts_header, audio_specific_config, AacStream};
use resonda::media::mp4::boxes::{bx, children, full_box, top_box, u32_at, i32_at, i64_at, u64_at, w32, Mp4Error};
use resonda::media::mp4::mux::{mux_inputs, MuxInput};
use resonda::media::pcm::{PcmFormat, PcmSink};
use resonda::media::wav::WavWriter;
use resonda::media::Tags;

fn find(hay: &[u8], needle: &[u8]) -> Option<usize> {
    hay.windows(needle.len()).position(|w| w == needle)
}

#[test]
fn etiqueta_id3_bien_formada() {
    let t = Tags {
        title: "Título".into(),
        artist: "Art".into(),
        album: Some("Alb".into()),
        year: Some("2001".into()),
        cover: Some(vec![0xff, 0xd8, 1, 2]),
    };
    let id3 = id3v2(&t);
    assert_eq!(&id3[0..3], b"ID3");
    let size = ((id3[6] as usize) << 21) | ((id3[7] as usize) << 14) | ((id3[8] as usize) << 7) | id3[9] as usize;
    assert_eq!(size, id3.len() - 10);
    for f in ["TIT2", "TPE1", "TALB", "TYER", "APIC"] {
        assert!(id3.windows(4).any(|w| w == f.as_bytes()), "falta {f}");
    }
}

#[test]
fn id3_sin_album_ni_portada_omite_esos_marcos() {
    let t = Tags { title: "A".into(), artist: "B".into(), album: None, year: None, cover: None };
    let id3 = id3v2(&t);
    assert!(find(&id3, b"TALB").is_none());
    assert!(find(&id3, b"APIC").is_none());
    assert!(find(&id3, b"TYER").is_none());
    assert_eq!(&id3[3..6], &[3, 0, 0]);
}

#[test]
fn synchsafe_usa_siete_bits_por_byte() {
    assert_eq!(synchsafe(0), [0, 0, 0, 0]);
    assert_eq!(synchsafe(127), [0, 0, 0, 0x7f]);
    assert_eq!(synchsafe(128), [0, 0, 1, 0]);
    assert_eq!(synchsafe(0x0fff_ffff), [0x7f, 0x7f, 0x7f, 0x7f]);
}

#[test]
fn texto_id3_latin1_o_utf16_con_bom() {
    assert_eq!(text_payload("A"), vec![0, 0x41]);
    assert_eq!(text_payload("é"), vec![0, 0xe9]);
    assert_eq!(text_payload("Título"), vec![0, b'T', 0xed, b't', b'u', b'l', b'o']);
    assert_eq!(text_payload("Œ"), vec![1, 0xff, 0xfe, 0x52, 0x01]);
    assert_eq!(text_payload("🎵"), vec![1, 0xff, 0xfe, 0x3c, 0xd8, 0xb5, 0xdf]);
    let f = frame(b"TIT2", &[1, 2, 3]);
    assert_eq!(f, vec![b'T', b'I', b'T', b'2', 0, 0, 0, 3, 0, 0, 1, 2, 3]);
}

#[test]
fn cabecera_adts() {
    // AAC-LC, 44,1 kHz, estéreo, 100 bytes de datos: la longitud del fotograma incluye la
    // propia cabecera (107)
    assert_eq!(adts_header(1, 4, 2, 100), [0xff, 0xf1, 0x50, 0x80, 0x0d, 0x7f, 0xfc]);
}

#[test]
fn audio_specific_config_de_un_esds() {
    // esds típico: 03 len | ES_ID(2) flags(1) | 04 len | 13 bytes | 05 02 12 10
    let mut esds = vec![0, 0, 0, 0, 0x03, 0x19, 0, 0, 0, 0x04, 0x11];
    esds.extend([0x40, 0x15, 0, 0, 0, 0, 0, 0, 0, 0, 0, 0, 0]);
    esds.extend([0x05, 0x02, 0x12, 0x10]);
    assert_eq!(audio_specific_config(&esds), Some(vec![0x12, 0x10]));
}

#[test]
fn esds_sin_descriptor_05_no_da_configuracion() {
    let esds = vec![0, 0, 0, 0, 0x03, 0x03, 0, 0, 0];
    assert_eq!(audio_specific_config(&esds), None);
}

#[test]
fn una_caja_se_lee_como_se_escribio() {
    let b = bx(b"free", vec![vec![1, 2, 3], vec![4]]);
    assert_eq!(b, vec![0, 0, 0, 12, b'f', b'r', b'e', b'e', 1, 2, 3, 4]);
    let kids = children(&b, 0, b.len()).unwrap();
    assert_eq!(kids.len(), 1);
    assert_eq!(&kids[0].typ, b"free");
    assert_eq!((kids[0].start, kids[0].body, kids[0].end), (0, 8, 12));
    assert_eq!(w32(&[1, 0x0102_0304]), vec![0, 0, 0, 1, 1, 2, 3, 4]);
    assert_eq!(u32_at(&b, 0), Ok(12));
    assert_eq!(u32_at(&b, 10), Err(Mp4Error::OutOfRange));
}

#[test]
fn cabecera_de_caja_de_nivel_superior() {
    let head = [0, 0, 0, 16, b'm', b'o', b'o', b'v'];
    assert_eq!(top_box(&head, 0, 100), Ok((*b"moov", 16)));
    // longitud 0: hasta el final del archivo
    let head = [0, 0, 0, 0, b'm', b'd', b'a', b't'];
    assert_eq!(top_box(&head, 40, 100), Ok((*b"mdat", 60)));
    // se sale del archivo
    let head = [0, 0, 0, 200, b'm', b'd', b'a', b't'];
    assert_eq!(top_box(&head, 0, 100), Err(Mp4Error::Incomplete(*b"mdat")));
}

/// MP4 fragmentado mínimo: una pista de "vídeo" con 3 muestras (10+20+30 bytes).
fn tiny_fragmented() -> (Vec<u8>, Vec<u8>) {
    let mut mvhd = vec![0u8; 100];
    mvhd[12..16].copy_from_slice(&1000u32.to_be_bytes());
    let mut mdhd = vec![0u8; 24];
    mdhd[12..16].copy_from_slice(&1000u32.to_be_bytes());
    let stsd = full_box(b"stsd", 0, 0, vec![w32(&[1]), bx(b"avc1", vec![vec![0; 78]])]);
    let minf = bx(b"minf", vec![bx(b"stbl", vec![stsd])]);
    let mdia = bx(b"mdia", vec![bx(b"mdhd", vec![mdhd]), bx(b"hdlr", vec![vec![0; 24]]), minf]);
    let trak = bx(b"trak", vec![bx(b"tkhd", vec![vec![0; 84]]), mdia]);
    let mvex = bx(b"mvex", vec![full_box(b"trex", 0, 0, vec![w32(&[1, 1, 0, 0, 0])])]);
    let moov = bx(b"moov", vec![bx(b"mvhd", vec![mvhd]), trak, mvex]);

    let payload: Vec<u8> = (0..60u8).collect();
    let build_moof = |data_offset: u32| {
        bx(
            b"moof",
            vec![
                full_box(b"mfhd", 0, 0, vec![w32(&[1])]),
                bx(
                    b"traf",
                    vec![
                        full_box(b"tfhd", 0, 0x02_0008, vec![w32(&[1, 100])]),
                        full_box(b"tfdt", 0, 0, vec![w32(&[0])]),
                        full_box(b"trun", 0, 0x201, vec![w32(&[3, data_offset, 10, 20, 30])]),
                    ],
                ),
            ],
        )
    };
    let moof = build_moof(build_moof(0).len() as u32 + 8);
    let mut file = bx(b"ftyp", vec![b"dash".to_vec(), w32(&[0])]);
    file.extend(moov);
    file.extend(moof);
    file.extend(bx(b"mdat", vec![payload.clone()]));
    (file, payload)
}

/// Recorre las cajas de nivel superior de un archivo en memoria y se queda con moov y moof.
fn scan(bytes: &[u8]) -> Result<MuxInput, Mp4Error> {
    let size = bytes.len() as u64;
    let mut moov = None;
    let mut moofs = Vec::new();
    let mut o = 0u64;
    while o + 8 <= size {
        let end = (o as usize + 16).min(bytes.len());
        let (typ, len) = top_box(&bytes[o as usize..end], o, size)?;
        let b = bytes[o as usize..(o + len) as usize].to_vec();
        if &typ == b"moov" {
            moov = Some(b);
        } else if &typ == b"moof" {
            moofs.push((o, b));
        }
        o += len;
    }
    Ok(MuxInput { moov: moov.ok_or(Mp4Error::NoMoov)?, moofs, size })
}

/// Une en memoria: lo mismo que hace el programa con archivos.
fn mux_bytes(inputs: &[&[u8]], tags: Option<&Tags>) -> Result<Vec<u8>, Mp4Error> {
    let scanned = inputs.iter().map(|b| scan(b)).collect::<Result<Vec<_>, _>>()?;
    let (tracks, layout) = mux_inputs(&scanned, tags)?;
    let mut out = Vec::new();
    out.extend(&layout.ftyp);
    out.extend(&layout.moov);
    out.extend(&layout.mdat_head);
    assert_eq!(out.len() as u64, layout.data_start);
    for &(ti, ci) in &layout.entries {
        let c = &tracks[ti].chunks[ci];
        assert_eq!(c.out, out.len() as u64);
        out.extend(&inputs[ti][c.src as usize..(c.src + c.len) as usize]);
    }
    Ok(out)
}

#[test]
fn remux_conserva_los_datos_y_deja_moov_delante() {
    let (input, payload) = tiny_fragmented();
    let out = mux_bytes(&[&input], None).unwrap();
    assert_eq!(&out[4..8], b"ftyp");
    let boxes: Vec<_> = children(&out, 0, out.len()).unwrap().iter().map(|b| b.typ).collect();
    assert_eq!(boxes, [*b"ftyp", *b"moov", *b"mdat"]);
    assert_eq!(&out[out.len() - payload.len()..], &payload[..]);
    // 3 muestras de 10, 20 y 30 bytes en stsz
    let pos = find(&out, b"stsz").unwrap();
    assert_eq!(u32_at(&out, pos + 12).unwrap(), 3);
    assert_eq!(
        [u32_at(&out, pos + 16).unwrap(), u32_at(&out, pos + 20).unwrap(), u32_at(&out, pos + 24).unwrap()],
        [10, 20, 30]
    );
}

#[test]
fn las_etiquetas_se_escriben_y_no_rompen_los_offsets() {
    let (input, payload) = tiny_fragmented();
    let tags = Tags {
        title: "Título ñ".into(),
        artist: "Artista".into(),
        album: Some("Álbum".into()),
        year: Some("1987".into()),
        cover: Some(vec![0xff, 0xd8, 1, 2, 3]),
    };
    let out = mux_bytes(&[&input], Some(&tags)).unwrap();
    for needle in ["ilst", "covr", "Título ñ", "Artista", "Álbum", "1987"] {
        assert!(out.windows(needle.len()).any(|w| w == needle.as_bytes()), "falta {needle}");
    }
    assert_eq!(&out[out.len() - payload.len()..], &payload[..]);
    let stco = find(&out, b"stco").unwrap();
    let offset = u32_at(&out, stco + 12).unwrap() as usize;
    assert_eq!(&out[offset..offset + 10], &payload[..10]);
}

#[test]
fn entrada_corrupta_da_error_y_no_panico() {
    let (input, _) = tiny_fragmented();
    for n in 0..input.len() {
        let _ = mux_bytes(&[&input[..n]], None);
    }
    for i in 0..input.len() {
        for v in [0xff, 0x00] {
            let mut bad = input.clone();
            bad[i] = v;
            let _ = mux_bytes(&[&bad], None);
        }
    }
}

#[test]
fn una_pista_de_video_no_es_aac() {
    let (input, _) = tiny_fragmented();
    let m = scan(&input).unwrap();
    assert!(matches!(AacStream::open_input(&m), Err(Mp4Error::NotAac)));
}

#[test]
fn sin_moov_no_hay_pista() {
    let file = bx(b"ftyp", vec![b"dash".to_vec(), w32(&[0])]);
    assert!(matches!(scan(&file), Err(Mp4Error::NoMoov)));
}

fn apply(file: &mut Vec<u8>, end: resonda::media::pcm::SinkEnd) {
    file.extend(end.tail);
    for (pos, bytes) in end.patches {
        let p = pos as usize;
        file[p..p + bytes.len()].copy_from_slice(&bytes);
    }
}

#[test]
fn wav_valido_con_etiquetas() {
    let tags = Tags { title: "Título".into(), artist: "Artista".into(), album: Some("Álbum".into()), year: Some("1999".into()), cover: None };
    let mut w = WavWriter::new(Some(tags));
    let mut b = PcmSink::start(&mut w, PcmFormat { sample_rate: 44100, channels: 2 }).unwrap();
    b.extend(PcmSink::write(&mut w, &[1, -1, 2, -2, 300, -300]).unwrap());
    let end = PcmSink::finish(&mut w).unwrap();
    apply(&mut b, end);
    assert_eq!(&b[0..4], b"RIFF");
    assert_eq!(u32::from_le_bytes(b[4..8].try_into().unwrap()) as usize, b.len() - 8);
    assert_eq!(&b[8..12], b"WAVE");
    let data = b.windows(4).position(|w| w == b"data").unwrap();
    assert_eq!(u32::from_le_bytes(b[data + 4..data + 8].try_into().unwrap()), 12);
    assert_eq!(&b[data + 8..data + 10], &1i16.to_le_bytes());
    assert!(b.windows(4).any(|w| w == b"IART") && b.windows(7).any(|w| w == "Título".as_bytes()[..7].as_ref()));
}

#[test]
fn wav_impar_se_rellena_con_un_byte() {
    let mut w = WavWriter::new(None);
    let mut file = PcmSink::start(&mut w, PcmFormat { sample_rate: 8000, channels: 1 }).unwrap();
    assert_eq!(file.len(), 44);
    file.extend(PcmSink::write(&mut w, &[1, 2, 3]).unwrap());
    let end = PcmSink::finish(&mut w).unwrap();
    apply(&mut file, end);
    assert_eq!(file.len(), 44 + 6);
    assert_eq!(u32::from_le_bytes(file[40..44].try_into().unwrap()), 6);
}

#[test]
fn flac_empieza_por_la_firma_y_streaminfo() {
    let mut w = FlacWriter::new(None);
    let mut file = PcmSink::start(&mut w, PcmFormat { sample_rate: 44100, channels: 2 }).unwrap();
    assert_eq!(&file[0..4], b"fLaC");
    let samples: Vec<i16> = (0..10_000).map(|i| ((i % 200) as i16 - 100) * 50).collect();
    file.extend(PcmSink::write(&mut w, &samples).unwrap());
    let end = PcmSink::finish(&mut w).unwrap();
    apply(&mut file, end);
    // STREAMINFO: bloques de 4096, 44100 Hz, 2 canales, 16 bits, 5000 muestras por canal
    assert_eq!(&file[8..12], &[0x10, 0x00, 0x10, 0x00]);
    let rate = ((file[18] as u32) << 12) | ((file[19] as u32) << 4) | ((file[20] as u32) >> 4);
    assert_eq!(rate, 44100);
    assert_eq!(((file[20] >> 1) & 7) + 1, 2);
    let total = ((file[21] as u64 & 0x0f) << 32) | u32::from_be_bytes(file[22..26].try_into().unwrap()) as u64;
    assert_eq!(total, 5000);
    // cada fotograma empieza por el código de sincronía
    assert!(find(&file[42..], &[0xff, 0xf8]).is_some());
}

#[test]
fn flac_no_empieza_dos_veces() {
    let mut w = FlacWriter::new(None);
    PcmSink::start(&mut w, PcmFormat { sample_rate: 44100, channels: 2 }).unwrap();
    assert!(PcmSink::start(&mut w, PcmFormat { sample_rate: 44100, channels: 2 }).is_err());
}

#[test]
fn crc_de_flac() {
    assert_eq!(crc8(b"123456789"), 0xf4);
    assert_eq!(crc16(b"123456789"), 0xfee8);
    assert_eq!(crc8(&[]), 0);
}

#[test]
fn zigzag_intercala_signos() {
    assert_eq!(zigzag_u64(0), 0);
    assert_eq!(zigzag_u64(-1), 1);
    assert_eq!(zigzag_u64(1), 2);
    assert_eq!(zigzag_u64(-2), 3);
}

#[test]
fn bits_se_escriben_de_mayor_a_menor() {
    let mut b = Bits::new();
    b.put(0b101, 3);
    b.put(0x1f, 5);
    assert_eq!(b.bit_len(), 8);
    b.rice(0, 2);
    b.align();
    assert_eq!(b.bit_len(), 16);
    assert_eq!(b.bytes[0], 0b1011_1111);
    assert_eq!(b.bytes[1], 0b1000_0000);
}

#[test]
fn el_tamano_id3_cuenta_lo_que_sigue_a_la_cabecera() {
    let t = Tags { title: "x".repeat(300), artist: "y".into(), album: None, year: None, cover: Some(vec![7; 1000]) };
    let id3 = id3v2(&t);
    let size = ((id3[6] as usize) << 21) | ((id3[7] as usize) << 14) | ((id3[8] as usize) << 7) | id3[9] as usize;
    assert_eq!(size, id3.len() - 10);
}

#[test]
fn la_longitud_adts_incluye_la_cabecera() {
    for payload in [0usize, 1, 100, 2040, 8184] {
        let h = adts_header(1, 3, 2, payload);
        let len = ((h[3] as usize & 3) << 11) | ((h[4] as usize) << 3) | (h[5] as usize >> 5);
        assert_eq!(len, payload + 7);
    }
}

#[test]
fn mensajes_de_error_del_mp4() {
    assert_eq!(Mp4Error::MissingBox(*b"stsd").message(), "Falta la caja stsd en el MP4 de entrada");
    assert_eq!(Mp4Error::UnsupportedProfile(5, 2).message(), "Perfil AAC no soportado (tipo 5, 2 canales)");
    assert_eq!(Mp4Error::NoMoov.message(), "El MP4 de entrada no tiene moov");
    assert_eq!(
        resonda::media::pcm::PcmError::TooManyChannels(6).message(),
        "Audio de 6 canales no soportado (solo mono o estéreo)"
    );
}

#[test]
fn el_residuo_fijo_se_deshace() {
    let x = [1, 3, 6, 10, 15];
    assert_eq!(residual(&x, 0), vec![1, 3, 6, 10, 15]);
    assert_eq!(residual(&x, 1), vec![2, 3, 4, 5]);
    assert_eq!(residual(&x, 2), vec![1, 1, 1]);
    // orden 1: el primer valor y las diferencias devuelven la señal
    let mut y = vec![x[0] as i64];
    for r in residual(&x, 1) {
        let last = *y.last().unwrap();
        y.push(last + r);
    }
    assert_eq!(y, vec![1, 3, 6, 10, 15]);
}

#[test]
fn mp3_con_etiqueta_y_fotogramas() {
    let tags = Tags { title: "T".into(), artist: "A".into(), album: None, year: None, cover: None };
    let mut w = Mp3Writer::new(Some(tags), 0);
    assert_eq!(w.kbps, 192);
    let mut file = PcmSink::start(&mut w, PcmFormat { sample_rate: 44100, channels: 2 }).unwrap();
    assert_eq!(&file[0..3], b"ID3");
    let samples: Vec<i16> = (0..44100 * 2).map(|i| ((i % 100) as i16 - 50) * 100).collect();
    file.extend(PcmSink::write(&mut w, &samples).unwrap());
    let end = PcmSink::finish(&mut w).unwrap();
    assert!(end.patches.is_empty());
    file.extend(end.tail);
    let id3_len = 10 + (((file[6] as usize) << 21) | ((file[7] as usize) << 14) | ((file[8] as usize) << 7) | file[9] as usize);
    assert!(file.len() > id3_len + 1000);
    // tras la etiqueta empieza un fotograma MPEG (sincronía de 11 bits)
    assert_eq!(file[id3_len], 0xff);
    assert_eq!(file[id3_len + 1] & 0xe0, 0xe0);
}

#[test]
fn mp3_sin_iniciar_da_error() {
    let mut w = Mp3Writer::new(None, 128);
    assert_eq!(PcmSink::write(&mut w, &[0, 0]).err(), Some("MP3 sin iniciar".to_string()));
}

#[test]
fn silencio_para_un_fotograma_danado() {
    assert_eq!(pcm_or_silence(None, 2), vec![0i16; 2048]);
    assert_eq!(pcm_or_silence(Some(vec![1, 2]), 2), vec![1, 2]);
}

fn dummy_track() -> Track {
    let node = BoxNode { typ: *b"trak", start: 0, hdr: 8, body: 8, end: 8 };
    Track { moov: vec![0; 8], trak: node, stsd: node, timescale: 44100, fourcc: *b"mp4a", samples: vec![], chunks: vec![], duration: 0 }
}

#[test]
fn decodificador_aac() {
    // AAC-LC, 44,1 kHz, estéreo
    let aac = AacStream { asc: vec![0x12, 0x10], object_type: 2, freq_index: 4, channels: 2, sample_rate: 44100, track: dummy_track() };
    let mut dec = AacPcm::new(&aac).unwrap();
    let pcm = dec.decode(&[0xff; 16]);
    assert_eq!(pcm.len(), 2048);
    assert_eq!(dec.pts, 1024);
    let many = AacStream { channels: 6, ..aac };
    assert!(matches!(AacPcm::new(&many), Err(resonda::media::pcm::PcmError::TooManyChannels(6))));
}

#[test]
fn mp3_con_una_frecuencia_no_admitida() {
    let mut w = Mp3Writer::new(None, 0);
    PcmSink::start(&mut w, PcmFormat { sample_rate: 7000, channels: 1 }).unwrap();
    let e = PcmSink::write(&mut w, &[0; 1152]).err().unwrap();
    assert!(e.starts_with("Codificador MP3:"), "{e}");
}

#[test]
fn lecturas_con_signo() {
    let b = [0xff, 0xff, 0xff, 0xfe, 0, 0, 0, 0, 0, 0, 0, 7];
    assert_eq!(i32_at(&b, 0), Ok(-2));
    assert_eq!(u32_at(&b, 0), Ok(0xffff_fffe));
    assert_eq!(i64_at(&b, 4), Ok(7));
    assert_eq!(u64_at(&b, 0), Ok(0xffff_fffe_0000_0000));
    assert_eq!(i64_at(&b, 0), Ok(-0x2_0000_0000));
    assert_eq!(i32_at(&b, 9), Err(Mp4Error::OutOfRange));
    assert_eq!(i64_at(&b, 5), Err(Mp4Error::OutOfRange));
}

#[test]
fn cada_subtrama_segun_sus_muestras() {
    // constante: cabecera 0 y una muestra
    let b = resonda::media::flac::subframe(&[5, 5, 5, 5], 16);
    assert_eq!(b.bytes[0], 0x00);
    // muestras distintas: cabecera no nula y nunca más larga que sin comprimir
    let x: Vec<i32> = (0..64).map(|i| (i * 37 % 101) - 50).collect();
    let b = resonda::media::flac::subframe(&x, 16);
    assert_ne!(b.bytes[0], 0x00);
    assert!(b.bit_len() <= 8 + 16 * 64);
}

#[test]
fn cada_trama_cuadra_con_sus_crc() {
    // el CRC-8 de una cabecera seguida de su CRC-8 es 0, y lo mismo con el CRC-16
    let h = [0xff, 0xf8, 0x69, 0x18, 0x00, 0x00];
    let c8 = crc8(&h);
    let mut h2 = h.to_vec();
    h2.push(c8);
    assert_eq!(crc8(&h2), 0);
    let c16 = crc16(&h2);
    h2.push((c16 >> 8) as u8);
    h2.push((c16 & 0xff) as u8);
    assert_eq!(crc16(&h2), 0);
}
