use yaz0::deflate::{compress, compress_with_progress, ProgressMsg};
use yaz0::{CompressionLevel, Yaz0Archive, Yaz0Writer};

#[test]
fn deflate_naive() {
    let q = CompressionLevel::Naive { quality: 10 };

    assert_eq!(compress(&[12, 34, 56], q), vec![0xe0, 12, 34, 56]);

    assert_eq!(
        compress(&[0, 1, 2, 0xa, 0, 1, 2, 3, 0xb, 0, 1, 2, 3, 4, 5, 6, 7], q),
        vec![
            0xf6, /* | id:  */ 0, 1, 2, 0xa, /*   run: */ 0x10, 0x03, /*   id:  */ 3,
            0xb, /*   run: */ 0x20, 0x04, 0xf0, /* | id:  */ 4, 5, 6, 7,
        ]
    );
}

#[test]
fn deflate_with_lookahead() {
    let q = CompressionLevel::Lookahead { quality: 10 };

    assert_eq!(
        compress(&[0, 0, 0, 0xa, 0, 0, 0, 0, 0, 0, 0, 0, 0, 0, 0xa], q),
        vec![
            0xfa, /* | id:  */ 0, 0, 0, 10, 0, /*   run: */ 0x70, 0x00,
            /*   id:  */ 0xa,
        ]
    );
}

#[test]
fn deflate_run() {
    let q = CompressionLevel::Lookahead { quality: 10 };

    assert_eq!(
        compress(&[0; 30], q),
        vec![0x80, /*| id: */ 0, /* compr: */ 0, 0, 11]
    );
}

#[test]
fn inverts() {
    for _ in 0..10 {
        let data: Vec<u8> = rand::random_iter().take(50).collect();

        let mut writer = Yaz0Writer::new(Vec::new());
        writer
            .compress_and_write(&data, CompressionLevel::Lookahead { quality: 10 })
            .expect("Could not deflate");
        let deflated = writer.into_inner();

        let inflated = Yaz0Archive::new(deflated)
            .expect("Error creating Yaz0Archive")
            .decompress()
            .expect("Error deflating Yaz0 archive");

        assert_eq!(inflated, data);
    }
}

#[test]
fn round_trip_every_level_and_strategy() {
    let data: Vec<u8> = (0u16..400)
        .map(|i| ((i * 7) % 256) as u8)
        .chain([3u8; 97])
        .chain((0u16..64).map(|i| (i % 5) as u8))
        .collect();

    for quality in 1..=10usize {
        for level in [
            CompressionLevel::Naive { quality },
            CompressionLevel::Lookahead { quality },
        ] {
            let mut writer = Yaz0Writer::new(Vec::new());
            writer.compress_and_write(&data, level).unwrap();
            let mut archive = Yaz0Archive::new(writer.into_inner()).unwrap();
            assert_eq!(archive.decompress().unwrap(), data);
        }
    }
}

#[test]
fn round_trip_empty_input() {
    assert_eq!(
        compress(&[], CompressionLevel::Naive { quality: 10 }),
        Vec::<u8>::new()
    );

    let mut writer = Yaz0Writer::new(Vec::new());
    writer
        .compress_and_write(&[], CompressionLevel::Lookahead { quality: 10 })
        .unwrap();
    let deflated = writer.into_inner();
    assert_eq!(deflated.len(), 16);

    let mut archive = Yaz0Archive::new(deflated).unwrap();
    assert_eq!(archive.expected_size(), 0);
    assert_eq!(archive.decompress().unwrap(), Vec::<u8>::new());
}

#[test]
fn header_declares_input_length() {
    let data: Vec<u8> = (0u16..300).map(|i| (i % 11) as u8).collect();

    let mut writer = Yaz0Writer::new(Vec::new());
    writer
        .compress_and_write(&data, CompressionLevel::Naive { quality: 10 })
        .unwrap();
    let archive = Yaz0Archive::new(writer.into_inner()).unwrap();

    assert_eq!(archive.expected_size(), data.len());
}

#[test]
fn progress_heads_are_monotone_and_bounded() {
    let data: Vec<u8> = (0u16..500).map(|i| ((i * 31) % 256) as u8).collect();

    let (tx, rx) = std::sync::mpsc::channel::<ProgressMsg>();
    let compressed = compress_with_progress(&data, CompressionLevel::Lookahead { quality: 10 }, tx);
    assert!(!compressed.is_empty());

    let heads: Vec<usize> = rx.try_iter().map(|m| m.read_head).collect();
    assert!(!heads.is_empty());
    for pair in heads.windows(2) {
        assert!(pair[0] <= pair[1]);
    }
    for h in heads {
        assert!(h <= data.len());
    }
}

#[test]
fn progress_send_survives_hung_up_receiver() {
    let data: Vec<u8> = (0u16..200).map(|i| (i % 7) as u8).collect();

    let (tx, rx) = std::sync::mpsc::channel::<ProgressMsg>();
    drop(rx);
    // send errors from the missing observer are swallowed
    let compressed = compress_with_progress(&data, CompressionLevel::Naive { quality: 10 }, tx);
    assert!(!compressed.is_empty());
}

#[test]
fn backrefs_stay_in_bounds() {
    // a highly repetitive input forces long back-references; decode the
    // stream by hand and check every distance and length field
    let data: Vec<u8> = (0u16..1200).map(|i| (i % 3) as u8).collect();
    let stream = compress(&data, CompressionLevel::Lookahead { quality: 10 });

    let mut pos = 0usize;
    let mut produced = 0usize;
    while produced < data.len() {
        let codon = stream[pos];
        pos += 1;
        let mut bit = 0;
        while bit < 8 && produced < data.len() {
            if codon & (0x80 >> bit) != 0 {
                pos += 1;
                produced += 1;
            } else {
                let b1 = stream[pos];
                let b2 = stream[pos + 1];
                let dist = (((b1 & 0xf) as usize) << 8) | b2 as usize;
                let length = if b1 >> 4 == 0 {
                    let l = stream[pos + 2] as usize + 0x12;
                    pos += 3;
                    l
                } else {
                    let l = (b1 >> 4) as usize + 2;
                    pos += 2;
                    l
                };
                assert!(dist <= 4095);
                assert!(dist + 1 <= produced);
                assert!((3..=273).contains(&length));
                produced += length;
            }
            bit += 1;
        }
    }
    assert_eq!(produced, data.len());
}
