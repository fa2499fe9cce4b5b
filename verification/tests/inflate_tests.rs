use yaz0::{Error, Yaz0Archive, Yaz0Header};

/// Inflate a hand-assembled archive that uses all three packet shapes,
/// including a self-overlapping long back-reference, and compare against
/// the bytes it must reproduce.
#[test]
fn test_deflate_bianco() {
    let mut data: Vec<u8> = Vec::new();
    // 'Yaz0', 28 bytes when inflated, 8 bytes of padding
    data.extend([0x59, 0x61, 0x7a, 0x30]);
    data.extend([0x00, 0x00, 0x00, 0x1c]);
    data.extend([0x00; 8]);
    // three literals; a short run (length 5, distance 0); a long run
    // (length 0x02 + 0x12 = 20, distance 7) overlapping its own output
    data.extend([0xe0, 1, 2, 3, 0x30, 0x00, 0x00, 0x07, 0x02]);

    let reference: Vec<u8> = vec![
        1, 2, 3, 3, 3, 3, 3, 3, //
        1, 2, 3, 3, 3, 3, 3, 3, //
        1, 2, 3, 3, 3, 3, 3, 3, //
        1, 2, 3, 3,
    ];

    let mut archive = Yaz0Archive::new(data).unwrap();
    let inflated = archive.decompress().unwrap();

    println!("{} :: {}", inflated.len(), reference.len());
    assert!(
        inflated == reference,
        "inflated archive did not match reference inflation!"
    );
}

/// Load a small constructed Yaz0 file containing arbitrary payload bytes.
/// Note: this file will almost certainly error if decompression is
/// attempted.
#[test]
fn test_load() {
    let data: Vec<u8> = vec![
        // 'Yaz0'
        0x59, 0x61, 0x7a, 0x30, //
        // 13371337 bytes, when deflated
        0x00, 0xcc, 0x07, 0xc9, //
        // 8 bytes of zeros
        0x00, 0x00, 0x00, 0x00, 0x00, 0x00, 0x00, 0x00, //
        // 20 bytes of (arbitrary) data
        0x69, 0x95, 0xa4, 0xa3, 0x5f, 0xfd, 0xf6, 0x8c, 0x7d, 0xee, 0x93, 0xc5, 0x4a, 0x1f, 0xd3,
        0x19, 0xdc, 0x78, 0xfd, 0x3f,
    ];

    let f = Yaz0Archive::new(data).unwrap();

    assert_eq!(f.expected_size(), 13371337);
}

/// Check that the Yaz0 header parsing fails when provided with a file not
/// starting with the Yaz0 magic.
#[test]
fn test_bad_magic() {
    let data: Vec<u8> = vec![
        // 'Foo0'
        0x46, 0x6f, 0x6f, 0x30, //
        // 13371337 bytes, when deflated
        0x00, 0xcc, 0x07, 0xc9, //
        // 8 bytes of zeros
        0x00, 0x00, 0x00, 0x00, 0x00, 0x00, 0x00, 0x00,
    ];

    let result = Yaz0Archive::new(data);

    assert!(result.is_err());
    assert!(matches!(result, Err(Error::InvalidMagic)));
}

#[test]
fn header_roundtrip_exact_sizes() {
    for n in [0usize, 1, 255, 256, 13371337, 0xffff_ffff] {
        let mut bytes: Vec<u8> = Vec::new();
        Yaz0Header::new(n).write(&mut bytes);
        assert_eq!(bytes.len(), 16);
        let parsed = Yaz0Header::parse(&bytes).unwrap();
        assert_eq!(parsed.expected_size, n);
    }
}

#[test]
fn parse_rejects_exactly_bad_magic() {
    // the magic is compared bitwise: a single flipped bit is rejected
    let good = [0x59u8, 0x61, 0x7a, 0x30, 0, 0, 0, 5];
    assert!(Yaz0Header::parse(&good).is_ok());

    for i in 0..4 {
        let mut bad = good;
        bad[i] ^= 1;
        assert!(matches!(Yaz0Header::parse(&bad), Err(Error::InvalidMagic)));
    }

    // too short for the magic: an i/o failure, not a magic failure
    assert!(matches!(Yaz0Header::parse(&[0x59, 0x61]), Err(Error::Io)));
    // magic alone, size field missing
    assert!(matches!(
        Yaz0Header::parse(&[0x59, 0x61, 0x7a, 0x30, 0, 0]),
        Err(Error::Io)
    ));
}

#[test]
fn truncated_stream_fails_with_io() {
    let mut data: Vec<u8> = Vec::new();
    data.extend([0x59, 0x61, 0x7a, 0x30]);
    data.extend([0x00, 0x00, 0x00, 0x04]); // four bytes promised
    data.extend([0x00; 8]);
    data.extend([0xe0, 1, 2]); // ...but only two literals arrive

    let mut archive = Yaz0Archive::new(data).unwrap();
    assert!(matches!(archive.decompress(), Err(Error::Io)));
}

#[test]
fn backreference_before_start_fails_with_io() {
    let mut data: Vec<u8> = Vec::new();
    data.extend([0x59, 0x61, 0x7a, 0x30]);
    data.extend([0x00, 0x00, 0x00, 0x08]);
    data.extend([0x00; 8]);
    // first packet is a back-reference, but nothing was emitted yet
    data.extend([0x00, 0x30, 0x00]);

    let mut archive = Yaz0Archive::new(data).unwrap();
    assert!(matches!(archive.decompress(), Err(Error::Io)));
}

#[test]
fn decompress_into_leaves_tail_untouched() {
    let mut data: Vec<u8> = Vec::new();
    data.extend([0x59, 0x61, 0x7a, 0x30]);
    data.extend([0x00, 0x00, 0x00, 0x03]);
    data.extend([0x00; 8]);
    data.extend([0xe0, 7, 8, 9]);

    let mut archive = Yaz0Archive::new(data).unwrap();
    let mut dest = vec![0xaa; 5];
    archive.decompress_into(&mut dest).unwrap();
    assert_eq!(dest, vec![7, 8, 9, 0xaa, 0xaa]);
}

#[test]
fn error_messages_render() {
    assert_eq!(Error::InvalidMagic.message(), "yaz0 header magic invalid");
    assert_eq!(Error::Io.message(), "backing i/o error");
}
