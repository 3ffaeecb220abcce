use exiftime::error::ExifError;
use exiftime::jpeg::find_exif_segment;

fn app1(payload: &[u8]) -> Vec<u8> {
    let mut seg = vec![0xFF, 0xE1];
    let len = (2 + payload.len()) as u16;
    seg.extend_from_slice(&len.to_be_bytes());
    seg.extend_from_slice(payload);
    seg
}

#[test]
fn find_exif_segment_cases() {
    let valid_jpeg = {
        let mut d = vec![0xFF, 0xD8];
        d.extend_from_slice(&app1(b"Exif\0\0MM\x00*\x00\x00\x00\x08"));
        d.extend_from_slice(&[0xFF, 0xD9]);
        d
    };

    let jfif_no_exif = {
        let mut d = vec![0xFF, 0xD8];
        let payload = b"JFIF\0\x01\x01\x00\x00\x01\x00\x01\x00\x00";
        let mut app0 = vec![0xFF, 0xE0];
        let len = (2 + payload.len()) as u16;
        app0.extend_from_slice(&len.to_be_bytes());
        app0.extend_from_slice(payload);
        d.extend_from_slice(&app0);
        d.extend_from_slice(&[0xFF, 0xDA, 0x00, 0x0C]);
        d
    };

    let overrun = vec![0xFF, 0xD8, 0xFF, 0xE1, 0xFF, 0xFF];

    let cases: Vec<(&str, Vec<u8>, fn(&Result<&[u8], ExifError>) -> bool)> = vec![
        (
            "missing SOI",
            vec![0x00, 0x01, 0x02, 0x03],
            |r| matches!(r, Err(ExifError::NotJpeg)),
        ),
        ("empty file", vec![], |r| {
            matches!(r, Err(ExifError::NotJpeg))
        }),
        ("valid exif segment", valid_jpeg, |r| {
            matches!(r, Ok(payload) if payload.starts_with(b"MM"))
        }),
        (
            "jfif app0 with no exif, hits start of scan",
            jfif_no_exif,
            |r| matches!(r, Err(ExifError::NoExif)),
        ),
        (
            "segment length overruns buffer",
            overrun,
            |r| matches!(r, Err(ExifError::Malformed(_))),
        ),
    ];

    for (name, data, check) in cases {
        let result = find_exif_segment(&data);
        assert!(
            check(&result),
            "case '{}' produced unexpected result: {:?}",
            name,
            result
        );
    }
}
