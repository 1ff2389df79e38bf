use pixelbomber::image_handler::{
    binary_encode, get_pixel, image_to_commands, load_from_memory, pixel_to_command,
    pixel_to_offset_command, to_decimal, to_hex, BinaryFormat, Frame, FrameFormat, ImageConfig,
    ImageConfigBuilder, LoadError, Px,
};

fn red_2x2() -> Frame {
    Frame {
        width: 2,
        height: 2,
        data: vec![
            0xff, 0x00, 0x00, 0xff, 0xff, 0x00, 0x00, 0xff, 0xff, 0x00, 0x00, 0xff, 0xff, 0x00,
            0x00, 0xff,
        ],
    }
}

fn base_config() -> ImageConfig {
    ImageConfigBuilder::new().shuffle(false).build()
}

#[test]
fn test_to_hex() {
    assert_eq!(to_hex(0xff), [b'f', b'f']);
    assert_eq!(to_hex(0x1f), [b'1', b'f'])
}

#[test]
fn test_to_decimal() {
    assert_eq!(to_decimal(1234), ([b'1', b'2', b'3', b'4'], 4));
    assert_eq!(to_decimal(123), ([b'1', b'2', b'3', 0], 3));
    assert_eq!(to_decimal(12), ([b'1', b'2', 0, 0], 2));
    assert_eq!(to_decimal(1), ([b'1', 0, 0, 0], 1));
}

#[test]
fn test_to_offset() {
    assert_eq!(
        pixel_to_offset_command(123, 456, ([b'f', b'f', b'0', b'0', b'1', b'1', 0, 0], 6)),
        (
            [
                b'P', b'X', b' ', b'3', b' ', b'6', b' ', b'f', b'f', b'0', b'0', b'1', b'1',
                b'\n', 0, 0
            ],
            14
        )
    )
}

#[test]
fn test_network_encoder() {
    let x = 0x1234;
    let y = 0x9876;
    let pixel = Px { r: 0x01, g: 0x23, b: 0x45, a: 0x67 };
    let expected = vec![b'P', b'B', 0x34, 0x12, 0x76, 0x98, 0x01, 0x23, 0x45, 0x67];
    assert_eq!(binary_encode(BinaryFormat::CoordLERGBA, x, y, pixel), expected);
}

#[test]
fn solid_red_full_dialect() {
    let cmd = image_to_commands(red_2x2(), &base_config());
    assert_eq!(cmd.len(), 1);
    assert_eq!(
        cmd[0],
        b"PX 0 0 ff0000\nPX 1 0 ff0000\nPX 0 1 ff0000\nPX 1 1 ff0000\n".to_vec()
    );
}

#[test]
fn solid_red_offset_dialect() {
    let config = ImageConfigBuilder::new().shuffle(false).offset_usage(true).build();
    let cmd = image_to_commands(red_2x2(), &config);
    assert_eq!(cmd.len(), 1);
    assert_eq!(
        cmd[0],
        b"OFFSET 0 0\nPX 0 0 ff0000\nPX 1 0 ff0000\nPX 0 1 ff0000\nPX 1 1 ff0000\n".to_vec()
    );
}

#[test]
fn gray_pixel_short_form() {
    let frame = Frame { width: 1, height: 1, data: vec![0x77, 0x77, 0x77, 0xff] };
    let config = ImageConfigBuilder::new()
        .shuffle(false)
        .gray_usage(true)
        .x_offset(5)
        .y_offset(5)
        .build();
    let cmd = image_to_commands(frame, &config);
    assert_eq!(cmd.len(), 1);
    assert_eq!(cmd[0], b"PX 5 5 77\n".to_vec());
}

#[test]
fn transparent_pixels_produce_nothing() {
    let frame = Frame {
        width: 2,
        height: 1,
        data: vec![0xff, 0x00, 0x00, 0x00, 0x12, 0x34, 0x56, 0xff],
    };
    let cmd = image_to_commands(frame, &base_config());
    assert_eq!(cmd[0], b"PX 1 0 123456\n".to_vec());
}

#[test]
fn alpha_policy_forms() {
    let semi = Px { r: 0x01, g: 0x02, b: 0x03, a: 0x80 };
    let opaque = Px { r: 0x01, g: 0x02, b: 0x03, a: 0xff };

    let no_alpha = ImageConfigBuilder::new().shuffle(false).build();
    let with_alpha = ImageConfigBuilder::new().shuffle(false).alpha_usage(true).build();

    let (buf, len) = get_pixel(semi, no_alpha).unwrap();
    assert_eq!(&buf[..len], b"010203");
    let (buf, len) = get_pixel(semi, with_alpha).unwrap();
    assert_eq!(&buf[..len], b"01020380");
    let (buf, len) = get_pixel(opaque, with_alpha).unwrap();
    assert_eq!(&buf[..len], b"010203");
}

#[test]
fn gray_needs_full_alpha_when_alpha_used() {
    let semi_gray = Px { r: 0x20, g: 0x20, b: 0x20, a: 0x80 };
    let config = ImageConfigBuilder::new().gray_usage(true).alpha_usage(true).build();
    let (buf, len) = get_pixel(semi_gray, config).unwrap();
    assert_eq!(&buf[..len], b"20202080");
}

#[test]
fn full_command_layout() {
    let hex = get_pixel(Px { r: 0xab, g: 0xcd, b: 0xef, a: 0xff }, base_config()).unwrap();
    let (buf, len) = pixel_to_command(12, 345, hex);
    assert_eq!(&buf[..len], b"PX 12 345 abcdef\n");
}

#[test]
fn binary_dialect_full_pipeline() {
    let config = ImageConfigBuilder::new().shuffle(false).binary_usage(true).build();
    let cmd = image_to_commands(red_2x2(), &config);
    assert_eq!(cmd.len(), 1);
    let mut expected = Vec::new();
    for (x, y) in [(0u8, 0u8), (1, 0), (0, 1), (1, 1)] {
        expected.extend_from_slice(&[b'P', b'B', x, 0, y, 0, 0xff, 0x00, 0x00, 0xff]);
    }
    assert_eq!(cmd[0], expected);
}

#[test]
fn chunk_partition_round_robin() {
    let config = ImageConfigBuilder::new().shuffle(false).chunks(2).build();
    let cmd = image_to_commands(red_2x2(), &config);
    assert_eq!(cmd.len(), 2);
    assert_eq!(cmd[0], b"PX 0 0 ff0000\nPX 0 1 ff0000\n".to_vec());
    assert_eq!(cmd[1], b"PX 1 0 ff0000\nPX 1 1 ff0000\n".to_vec());

    let single = image_to_commands(red_2x2(), &base_config());
    let mut merged: Vec<&[u8]> = Vec::new();
    for chunk in &cmd {
        for line in chunk.split(|b| *b == b'\n').filter(|l| !l.is_empty()) {
            merged.push(line);
        }
    }
    let mut alone: Vec<&[u8]> = single[0]
        .split(|b| *b == b'\n')
        .filter(|l| !l.is_empty())
        .collect();
    merged.sort();
    alone.sort();
    assert_eq!(merged, alone);
}

#[test]
fn empty_chunks_are_legal() {
    let frame = Frame { width: 1, height: 1, data: vec![1, 2, 3, 255] };
    let config = ImageConfigBuilder::new().shuffle(false).chunks(3).build();
    let cmd = image_to_commands(frame, &config);
    assert_eq!(cmd.len(), 3);
    assert_eq!(cmd[0], b"PX 0 0 010203\n".to_vec());
    assert!(cmd[1].is_empty());
    assert!(cmd[2].is_empty());
}

#[test]
fn shuffle_off_is_deterministic() {
    let a = image_to_commands(red_2x2(), &base_config());
    let b = image_to_commands(red_2x2(), &base_config());
    assert_eq!(a, b);
}

#[test]
fn shuffle_keeps_the_commands() {
    let frame = Frame {
        width: 2,
        height: 2,
        data: vec![1, 0, 0, 255, 2, 0, 0, 255, 3, 0, 0, 255, 4, 0, 0, 255],
    };
    let shuffled = ImageConfigBuilder::new().shuffle(true).build();
    let plain = ImageConfigBuilder::new().shuffle(false).build();
    let a = image_to_commands(frame, &shuffled);
    let frame = Frame {
        width: 2,
        height: 2,
        data: vec![1, 0, 0, 255, 2, 0, 0, 255, 3, 0, 0, 255, 4, 0, 0, 255],
    };
    let b = image_to_commands(frame, &plain);
    let mut la: Vec<&[u8]> = a[0].split(|c| *c == b'\n').filter(|l| !l.is_empty()).collect();
    let mut lb: Vec<&[u8]> = b[0].split(|c| *c == b'\n').filter(|l| !l.is_empty()).collect();
    la.sort();
    lb.sort();
    assert_eq!(la, lb);
}

#[test]
fn offset_cells_span_the_grid() {
    // A 12x1 image: two cells, anchors at 0 and 10.
    let mut data = Vec::new();
    for _ in 0..12 {
        data.extend_from_slice(&[0x11, 0x22, 0x33, 0xff]);
    }
    let frame = Frame { width: 12, height: 1, data };
    let config = ImageConfigBuilder::new().shuffle(false).offset_usage(true).build();
    let cmd = image_to_commands(frame, &config);
    let text = cmd[0].clone();
    let mut expected = b"OFFSET 0 0\n".to_vec();
    for x in 0..10 {
        expected.extend_from_slice(format!("PX {} 0 112233\n", x).as_bytes());
    }
    expected.extend_from_slice(b"OFFSET 10 0\n");
    for x in 0..2 {
        expected.extend_from_slice(format!("PX {} 0 112233\n", x).as_bytes());
    }
    assert_eq!(text, expected);
}

#[test]
fn empty_offset_cells_are_dropped() {
    // Only the top-left pixel of a 20x1 image is visible: one cell remains.
    let mut data = vec![0x44, 0x44, 0x44, 0xff];
    for _ in 1..20 {
        data.extend_from_slice(&[0, 0, 0, 0]);
    }
    let frame = Frame { width: 20, height: 1, data };
    let config = ImageConfigBuilder::new().shuffle(false).offset_usage(true).build();
    let cmd = image_to_commands(frame, &config);
    assert_eq!(cmd[0], b"OFFSET 0 0\nPX 0 0 444444\n".to_vec());
}

#[test]
fn crop_takes_the_top_left() {
    // 3x3: a distinct colour per pixel, cropped to 2x2.
    let mut data = Vec::new();
    for i in 1..=9u8 {
        data.extend_from_slice(&[i, 0, 0, 255]);
    }
    let frame = Frame { width: 3, height: 3, data };
    let config = ImageConfigBuilder::new().shuffle(false).width(2).height(2).build();
    let cmd = image_to_commands(frame, &config);
    assert_eq!(
        cmd[0],
        b"PX 0 0 010000\nPX 1 0 020000\nPX 0 1 040000\nPX 1 1 050000\n".to_vec()
    );
}

#[test]
fn resize_produces_target_dimensions() {
    let mut data = Vec::new();
    for _ in 0..16 {
        data.extend_from_slice(&[0xff, 0x00, 0x00, 0xff]);
    }
    let frame = Frame { width: 4, height: 4, data };
    let config = ImageConfigBuilder::new().shuffle(false).width(2).height(2).resize(true).build();
    let cmd = image_to_commands(frame, &config);
    let lines: Vec<&[u8]> = cmd[0].split(|b| *b == b'\n').filter(|l| !l.is_empty()).collect();
    assert_eq!(lines.len(), 4);
    for line in lines {
        assert!(line.starts_with(b"PX "));
    }
}

fn red_2x2_encoded(format: image::ImageFormat) -> Vec<u8> {
    let img = image::RgbaImage::from_raw(2, 2, red_2x2().data).unwrap();
    let mut buf = std::io::Cursor::new(Vec::new());
    image::DynamicImage::ImageRgba8(img).write_to(&mut buf, format).unwrap();
    buf.into_inner()
}

#[test]
fn load_from_memory_decodes_bmp() {
    let bytes = red_2x2_encoded(image::ImageFormat::Bmp);
    let cmd = load_from_memory(&bytes, &base_config(), FrameFormat::Bmp).unwrap();
    assert_eq!(
        cmd[0],
        b"PX 0 0 ff0000\nPX 1 0 ff0000\nPX 0 1 ff0000\nPX 1 1 ff0000\n".to_vec()
    );
}

#[test]
fn load_from_memory_decodes_png() {
    let bytes = red_2x2_encoded(image::ImageFormat::Png);
    let cmd = load_from_memory(&bytes, &base_config(), FrameFormat::Png).unwrap();
    assert_eq!(
        cmd[0],
        b"PX 0 0 ff0000\nPX 1 0 ff0000\nPX 0 1 ff0000\nPX 1 1 ff0000\n".to_vec()
    );
}

#[test]
fn load_from_memory_decodes_jpeg() {
    // JPEG is lossy: check the shape of the output, not exact colours.
    let bytes = red_2x2_encoded(image::ImageFormat::Jpeg);
    let cmd = load_from_memory(&bytes, &base_config(), FrameFormat::Jpeg).unwrap();
    let lines: Vec<&[u8]> = cmd[0].split(|b| *b == b'\n').filter(|l| !l.is_empty()).collect();
    assert_eq!(lines.len(), 4);
    for line in lines {
        assert!(line.starts_with(b"PX "));
    }
}

#[test]
fn load_from_memory_checks_the_format() {
    // Valid PNG bytes handed to the BMP decoder are undecodable.
    let bytes = red_2x2_encoded(image::ImageFormat::Png);
    assert_eq!(
        load_from_memory(&bytes, &base_config(), FrameFormat::Bmp),
        Err(LoadError::Undecodable)
    );
}

#[test]
fn load_from_memory_rejects_junk() {
    let bytes = b"this is not an image".to_vec();
    assert_eq!(
        load_from_memory(&bytes, &base_config(), FrameFormat::Bmp),
        Err(LoadError::Undecodable)
    );
}

#[test]
fn load_from_memory_rejects_oversized_placement() {
    let bytes = red_2x2_encoded(image::ImageFormat::Bmp);
    let config = ImageConfigBuilder::new().shuffle(false).x_offset(9999).build();
    assert_eq!(
        load_from_memory(&bytes, &config, FrameFormat::Bmp),
        Err(LoadError::TooLarge)
    );
}

#[test]
fn offset_anchors_follow_placement() {
    let frame = Frame { width: 1, height: 1, data: vec![0xab, 0xcd, 0xef, 0xff] };
    let config = ImageConfigBuilder::new()
        .shuffle(false)
        .offset_usage(true)
        .x_offset(30)
        .y_offset(40)
        .build();
    let cmd = image_to_commands(frame, &config);
    assert_eq!(cmd[0], b"OFFSET 30 40
PX 0 0 abcdef
".to_vec());
}

#[test]
fn builder_applies_features() {
    let features = pixelbomber::feature_detection::Features {
        width: 640,
        height: 480,
        offset: true,
        px_gray: false,
        binary: Some(BinaryFormat::CoordLERGBA),
    };
    let config = ImageConfigBuilder::new().width(100).apply_features(features).build();
    assert_eq!(config.width, Some(100));
    assert_eq!(config.height, Some(480));
    assert!(config.offset_usage);
    assert!(!config.gray_usage);
    assert_eq!(config.binary, Some(BinaryFormat::CoordLERGBA));
}
