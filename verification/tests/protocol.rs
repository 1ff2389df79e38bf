use pixelbomber::feature_detection::feature_detection;
use pixelbomber::host::{
    bind_family_matches, parse_host_port, parse_ipv4, prefer_ipv6, Addr, Host, HostError,
};
use pixelbomber::image_handler::BinaryFormat;
use pixelbomber::wire::{build_px_request, parse_px_reply, parse_screen_size};

#[test]
fn size_reply_parses() {
    assert_eq!(
        parse_screen_size(&b"SIZE 1920 1080\n".to_vec()),
        Some((1920, 1080))
    );
}

#[test]
fn size_reply_rejects_bad_numbers() {
    assert_eq!(parse_screen_size(&b"SIZE x 1080\n".to_vec()), None);
    assert_eq!(parse_screen_size(&b"SIZE 1920\n".to_vec()), None);
    assert_eq!(parse_screen_size(&b"SIZE 99999999999 2\n".to_vec()), None);
}

#[test]
fn px_reply_parses() {
    assert_eq!(
        parse_px_reply(&b"PX 10 20 ff00aa\n".to_vec()),
        Some((0xff, 0x00, 0xaa))
    );
    assert_eq!(parse_px_reply(&b"PX 10 20 nothex\n".to_vec()), None);
}

#[test]
fn px_request_builds() {
    assert_eq!(build_px_request(10, 20), b"PX 10 20\n".to_vec());
    assert_eq!(build_px_request(0, 65535), b"PX 0 65535\n".to_vec());
}

#[test]
fn help_text_detection() {
    let help = b"  OFFSET X Y\nsomething else\n".to_vec();
    let f = feature_detection(&help, 800, 600);
    assert_eq!(f.width, 800);
    assert_eq!(f.height, 600);
    assert!(f.offset);
    assert!(!f.px_gray);
    assert_eq!(f.binary, None);

    let help = b"  PBxyRGBA\n".to_vec();
    let f = feature_detection(&help, 1, 1);
    assert!(!f.offset);
    assert_eq!(f.binary, Some(BinaryFormat::CoordLERGBA));

    let help = b"PX X Y GG\nGrayscale supported\n".to_vec();
    let f = feature_detection(&help, 1, 1);
    assert!(f.px_gray);
}

#[test]
fn host_port_grammar() {
    let (host, port) = parse_host_port(&b"example.com:1234".to_vec()).unwrap();
    assert_eq!(host, b"example.com".to_vec());
    assert_eq!(port, 1234);

    let (host, port) = parse_host_port(&b"[::1]:80".to_vec()).unwrap();
    assert_eq!(host, b"::1".to_vec());
    assert_eq!(port, 80);

    assert_eq!(parse_host_port(&b"nohost".to_vec()), Err(HostError::NoPort));
    assert_eq!(parse_host_port(&b":80".to_vec()), Err(HostError::NoHost));
    assert_eq!(
        parse_host_port(&b"host:70000".to_vec()),
        Err(HostError::NoPort)
    );
}

#[test]
fn ipv4_literals() {
    assert_eq!(
        parse_ipv4(&b"203.0.113.9".to_vec()),
        Some(Addr::V4([203, 0, 113, 9]))
    );
    assert_eq!(parse_ipv4(&b"203.0.113".to_vec()), None);
    assert_eq!(parse_ipv4(&b"256.0.0.1".to_vec()), None);
    assert_eq!(parse_ipv4(&b"a.b.c.d".to_vec()), None);
}

#[test]
fn ipv6_preference() {
    let v4 = Addr::V4([127, 0, 0, 1]);
    let v6 = Addr::V6([0; 16]);
    assert_eq!(prefer_ipv6(vec![v4, v6, v4]), vec![v6]);
    assert_eq!(prefer_ipv6(vec![v4, v4]), vec![v4, v4]);
}

#[test]
fn host_assembly() {
    let host = Host::from_raw(
        vec![Addr::V4([1, 2, 3, 4])],
        1234,
        Some("eth0".to_string()),
    )
    .unwrap();
    assert_eq!(host.port, 1234);
    assert_eq!(host.bind, Some("eth0".to_string()));
    assert_eq!(host.pick_addr(), Addr::V4([1, 2, 3, 4]));
    assert!(matches!(
        Host::from_raw(vec![], 1, None),
        Err(HostError::NoAddress)
    ));
}

#[test]
fn bind_family_check() {
    let v4 = Addr::V4([10, 0, 0, 1]);
    let v6 = Addr::V6([0; 16]);
    assert!(bind_family_matches(&vec![v4, v4], &Addr::V4([10, 0, 0, 2])));
    assert!(!bind_family_matches(&vec![v4, v6], &Addr::V4([10, 0, 0, 2])));
    assert!(bind_family_matches(&vec![v6], &v6));
    assert!(!bind_family_matches(&vec![v6], &v4));
    assert!(bind_family_matches(&vec![], &v4));
}

#[test]
fn green_screen_filter() {
    let rgb = vec![
        0x10, 0x20, 0x30, // kept
        0xab, 0xab, 0xab, // keyed out
    ];
    let frame = pixelbomber::camera::filter_green_screen(2, 1, &rgb, (0xab, 0xab, 0xab));
    assert_eq!(frame.width, 2);
    assert_eq!(frame.height, 1);
    assert_eq!(frame.data, vec![0x10, 0x20, 0x30, 0xff, 0xab, 0xab, 0xab, 0x00]);
}

#[test]
fn camera_resolution_choice() {
    let r = pixelbomber::camera::best_resolution(&vec![(640, 480), (1920, 1080), (800, 600)]);
    assert_eq!(r, (1920, 1080));
    assert_eq!(pixelbomber::camera::best_resolution(&vec![]), (0, 0));
}
