use pixelbomber::manager::BitmapReader;
use pixelbomber::painter::{PainterAction, PainterEvent, PainterMode, PainterState};
use pixelbomber::service::distributor::route_image;
use pixelbomber::service::merger::get_merger;
use pixelbomber::service::moderator::{decode_message, encode_message, frame_len};

/// A synthetic bitmap frame: `BM`, the announced little-endian size, padding.
fn bmp_frame(size: u32) -> Vec<u8> {
    let mut f = vec![b'B', b'M'];
    f.extend_from_slice(&size.to_le_bytes());
    while (f.len() as u32) < size {
        f.push(0xaa);
    }
    f
}

#[test]
fn merger_forwards_increasing_indices() {
    let mut merger = get_merger();
    let mut forwarded = Vec::new();
    for idx in [3usize, 1, 4, 2] {
        if merger.offer(idx) {
            forwarded.push(idx);
        }
    }
    assert_eq!(forwarded, vec![3, 4]);
}

#[test]
fn merger_drops_repeats() {
    let mut merger = get_merger();
    assert!(merger.offer(1));
    assert!(!merger.offer(1));
    assert!(merger.offer(2));
    assert!(!merger.offer(0));
}

#[test]
fn painter_reconnect_sends_first_chunk_once() {
    let mut painter = PainterState::new(7, 10, 4);
    assert_eq!(painter.mode, PainterMode::Connecting);
    let a1 = painter.step(PainterEvent::ConnectFailed);
    assert_eq!(a1, PainterAction::Reconnect);
    assert_eq!(painter.mode, PainterMode::Connecting);
    let a2 = painter.step(PainterEvent::Connected);
    assert_eq!(a2, PainterAction::Send { chunk: 3 });
    assert_eq!(painter.mode, PainterMode::Drawing);
}

#[test]
fn painter_cycles_chunks_round_robin() {
    let mut painter = PainterState::new(0, 10, 3);
    assert_eq!(painter.step(PainterEvent::Connected), PainterAction::Send { chunk: 0 });
    assert_eq!(painter.step(PainterEvent::Sent), PainterAction::Poll);
    assert_eq!(painter.step(PainterEvent::QueueEmpty), PainterAction::Send { chunk: 1 });
    assert_eq!(painter.step(PainterEvent::Sent), PainterAction::Poll);
    assert_eq!(painter.step(PainterEvent::QueueEmpty), PainterAction::Send { chunk: 2 });
    assert_eq!(painter.step(PainterEvent::Sent), PainterAction::Poll);
    assert_eq!(painter.step(PainterEvent::QueueEmpty), PainterAction::Send { chunk: 0 });
}

#[test]
fn painter_new_command_resets_the_cycle() {
    let mut painter = PainterState::new(5, 10, 4);
    painter.step(PainterEvent::Connected);
    assert_eq!(painter.step(PainterEvent::NewCommand { chunks: 2 }), PainterAction::Poll);
    assert_eq!(painter.step(PainterEvent::QueueEmpty), PainterAction::Send { chunk: 1 });
    assert_eq!(painter.step(PainterEvent::QueueClosed), PainterAction::Exit);
}

#[test]
fn distributor_routes_round_robin() {
    assert_eq!(route_image(0, 3), 0);
    assert_eq!(route_image(1, 3), 1);
    assert_eq!(route_image(2, 3), 2);
    assert_eq!(route_image(3, 3), 0);
}

#[test]
fn bitmap_framing_two_frames() {
    let f1 = bmp_frame(60);
    let f2 = bmp_frame(70);
    let mut stream = b"xyz".to_vec();
    stream.extend_from_slice(&f1);
    stream.extend_from_slice(&f2);
    let mut reader = BitmapReader::new();
    let frames = reader.feed(&stream);
    assert_eq!(frames.len(), 2);
    assert_eq!(frames[0], f1);
    assert_eq!(frames[1], f2);
    assert_eq!(frames[0].len(), 60);
    assert_eq!(frames[1].len(), 70);
}

#[test]
fn bitmap_framing_survives_chunked_input() {
    let f1 = bmp_frame(60);
    let f2 = bmp_frame(70);
    let mut stream = b"junk".to_vec();
    stream.extend_from_slice(&f1);
    stream.extend_from_slice(&f2);
    let mut reader = BitmapReader::new();
    let mut frames = Vec::new();
    for chunk in stream.chunks(7) {
        frames.extend(reader.feed(&chunk.to_vec()));
    }
    assert_eq!(frames, vec![f1, f2]);
}

#[test]
fn bitmap_framing_waits_for_missing_bytes() {
    let f1 = bmp_frame(60);
    let mut reader = BitmapReader::new();
    let frames = reader.feed(&f1[..30].to_vec());
    assert!(frames.is_empty());
    let frames = reader.feed(&f1[30..].to_vec());
    assert_eq!(frames, vec![f1]);
}

#[test]
fn manager_message_round_trip() {
    let payload = b"a manager payload with some repetition repetition repetition".to_vec();
    let msg = encode_message(&payload).unwrap();
    let mut header = [0u8; 4];
    header.copy_from_slice(&msg[..4]);
    let announced = frame_len(&header) as usize;
    assert_eq!(announced, msg.len() - 4);
    let body = msg[4..].to_vec();
    assert_eq!(decode_message(&body), Some(payload));
}

#[test]
fn manager_message_rejects_garbage() {
    assert_eq!(decode_message(&b"not a zstd frame".to_vec()), None);
}
