use framewire::error::Error;
use framewire::frame;
use framewire::message::Message;
use framewire::wire;

#[test]
fn empty_message_frame_bytes() {
    // One segment of one zeroed word: count-1 = 0, then the word count
    // 1, then the zeroed root word.
    let m = Message::new();
    let bytes = wire::encode(&m);
    assert_eq!(bytes, vec![0, 0, 0, 0, 1, 0, 0, 0, 0, 0, 0, 0, 0, 0, 0, 0]);
}

#[test]
fn decode_empty_stream() {
    assert_eq!(wire::decode(&[], 100).map(|_| ()), Err(Error::EmptyStream));
}

#[test]
fn decode_short_header() {
    assert_eq!(wire::decode(&[0, 0], 100).map(|_| ()), Err(Error::TruncatedStream));
}

#[test]
fn decode_truncated_body() {
    let mut m = Message::new();
    let fb = frame::build_root(&mut m);
    fb.init_audio_frame(&mut m);
    let mut bytes = wire::encode(&m);
    bytes.pop();
    assert_eq!(wire::decode(bytes.as_slice(), 1 << 20).map(|_| ()), Err(Error::TruncatedStream));
}

#[test]
fn traversal_budget_rejects_header_before_body() {
    // Header alone: one segment declaring an implausible word count.
    let header = vec![0, 0, 0, 0, 0xFF, 0xFF, 0xFF, 0x0F];
    assert_eq!(
        wire::decode(header.as_slice(), 100).map(|_| ()),
        Err(Error::TraversalLimitExceeded),
    );
    // The streaming decoder rejects it as soon as the table is in, with
    // no body byte fed at all.
    let mut sd = wire::StreamDecoder::new(100);
    assert_eq!(sd.push(header.as_slice()), Err(Error::TraversalLimitExceeded));
}

#[test]
fn huge_segment_count_rejected() {
    let header = vec![0xFF, 0xFF, 0xFF, 0xFF];
    assert_eq!(
        wire::decode(header.as_slice(), 100).map(|_| ()),
        Err(Error::TraversalLimitExceeded),
    );
}

#[test]
fn corrupt_pointer_is_an_error_not_a_read() {
    // A frame whose root pointer targets word 5 of a one-word segment.
    let mut bytes = vec![0, 0, 0, 0, 1, 0, 0, 0];
    bytes.extend_from_slice(&[0x14, 0, 0, 0, 1, 0, 0, 0]);
    let dm = wire::decode(bytes.as_slice(), 1 << 20).unwrap();
    assert_eq!(frame::read_root(&dm).map(|_| ()), Err(Error::PointerOutOfBounds));
}

#[test]
fn streaming_matches_one_shot() {
    let mut m = Message::new();
    let fb = frame::build_root(&mut m);
    let ab = fb.init_audio_frame(&mut m);
    ab.set_num_samples(&mut m, 123);
    let bytes = wire::encode(&m);
    let (a, b) = bytes.split_at(5);
    let mut sd = wire::StreamDecoder::new(1 << 20);
    assert_eq!(sd.push(a), Ok(false));
    assert_eq!(sd.push(b), Ok(true));
    let dm = sd.finish().unwrap();
    let one_shot = wire::decode(bytes.as_slice(), 1 << 20).unwrap();
    assert_eq!(dm.seg_count(), one_shot.seg_count());
    let fr = frame::read_root(&dm).unwrap().unwrap();
    match fr.which(&dm).unwrap() {
        frame::Which::AudioFrame(payload) => {
            assert_eq!(payload.unwrap().unwrap().get_num_samples(&dm), 123);
        },
        frame::Which::VideoFrame(_) => panic!("decoded the wrong variant"),
    }
}

#[test]
fn encode_decode_identity_bytes() {
    let mut m = Message::new();
    let fb = frame::build_root(&mut m);
    let vb = fb.init_video_frame(&mut m);
    vb.set_width(&mut m, 7);
    vb.set_data(&mut m, &[1, 2, 3, 4, 5, 6, 7, 8, 9]);
    let bytes = wire::encode(&m);
    let dm = wire::decode(bytes.as_slice(), 1 << 20).unwrap();
    let bytes2 = wire::encode(&dm);
    assert_eq!(bytes, bytes2);
}
