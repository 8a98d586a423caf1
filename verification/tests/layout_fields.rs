use framewire::error::Error;
use framewire::frames;
use framewire::layout;
use framewire::message::Message;
use framewire::wire;

#[test]
fn field_widths_share_little_endian_bytes() {
    let mut m = Message::new();
    let c = layout::init_root(&mut m, 2, 0);
    layout::set_u64(&mut m, c, 0, 0x1122334455667788);
    assert_eq!(layout::get_u64(&m, c, 0), 0x1122334455667788);
    assert_eq!(layout::get_u32(&m, c, 0), 0x55667788);
    assert_eq!(layout::get_u32(&m, c, 1), 0x11223344);
    assert_eq!(layout::get_u16(&m, c, 0), 0x7788);
    assert_eq!(layout::get_u8(&m, c, 0), 0x88);
    assert_eq!(layout::get_u8(&m, c, 7), 0x11);
    // Beyond the stored footprint every width reads zero.
    assert_eq!(layout::get_u64(&m, c, 2), 0);
    assert_eq!(layout::get_u32(&m, c, 9), 0);
    assert_eq!(layout::get_u16(&m, c, 77), 0);
    assert_eq!(layout::get_u8(&m, c, 1000), 0);
}

#[test]
fn set_u8_patches_one_byte() {
    let mut m = Message::new();
    let c = layout::init_root(&mut m, 1, 0);
    layout::set_u32(&mut m, c, 0, 0xAABBCCDD);
    layout::set_u8(&mut m, c, 1, 0x00);
    assert_eq!(layout::get_u32(&m, c, 0), 0xAABB00DD);
}

#[test]
fn traversal_counts_the_reachable_tree() {
    let mut m = Message::new();
    let root = frames::build_root(&mut m);
    let list = root.init_frames(&mut m, 2);
    let f0 = list.get(&m, 0);
    f0.init_audio_frame(&mut m);
    // Root (0 + 1), the list tag word, two frame elements (1 + 1
    // each), and the audio struct (2 + 2).
    let ts = root.total_size(&m).unwrap();
    assert_eq!(ts.word_count, 1 + 1 + 2 + 2 + 4);
    assert_eq!(ts.cap_count, 0);
}

#[test]
fn traversal_budget_boundary() {
    let m = Message::new();
    let bytes = wire::encode(&m);
    assert!(wire::decode(bytes.as_slice(), 1).is_ok());
    assert_eq!(wire::decode(bytes.as_slice(), 0).map(|_| ()), Err(Error::TraversalLimitExceeded));
}

#[test]
fn stream_decoder_byte_at_a_time() {
    let mut m = Message::new();
    let c = layout::init_root(&mut m, 1, 0);
    layout::set_u32(&mut m, c, 0, 5);
    let bytes = wire::encode(&m);
    let mut sd = wire::StreamDecoder::new(1 << 20);
    for (i, b) in bytes.iter().enumerate() {
        let done = sd.push(&[*b]).unwrap();
        assert_eq!(done, i + 1 == bytes.len());
    }
    let dm = sd.finish().unwrap();
    let c2 = match layout::get_root(&dm) {
        Ok(Some(c2)) => c2,
        _ => panic!("the root must resolve"),
    };
    assert_eq!(layout::get_u32(&dm, c2, 0), 5);
}
