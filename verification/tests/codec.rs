use framewire::audio_frame;
use framewire::error::Error;
use framewire::frame;
use framewire::frames;
use framewire::message::Message;
use framewire::rational;
use framewire::video_frame;
use framewire::wire;

#[test]
fn rational_set_get() {
    let mut m = Message::new();
    let b = rational::build_root(&mut m);
    assert_eq!(b.get_num(&m), 0);
    assert_eq!(b.get_den(&m), 0);
    b.set_num(&mut m, 30000);
    b.set_den(&mut m, 1001);
    assert_eq!(b.get_num(&m), 30000);
    assert_eq!(b.get_den(&m), 1001);
    let r = b.into_reader();
    assert_eq!(r.get_num(&m), 30000);
    assert_eq!(r.get_den(&m), 1001);
}

#[test]
fn rational_total_size() {
    let mut m = Message::new();
    let b = rational::build_root(&mut m);
    // Exactly the value's own footprint: one data word, no pointers;
    // the root pointer word is not counted.
    let ts = b.total_size(&m).unwrap();
    assert_eq!(ts.word_count, 1);
    assert_eq!(ts.cap_count, 0);
}

#[test]
fn union_variant_round_trip() {
    let mut m = Message::new();
    let fb = frame::build_root(&mut m);
    let ab = fb.init_audio_frame(&mut m);
    ab.set_num_samples(&mut m, 42);
    ab.set_channels(&mut m, 7);
    let bytes = wire::encode(&m);
    let dm = wire::decode(bytes.as_slice(), 1 << 20).unwrap();
    let fr = frame::read_root(&dm).unwrap().unwrap();
    assert!(fr.has_audio_frame(&dm));
    assert!(!fr.has_video_frame(&dm));
    match fr.which(&dm).unwrap() {
        frame::Which::AudioFrame(payload) => {
            let ar = payload.unwrap().unwrap();
            assert_eq!(ar.get_num_samples(&dm), 42);
            assert_eq!(ar.get_channels(&dm), 7);
        },
        frame::Which::VideoFrame(_) => panic!("decoded the wrong variant"),
    }
}

#[test]
fn union_switch_rewrites_discriminant() {
    let mut m = Message::new();
    let fb = frame::build_root(&mut m);
    let ab = fb.init_audio_frame(&mut m);
    ab.set_num_samples(&mut m, 9);
    assert!(fb.has_audio_frame(&m));
    let vb = fb.init_video_frame(&mut m);
    vb.set_width(&mut m, 320);
    assert!(!fb.has_audio_frame(&m));
    assert!(fb.has_video_frame(&m));
}

#[test]
fn schema_evolution_reads_zero() {
    // A struct stored with one data word and no pointers, read by
    // accessors that expect two words and two pointers.
    let mut m = Message::new();
    let b = rational::build_root(&mut m);
    b.set_num(&mut m, 42);
    b.set_den(&mut m, 7);
    let bytes = wire::encode(&m);
    let dm = wire::decode(bytes.as_slice(), 1 << 20).unwrap();
    let ar = audio_frame::read_root(&dm).unwrap().unwrap();
    assert_eq!(ar.get_num_samples(&dm), 42);
    assert_eq!(ar.get_stream_id(&dm), 0);
    assert!(!ar.has_data(&dm));
    assert!(!ar.has_pts(&dm));
    assert_eq!(ar.get_pts(&dm).unwrap().map(|_| ()), None);
}

#[test]
fn audio_data_and_pts_round_trip() {
    let mut m = Message::new();
    let fb = frame::build_root(&mut m);
    let ab = fb.init_audio_frame(&mut m);
    ab.set_num_samples(&mut m, 480);
    ab.set_channels(&mut m, 2);
    ab.set_stream_id(&mut m, 3);
    ab.set_data(&mut m, &[1, 2, 3, 4, 5]);
    let pb = ab.init_pts(&mut m);
    pb.set_num(&mut m, 1);
    pb.set_den(&mut m, 48000);
    let bytes = wire::encode(&m);
    let dm = wire::decode(bytes.as_slice(), 1 << 20).unwrap();
    let fr = frame::read_root(&dm).unwrap().unwrap();
    match fr.which(&dm).unwrap() {
        frame::Which::AudioFrame(payload) => {
            let ar = payload.unwrap().unwrap();
            assert_eq!(ar.get_num_samples(&dm), 480);
            assert_eq!(ar.get_channels(&dm), 2);
            assert_eq!(ar.get_stream_id(&dm), 3);
            assert!(ar.has_data(&dm));
            assert_eq!(ar.get_data(&dm).unwrap().unwrap(), vec![1, 2, 3, 4, 5]);
            assert!(ar.has_pts(&dm));
            let p = ar.get_pts(&dm).unwrap().unwrap();
            assert_eq!(p.get_num(&dm), 1);
            assert_eq!(p.get_den(&dm), 48000);
        },
        frame::Which::VideoFrame(_) => panic!("decoded the wrong variant"),
    }
}

#[test]
fn large_data_crosses_segments() {
    // 4000 bytes exceed the first segment's capacity, forcing a second
    // segment and a far pointer.
    let mut m = Message::new();
    let fb = frame::build_root(&mut m);
    let ab = fb.init_audio_frame(&mut m);
    let data: Vec<u8> = (0..4000u32).map(|i| (i % 251) as u8).collect();
    ab.set_data(&mut m, data.as_slice());
    assert!(m.seg_count() > 1);
    let bytes = wire::encode(&m);
    let dm = wire::decode(bytes.as_slice(), 1 << 20).unwrap();
    let fr = frame::read_root(&dm).unwrap().unwrap();
    match fr.which(&dm).unwrap() {
        frame::Which::AudioFrame(payload) => {
            let ar = payload.unwrap().unwrap();
            assert_eq!(ar.get_data(&dm).unwrap().unwrap(), data);
        },
        frame::Which::VideoFrame(_) => panic!("decoded the wrong variant"),
    }
}

#[test]
fn video_fields_round_trip() {
    let mut m = Message::new();
    let vb0 = video_frame::build_root(&mut m);
    vb0.set_width(&mut m, 1920);
    vb0.set_height(&mut m, 1080);
    vb0.set_stream_id(&mut m, 4);
    vb0.set_pixel_format(&mut m, video_frame::PixelFormat::Rgba);
    vb0.set_data(&mut m, &[9, 9, 9]);
    let bytes = wire::encode(&m);
    let dm = wire::decode(bytes.as_slice(), 1 << 20).unwrap();
    let vr = video_frame::read_root(&dm).unwrap().unwrap();
    assert_eq!(vr.get_width(&dm), 1920);
    assert_eq!(vr.get_height(&dm), 1080);
    assert_eq!(vr.get_stream_id(&dm), 4);
    assert_eq!(vr.get_pixel_format(&dm).unwrap(), video_frame::PixelFormat::Rgba);
    assert_eq!(vr.get_data(&dm).unwrap().unwrap(), vec![9, 9, 9]);
}

#[test]
fn pixel_format_codes() {
    assert_eq!(video_frame::PixelFormat::from_u16(0).unwrap(), video_frame::PixelFormat::Rgba);
    assert_eq!(video_frame::PixelFormat::from_u16(3), Err(Error::NotInSchema(3)));
    assert_eq!(video_frame::PixelFormat::Rgba.to_u16(), 0);
}

#[test]
fn frame_list_round_trip() {
    let mut m = Message::new();
    let root = frames::build_root(&mut m);
    let list = root.init_frames(&mut m, 2);
    assert_eq!(list.len(), 2);
    let f0 = list.get(&m, 0);
    let a0 = f0.init_audio_frame(&mut m);
    a0.set_num_samples(&mut m, 11);
    let f1 = list.get(&m, 1);
    let v1 = f1.init_video_frame(&mut m);
    v1.set_width(&mut m, 640);
    let bytes = wire::encode(&m);
    let dm = wire::decode(bytes.as_slice(), 1 << 20).unwrap();
    let root2 = frames::read_root(&dm).unwrap().unwrap();
    assert!(root2.has_frames(&dm));
    let l2 = root2.get_frames(&dm).unwrap().unwrap();
    assert_eq!(l2.len(), 2);
    match l2.get(&dm, 0).which(&dm).unwrap() {
        frame::Which::AudioFrame(payload) => {
            assert_eq!(payload.unwrap().unwrap().get_num_samples(&dm), 11);
        },
        frame::Which::VideoFrame(_) => panic!("frame 0 should be audio"),
    }
    match l2.get(&dm, 1).which(&dm).unwrap() {
        frame::Which::VideoFrame(payload) => {
            assert_eq!(payload.unwrap().unwrap().get_width(&dm), 640);
        },
        frame::Which::AudioFrame(_) => panic!("frame 1 should be video"),
    }
}

#[test]
fn copy_pts_between_messages() {
    let mut src = Message::new();
    let sb = rational::build_root(&mut src);
    sb.set_num(&mut src, 25);
    sb.set_den(&mut src, 1);
    let sr = sb.into_reader();

    let mut dst = Message::new();
    let ab = audio_frame::build_root(&mut dst);
    ab.set_pts(&mut dst, &src, sr);
    let p = ab.get_pts(&dst).unwrap().unwrap();
    assert_eq!(p.get_num(&dst), 25);
    assert_eq!(p.get_den(&dst), 1);
}

#[test]
fn copy_audio_frame_between_messages() {
    let mut src = Message::new();
    let sfb = frame::build_root(&mut src);
    let sab = sfb.init_audio_frame(&mut src);
    sab.set_num_samples(&mut src, 777);
    sab.set_channels(&mut src, 6);
    sab.set_data(&mut src, &[4, 5, 6]);
    let spb = sab.init_pts(&mut src);
    spb.set_num(&mut src, 1);
    spb.set_den(&mut src, 90000);
    let sr = sfb.as_reader();
    let sar = match sr.which(&src).unwrap() {
        frame::Which::AudioFrame(p) => p.unwrap().unwrap(),
        frame::Which::VideoFrame(_) => panic!("built the wrong variant"),
    };

    let mut dst = Message::new();
    let dfb = frame::build_root(&mut dst);
    dfb.set_audio_frame(&mut dst, &src, sar).unwrap();
    let dr = dfb.as_reader();
    assert!(dr.has_audio_frame(&dst));
    match dr.which(&dst).unwrap() {
        frame::Which::AudioFrame(p) => {
            let a = p.unwrap().unwrap();
            assert_eq!(a.get_num_samples(&dst), 777);
            assert_eq!(a.get_channels(&dst), 6);
            assert_eq!(a.get_data(&dst).unwrap().unwrap(), vec![4, 5, 6]);
            let q = a.get_pts(&dst).unwrap().unwrap();
            assert_eq!(q.get_num(&dst), 1);
            assert_eq!(q.get_den(&dst), 90000);
        },
        frame::Which::VideoFrame(_) => panic!("copied the wrong variant"),
    }
}

#[test]
fn copy_frame_list_between_messages() {
    let mut src = Message::new();
    let sroot = frames::build_root(&mut src);
    // Three frames: audio, video, and one left at its default (audio
    // discriminant, no payload).
    let slist = sroot.init_frames(&mut src, 3);
    let sa = slist.get(&src, 0).init_audio_frame(&mut src);
    sa.set_num_samples(&mut src, 5);
    let sv = slist.get(&src, 1).init_video_frame(&mut src);
    sv.set_height(&mut src, 240);
    let sl = sroot.as_reader().get_frames(&src).unwrap().unwrap();

    let mut dst = Message::new();
    let droot = frames::build_root(&mut dst);
    droot.set_frames(&mut dst, &src, sl).unwrap();
    let dl = droot.as_reader().get_frames(&dst).unwrap().unwrap();
    assert_eq!(dl.len(), 3);
    match dl.get(&dst, 0).which(&dst).unwrap() {
        frame::Which::AudioFrame(p) => {
            assert_eq!(p.unwrap().unwrap().get_num_samples(&dst), 5);
        },
        frame::Which::VideoFrame(_) => panic!("frame 0 should be audio"),
    }
    match dl.get(&dst, 1).which(&dst).unwrap() {
        frame::Which::VideoFrame(p) => {
            assert_eq!(p.unwrap().unwrap().get_height(&dst), 240);
        },
        frame::Which::AudioFrame(_) => panic!("frame 1 should be video"),
    }
    // The default frame copies as a default: same discriminant, still
    // no payload.
    let d2 = dl.get(&dst, 2);
    assert!(!d2.has_audio_frame(&dst));
    assert!(!d2.has_video_frame(&dst));
    match d2.which(&dst).unwrap() {
        frame::Which::AudioFrame(p) => assert!(p.unwrap().is_none()),
        frame::Which::VideoFrame(_) => panic!("frame 2 should keep the audio discriminant"),
    }
}

#[test]
fn data_list_element_writes() {
    let mut m = Message::new();
    let ab = audio_frame::build_root(&mut m);
    let lc = ab.init_data(&mut m, 4);
    assert_eq!(ab.get_data(&m).unwrap().unwrap(), vec![0, 0, 0, 0]);
    framewire::layout::list_set_u8(&mut m, lc, 0, 0xAA);
    framewire::layout::list_set_u8(&mut m, lc, 3, 0x55);
    assert_eq!(framewire::layout::list_get_u8(&m, lc, 0), 0xAA);
    assert_eq!(framewire::layout::list_get_u8(&m, lc, 1), 0);
    assert_eq!(ab.get_data(&m).unwrap().unwrap(), vec![0xAA, 0, 0, 0x55]);
}
