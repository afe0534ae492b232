use bywind::baked_codec;
use bywind::bounds::LonLatBbox;
use bywind::calendar::UtcTime;
use bywind::io_error::{IoError, IoErrorKind};
use bywind::number::{Real, Real32};
use bywind::wind_av1::decoder::{Ask, DecodeError, DecodeRun, Phase, Step};
use bywind::wind_av1::encoder::{encode, take_reply, EncodeError, EncodeParams};
use bywind::wind_av1::header::{read_header, write_header, FrameOffsets};
use bywind::wind_av1::ivf::{write_file_header, write_frame, IvfReader};
use bywind::wind_av1::planes::{bytes_of_plane, pack_into_planes, unpack_planes};
use bywind::wind_av1::rav1d_wrap::DecoderError;
use bywind::wind_av1::rav1e_wrap::EncodeStatus;
use bywind::wind_map::baked::{BakeBounds, BakedWindMap, Wind};
use bywind::wind_map::layout::GridLayout;
use bywind::wind_map::{TimedWindMap, WeatherRow, WindMap, WindSample};

fn r32(v: f32) -> Real32 {
    Real32 { bits: v.to_bits() }
}

fn r64(v: f64) -> Real {
    Real { bits: v.to_bits() }
}

fn layout(nx: usize, ny: usize) -> GridLayout {
    GridLayout {
        origin_x: r32(-10.0),
        origin_y: r32(40.0),
        step_x: r32(0.25),
        step_y: r32(0.5),
        nx,
        ny,
    }
}

fn field(nx: usize, ny: usize, base: f32) -> WindMap {
    let mut rows = Vec::new();
    for i in 0..nx {
        for j in 0..ny {
            rows.push(WeatherRow {
                lon: r32(-10.0 + i as f32 * 0.25),
                lat: r32(40.0 + j as f32 * 0.5),
                sample: WindSample { speed: r32(base + i as f32), direction: r32(j as f32) },
            });
        }
    }
    WindMap::from_grid(rows, layout(nx, ny))
}

fn timed(frames: Vec<WindMap>) -> TimedWindMap {
    TimedWindMap::new(frames, r32(3600.0), &|s: Real32| s)
}

fn pixels(s: WindSample) -> (u16, u16) {
    (
        (f32::from_bits(s.speed.bits) as u16).min(1023),
        (f32::from_bits(s.direction.bits) as u16).min(1023),
    )
}

#[test]
fn round_trip_two_frames() {
    let mut buf = Vec::new();
    buf.extend_from_slice(b"DKIF");
    buf.extend_from_slice(&0u16.to_le_bytes());
    buf.extend_from_slice(&32u16.to_le_bytes());
    buf.extend_from_slice(b"AV01");
    buf.extend_from_slice(&64u16.to_le_bytes());
    buf.extend_from_slice(&64u16.to_le_bytes());
    buf.extend_from_slice(&1u32.to_le_bytes());
    buf.extend_from_slice(&1u32.to_le_bytes());
    buf.extend_from_slice(&2u32.to_le_bytes());
    buf.extend_from_slice(&0u32.to_le_bytes());
    for (i, body) in [b"FRAME-ONE".as_slice(), b"BODY-2"].iter().enumerate() {
        buf.extend_from_slice(&(body.len() as u32).to_le_bytes());
        buf.extend_from_slice(&(i as u64).to_le_bytes());
        buf.extend_from_slice(body);
    }
    let mut r = IvfReader::open(&buf).expect("open");
    assert_eq!(r.read_frame().unwrap().as_deref(), Some(b"FRAME-ONE".as_slice()));
    assert_eq!(r.read_frame().unwrap().as_deref(), Some(b"BODY-2".as_slice()));
    assert!(r.read_frame().unwrap().is_none(), "clean EOF after last frame");

    // The writer makes the same bytes.
    let mut made = Vec::new();
    write_file_header(&mut made, 64, 64, 1, 1, 2);
    write_frame(&mut made, b"FRAME-ONE", 0).unwrap();
    write_frame(&mut made, b"BODY-2", 1).unwrap();
    assert_eq!(made, buf);

    // A frame that is cut off is an error.
    buf.pop();
    let mut r = IvfReader::open(&buf).expect("open");
    r.read_frame().unwrap();
    assert_eq!(r.read_frame().unwrap_err().kind(), IoErrorKind::InvalidData);
}

#[test]
fn rejects_bad_magic() {
    let mut buf = vec![0u8; 32];
    buf[0..4].copy_from_slice(b"NOPE");
    let err = IvfReader::open(&buf).err().expect("bad magic");
    assert_eq!(err.kind(), IoErrorKind::InvalidData);
    assert_eq!(IvfReader::open(&buf[..31]).err().unwrap().kind(), IoErrorKind::InvalidData);
    assert_eq!(IvfReader::open(b"DKIF").err().unwrap().kind(), IoErrorKind::InvalidData);
}

#[test]
fn headers_come_back() {
    let file = write_header(&layout(4, 3), 7, r32(1800.0), 1000, 2000);
    assert_eq!(file.len(), 60);
    let (h, at) = read_header(&file).unwrap();
    assert_eq!(at, 60);
    assert_eq!(h.layout, layout(4, 3));
    assert_eq!((h.frame_count, h.step_seconds), (7, r32(1800.0)));
    let second = |s: i64| UtcTime { seconds: s, nanos: 0 };
    assert_eq!(h.time_range, Some((second(1000), second(2000))));
    assert!(matches!(h.frame_offsets, FrameOffsets::Uniform));
}

#[test]
fn bad_headers_are_refused() {
    let good = write_header(&layout(4, 3), 7, r32(1800.0), i64::MIN, i64::MIN);
    assert_eq!(read_header(&good).unwrap().0.time_range, None);
    let mut bad = good.clone();
    bad[0] = b'X';
    assert!(matches!(read_header(&bad), Err(DecodeError::BadMagic)));
    let mut bad = good.clone();
    bad[8] = 9;
    assert!(matches!(read_header(&bad), Err(DecodeError::UnsupportedVersion(9))));
    assert!(matches!(read_header(&good[..50]), Err(DecodeError::Io(_))));
    let flat = write_header(&layout(1, 3), 7, r32(1800.0), 0, 0);
    assert!(matches!(read_header(&flat), Err(DecodeError::BadDimensions { nx: 1, ny: 3, frame_count: 7 })));
    let l = GridLayout { step_x: r32(0.0), ..layout(4, 3) };
    let still = write_header(&l, 7, r32(1800.0), 0, 0);
    assert!(matches!(read_header(&still), Err(DecodeError::BadStep { .. })));
}

#[test]
fn times_of_fields_are_told_from_the_first() {
    let mut file = write_header(&layout(4, 3), 2, r32(1800.0), 1000, 2000);
    file[8] = 3;
    file.extend_from_slice(&500i64.to_le_bytes());
    file.extend_from_slice(&4100i64.to_le_bytes());
    let (h, at) = read_header(&file).unwrap();
    assert_eq!(at, 76);
    match h.frame_offsets {
        FrameOffsets::Relative(offsets) => assert_eq!(offsets, vec![0, 3600]),
        FrameOffsets::Uniform => panic!("the fields have times"),
    }
}

#[test]
fn the_first_line_of_a_picture_is_the_northernmost() {
    let (y, cb) = pack_into_planes(&field(2, 3, 10.0).rows, 2, 3, &pixels);
    assert_eq!(y, vec![10, 11, 10, 11, 10, 11]);
    assert_eq!(cb, vec![2, 2, 1, 1, 0, 0]);
    assert_eq!(bytes_of_plane(&vec![0x0102, 0x0304]), vec![2, 1, 4, 3]);
    let rows = unpack_planes(
        &y,
        &cb,
        &layout(2, 3),
        &|i: usize| r32(-10.0 + i as f32 * 0.25),
        &|j: usize| r32(40.0 + j as f32 * 0.5),
        &|a: u16, b: u16| WindSample { speed: r32(f32::from(a)), direction: r32(f32::from(b)) },
    );
    assert_eq!(rows, field(2, 3, 10.0).rows);
}

#[test]
fn fields_are_encoded_into_packets() {
    let map = timed(vec![field(16, 16, 0.0), field(16, 16, 100.0), field(16, 16, 200.0)]);
    let file = encode(&map, EncodeParams { quantizer: 30, speed_preset: 10 }, &pixels).unwrap();
    let (h, at) = read_header(&file).unwrap();
    assert_eq!(h.layout, layout(16, 16));
    assert_eq!(h.frame_count, 3);
    let mut packets = IvfReader::open(&file[at..]).unwrap();
    let mut count = 0;
    while let Some(packet) = packets.read_frame().unwrap() {
        assert!(!packet.is_empty());
        count += 1;
    }
    assert_eq!(count, 3);
    // Other fields make other packets.
    let other = timed(vec![field(16, 16, 500.0), field(16, 16, 0.0), field(16, 16, 900.0)]);
    assert_ne!(encode(&other, EncodeParams { quantizer: 30, speed_preset: 10 }, &pixels).unwrap(), file);
}

#[test]
fn fields_that_do_not_fit_are_refused() {
    let params = EncodeParams::default();
    assert_eq!((params.quantizer, params.speed_preset), (30, 6));
    let scattered = WindMap { layout: None, rows: Vec::new() };
    let map = timed(vec![field(16, 16, 0.0), scattered]);
    assert!(matches!(encode(&map, params, &pixels), Err(EncodeError::NonGridFrame { frame: 1 })));
    let map = timed(vec![field(16, 16, 0.0), field(16, 17, 0.0)]);
    assert!(matches!(encode(&map, params, &pixels), Err(EncodeError::InconsistentGrid { frame: 1 })));
    let mut none = timed(vec![field(16, 16, 0.0)]);
    none.frames.clear();
    assert!(matches!(encode(&none, params, &pixels), Err(EncodeError::Empty)));
    let small = timed(vec![field(4, 4, 0.0)]);
    assert!(matches!(encode(&small, params, &pixels), Err(EncodeError::InvalidConfig(_))));
}

#[test]
fn a_decoding_run_feeds_every_packet() {
    let map = timed(vec![field(16, 16, 0.0)]);
    let file = encode(&map, EncodeParams { quantizer: 30, speed_preset: 10 }, &pixels).unwrap();
    let Step::Go(run, Ask::Feed(packet)) = DecodeRun::begin(&file) else { panic!("a packet") };
    assert!(!packet.is_empty());
    let Step::Go(run, Ask::NextPicture) = run.on_fed(Ok(true)) else { panic!("pictures") };
    assert_eq!(run.phase, Phase::Drain);
    let zero = |_: usize| r32(0.0);
    let calm = |_: u16, _: u16| WindSample { speed: r32(0.0), direction: r32(0.0) };
    // The decoder gives nothing, so the run asks once more and then tells what is missing.
    let Step::Go(run, Ask::NextPicture) = run.on_picture(Ok(None), &zero, &zero, &calm) else {
        panic!("the last pictures")
    };
    assert_eq!(run.phase, Phase::Flush);
    match run.on_picture(Ok(None), &zero, &zero, &calm) {
        Step::Done(Err(DecodeError::Truncated { expected: 1, got: 0 })) => {},
        _ => panic!("a picture is missing"),
    }
    let Step::Go(run, _) = DecodeRun::begin(&file) else { panic!("a packet") };
    assert!(matches!(
        run.on_fed(Err(DecoderError::Open(-5))),
        Step::Done(Err(DecodeError::Av1(DecoderError::Open(-5))))
    ));
    assert!(matches!(DecodeRun::begin(b"WCAV"), Step::Done(Err(DecodeError::Io(_)))));
}

/// A map of `n` fields without rows.
fn fields(n: usize, step: f32, crossfade: f32) -> TimedWindMap {
    TimedWindMap {
        step_seconds: Real32 { bits: step.to_bits() },
        crossfade_seconds: Real32 { bits: crossfade.to_bits() },
        time_range: None,
        frames: vec![WindMap { layout: None, rows: vec![] }; n],
    }
}

fn widen(x: Real32) -> Real {
    r64(f64::from(f32::from_bits(x.bits)))
}

fn baked() -> BakedWindMap {
    let b = BakeBounds {
        bbox: LonLatBbox::new(r64(0.5), r64(2.5), r64(-3.0), r64(-2.0)),
        step: r64(1.0),
        coord_scale: r64(1.0),
    };
    let wind = |i: usize, j: usize, k: usize| Wind {
        east_mps: r64(i as f64 + 0.5),
        north_mps: r64((j * 10 + k) as f64),
    };
    BakedWindMap::from_timed_map(&fields(2, 3600.0, 18000.0), b, &|_: BakeBounds| (3, 2), &widen, &wind)
}

#[test]
fn baked_maps_come_back() {
    let map = baked();
    for workers in [0, 2] {
        let file = baked_codec::encode(&map, workers).unwrap();
        let back =
            baked_codec::decode(&file, &|s: Real| r64(5.0 * f64::from_bits(s.bits))).unwrap();
        assert_eq!(back.grid, map.grid);
        assert_eq!((back.nx, back.ny, back.nt), (3, 2, 2));
        assert_eq!((back.x_min, back.y_min, back.step), (map.x_min, map.y_min, map.step));
        assert_eq!((back.t_step_seconds, back.coord_scale), (map.t_step_seconds, map.coord_scale));
        assert_eq!(back.crossfade_seconds, r64(18000.0));
    }
}

#[test]
fn baked_files_are_compressed() {
    let zero = Wind { east_mps: r64(0.0), north_mps: r64(0.0) };
    let b = BakeBounds {
        bbox: LonLatBbox::new(r64(0.0), r64(1.0), r64(0.0), r64(1.0)),
        step: r64(1.0),
        coord_scale: r64(1.0),
    };
    let still = |_: usize, _: usize, _: usize| zero;
    let map = fields(4, 1.0, 5.0);
    let calm = BakedWindMap::from_timed_map(&map, b, &|_: BakeBounds| (50, 50), &widen, &still);
    assert_eq!((calm.nx, calm.ny, calm.nt), (50, 50, 4));
    assert_eq!((calm.t_step_seconds, calm.crossfade_seconds), (r64(1.0), r64(5.0)));
    let file = baked_codec::encode(&calm, 0).unwrap();
    assert!(file.len() < 50 * 50 * 4 * 16 / 10, "{}", file.len());
}

#[test]
fn bad_baked_files_are_refused() {
    let file = baked_codec::encode(&baked(), 0).unwrap();
    let keep = |s: Real| s;
    let mut bad = file.clone();
    bad[0] = 0;
    assert!(matches!(
        baked_codec::decode(&bad, &keep),
        Err(baked_codec::DecodeError::BadMagic)
    ));
    assert!(baked_codec::decode(&file[..20], &keep).is_err());
    assert!(baked_codec::decode(&file[..file.len() - 3], &keep).is_err());
    assert_eq!(
        baked_codec::DecodeError::BadMagic.message(),
        "not a bywind baked-cache file (bad magic)"
    );
}

#[test]
fn baked_files_hold_compressed_winds_behind_a_header() {
    let map = baked();
    let plain = baked_codec::plain_winds(&map);
    assert_eq!(plain.len(), 3 * 2 * 2 * 16);
    assert_eq!(plain[..8], 0.5f64.to_le_bytes());
    let file = baked_codec::framed(&map, Ok(vec![7, 8, 9])).unwrap();
    assert_eq!(file.len(), 79);
    assert_eq!(file[..8], *b"WBAKED01");
    assert_eq!(file[76..], [7, 8, 9]);
    let full = || IoError { kind: IoErrorKind::Other, message: "full".to_string() };
    assert!(matches!(
        baked_codec::framed(&map, Err(full())),
        Err(baked_codec::EncodeError::Io(e)) if e.message == "full"
    ));

    assert_eq!(baked_codec::plain_len(&file).unwrap(), plain.len());
    let keep = |s: Real| s;
    let back = baked_codec::map_told(&file, Ok(plain.clone()), &keep).unwrap();
    assert_eq!(back.grid, map.grid);
    assert_eq!(back.crossfade_seconds, map.t_step_seconds);
    assert!(matches!(
        baked_codec::map_told(&file, Ok(plain[1..].to_vec()), &keep),
        Err(baked_codec::DecodeError::Io(e)) if e.kind == IoErrorKind::UnexpectedEof
    ));
    assert!(matches!(
        baked_codec::map_told(&file, Err(full()), &keep),
        Err(baked_codec::DecodeError::Io(e)) if e.message == "full"
    ));
    let mut old = file.clone();
    old[8] = 9;
    assert!(matches!(
        baked_codec::plain_len(&old),
        Err(baked_codec::DecodeError::UnsupportedVersion(9))
    ));
    let mut huge = file;
    huge[12..20].copy_from_slice(&u64::MAX.to_le_bytes());
    assert!(matches!(
        baked_codec::plain_len(&huge),
        Err(baked_codec::DecodeError::BadDimensions { nx: u64::MAX, ny: 2, nt: 2 })
    ));
}

#[test]
fn encoder_replies_are_taken() {
    let mut out = vec![1];
    assert!(take_reply(&mut out, 5, Ok(vec![40, 41])).unwrap());
    assert_eq!(out, [1, 2, 0, 0, 0, 5, 0, 0, 0, 0, 0, 0, 0, 40, 41]);
    let before = out.clone();
    assert!(take_reply(&mut out, 6, Err(EncodeStatus::Encoded)).unwrap());
    assert!(!take_reply(&mut out, 6, Err(EncodeStatus::NeedMoreData)).unwrap());
    assert!(!take_reply(&mut out, 6, Err(EncodeStatus::LimitReached)).unwrap());
    assert!(matches!(
        take_reply(&mut out, 6, Err(EncodeStatus::Failure)),
        Err(EncodeError::Rav1e(EncodeStatus::Failure))
    ));
    assert_eq!(out, before);
}
