use pbn::bytesource::SliceSource;
use pbn::events::EventFields;
use pbn::image::MmapImageState;
use pbn::lsmv::MovieEvent;
use pbn::png::Adler32;
use pbn::png::Crc32;
use pbn::scene::Scene;
use pbn::events::get_bounds_from_query;
use pbn::events::scene_post_form_from_pairs;
use pbn::events::ScenePostForm;
use pbn::stream::JsonStream;

#[test]
fn checksum_vectors() {
    let mut c = Crc32::new();
    c.add(b"123456789");
    let mut word: Vec<u8> = Vec::new();
    c.flush(&mut word);
    assert_eq!(word, vec![0xCB, 0xF4, 0x39, 0x26]);
    let mut a = Adler32::new();
    assert_eq!(a.as_inner(), 1);
    a.add(b"123456789");
    assert_eq!(a.as_inner(), 0x091E01DE);
    // Incremental absorption matches one-shot absorption.
    let mut c2 = Crc32::new();
    c2.add(b"1234");
    c2.add(b"56789");
    let mut out1: Vec<u8> = Vec::new();
    let mut out2: Vec<u8> = Vec::new();
    c.flush(&mut out1);
    c2.flush(&mut out2);
    assert_eq!(out1, out2);
}

#[test]
fn image_last_writer_wins() {
    let mut img = MmapImageState::new(2, 2);
    img.write_pixel(0, 0, 10, 0x123456);
    // An older write to the same pixel is ignored.
    img.write_pixel(0, 0, 5, 0x654321);
    // A write outside the image is ignored.
    img.write_pixel(5, 0, 99, 0x111111);
    img.write_pixel(-1, 0, 99, 0x111111);
    let mut row = vec![0u8; 8];
    img.read_row(0, &mut row);
    assert_eq!(&row[0..4], &[0x12, 0x34, 0x56, 0xFF]);
    assert_eq!(&row[4..8], &[0, 0, 0, 0]);
    // A same-timestamp write lands.
    img.write_pixel(0, 0, 10, 0x654321);
    img.read_row(0, &mut row);
    assert_eq!(&row[0..4], &[0x65, 0x43, 0x21, 0xFF]);
}

#[test]
fn png_one_pixel_image() {
    let mut img = MmapImageState::new(1, 1);
    img.write_pixel(0, 0, 1, 0x123456);
    assert_eq!(pbn::png::scan_image_as_png_size(&img), 85);
    let mut out: Vec<u8> = Vec::new();
    pbn::png::scan_image_as_png(&mut out, &img);
    let expected: Vec<u8> = vec![
        137, 80, 78, 71, 13, 10, 26, 10, 0, 0, 0, 13, 73, 72, 68, 82, 0, 0, 0, 1, 0, 0, 0, 1, 8,
        6, 0, 0, 0, 31, 21, 196, 137, 0, 0, 0, 2, 73, 68, 65, 84, 8, 29, 215, 36, 91, 107, 0, 0,
        0, 14, 73, 68, 65, 84, 1, 5, 0, 250, 255, 0, 18, 52, 86, 255, 2, 148, 1, 156, 71, 147,
        20, 160, 0, 0, 0, 0, 73, 69, 78, 68, 174, 66, 96, 130,
    ];
    assert_eq!(out, expected);
    assert_eq!(out.len(), pbn::png::scan_image_as_png_size(&img));
}

#[test]
fn scramble_round_trips_and_uses_the_digest() {
    let seed = b"wonderkey".to_vec();
    let s = Scene::new(12345);
    let pub_form = s.scramble(&seed);
    // The exact letters depend on the digest of the seed; a digest that
    // handed its input back would give different letters.
    assert_eq!(pub_form, b"WYXAQF".to_vec());
    assert_eq!(Scene::new(0).scramble(&seed), b"WEVYDE".to_vec());
    let back = Scene::descramble(&pub_form, &seed);
    assert_eq!(back.as_inner(), 12345);
    // Round trip holds across the 30-bit id range.
    for n in [0i32, 1, 77, 32767, 32768, 0x3FFF_FFFF] {
        let letters = Scene::new(n).scramble(&seed);
        assert_eq!(Scene::descramble(&letters, &seed).as_inner(), n);
    }
}

#[test]
fn varint_and_frame_bytes() {
    let mut out: Vec<u8> = Vec::new();
    pbn::lsmv::write_integer(&mut out, 0);
    assert_eq!(out, vec![0]);
    out.clear();
    pbn::lsmv::write_integer(&mut out, 127);
    assert_eq!(out, vec![127]);
    out.clear();
    pbn::lsmv::write_integer(&mut out, 128);
    assert_eq!(out, vec![128, 1]);
    out.clear();
    pbn::lsmv::write_integer(&mut out, 1000000000);
    assert_eq!(out, vec![128, 148, 235, 220, 3]);
    out.clear();
    pbn::lsmv::write_frame(&mut out, 0x0102, 0x0304, 0xA0B0C0, true, true);
    assert_eq!(out, vec![3, 0x02, 0x01, 0x04, 0x03, 0xA0, 0, 0xB0, 0, 0xC0, 0]);
    out.clear();
    pbn::lsmv::write_u32(&mut out, 0xADDB2D86);
    assert_eq!(out, vec![0xAD, 0xDB, 0x2D, 0x86]);
}

#[test]
fn lsmv_movie_layout() {
    let seed = b"wonderkey".to_vec();
    let rows: Vec<(i64, i32, i32, i32)> = vec![
        (100, 1, 0, 0),
        (100, 2, 1, 0),
        (200, 3, 0, 1),
        (150, 4, -1, 0),
    ];
    // Unsorted rows are not given to the writer; sort first.
    let mut rows = rows;
    rows.sort_by_key(|r| r.0);
    let file = pbn::lsmv::scene_get_lsmv(Scene::new(7), &seed, 2, 2, &rows).unwrap();
    assert_eq!(file.0, "application/x-lsnes-movie");
    let body = file.1;
    // Magic, then the system name as a length-prefixed string.
    assert_eq!(&body[0..5], &[0x6C, 0x73, 0x6D, 0x76, 0x1A]);
    assert_eq!(&body[5..9], &[3, b'p', b'b', b'n']);
    // Three events inside bounds: two on frame zero (one a spinning
    // subframe), one on frame six after five padding frames.
    let frames = &body[body.len() - 8 * 11..];
    assert_eq!(&frames[0..11], &[3, 0, 0, 0, 0, 0, 0, 0, 0, 1, 0]);
    assert_eq!(&frames[11..22], &[0, 1, 0, 0, 0, 0, 0, 0, 0, 2, 0]);
    for k in 0..5 {
        assert_eq!(&frames[22 + 11 * k..33 + 11 * k], &[1, 0, 0, 0, 0, 0, 0, 0, 0, 0, 0]);
    }
    assert_eq!(&frames[77..88], &[3, 0, 0, 1, 0, 0, 0, 0, 0, 3, 0]);
}

#[test]
fn apikey_alphabet() {
    let random: Vec<u8> = (0u8..18).collect();
    let key = pbn::auth::local_apikey(&random);
    assert_eq!(key, b"AAECAwQFBgcICQoLDA0ODxAR".to_vec());
    // All zero bytes encode to the first letter throughout.
    let key0 = pbn::auth::local_apikey(&vec![0u8; 18]);
    assert_eq!(key0, vec![b'A'; 24]);
}

#[test]
fn object_driver_gathers_fields() {
    let doc = br#"{"ts":1,"u":"a","c":2,"x":3,"y":4}"#.to_vec();
    let mut stream = JsonStream::new(SliceSource::new(doc));
    stream.expect_object().unwrap();
    let mut fields = EventFields { ts: None, username: None, color: None, xv: None, yv: None };
    stream.do_object(&mut fields).unwrap();
    assert_eq!(fields.ts, Some(1));
    assert_eq!(fields.username, Some(b"a".to_vec()));
    assert_eq!(fields.color, Some(2));
    assert_eq!(fields.xv, Some(3));
    assert_eq!(fields.yv, Some(4));
    stream.expect_end_of_json().unwrap();
}

#[test]
fn array_driver_collects_events() {
    let doc = br#"[{"ts":1,"u":"a","c":2,"x":3,"y":4},{"ts":2,"u":"b","c":5,"x":6,"y":7}]"#
        .to_vec();
    let mut stream = JsonStream::new(SliceSource::new(doc));
    stream.expect_array().unwrap();
    let mut coll = pbn::events::CollectEvents { events: Vec::new() };
    stream.do_array(&mut coll).unwrap();
    assert_eq!(coll.events.len(), 2);
    assert_eq!(coll.events[0].ts, 1);
    assert_eq!(coll.events[1].username, b"b".to_vec());
    stream.expect_end_of_json().unwrap();
    // A malformed list is refused by the driver.
    let doc = br#"[{"ts":1,"u":"a","c":2,"x":3,"y":4},]"#.to_vec();
    let mut stream = JsonStream::new(SliceSource::new(doc));
    stream.expect_array().unwrap();
    let mut coll = pbn::events::CollectEvents { events: Vec::new() };
    assert!(stream.do_array(&mut coll).is_err());
}

#[test]
fn movie_event_struct_is_plain() {
    let ev = MovieEvent { timestamp: 5, x: 1, y: 2, color: 3 };
    assert_eq!(ev.timestamp, 5);
}

#[test]
fn scene_dimension_rule() {
    assert!(pbn::scenes::scene_dimensions_ok(1, 1));
    assert!(pbn::scenes::scene_dimensions_ok(2048, 1024));
    assert!(!pbn::scenes::scene_dimensions_ok(0, 5));
    assert!(!pbn::scenes::scene_dimensions_ok(5, 0));
    assert!(!pbn::scenes::scene_dimensions_ok(2049, 1024));
    assert!(!pbn::scenes::scene_dimensions_ok(0x8000_0000u32, 2));
}

#[test]
fn error_status_mapping() {
    assert_eq!(pbn::error::Error::SceneNotFound.status_code(), 404);
    assert_eq!(pbn::error::Error::InvalidOrigin.status_code(), 403);
    assert_eq!(pbn::error::Error::BadGrant.status_code(), 422);
    assert_eq!(pbn::error::Error::MethodNotSupported.status_code(), 405);
    assert_eq!(pbn::error::Error::SceneNotFound.status_text(), "Scene not found");
}

#[test]
fn form_combinations() {
    let kv = |k: &str, v: &str| (k.as_bytes().to_vec(), v.as_bytes().to_vec());
    // A grant alone.
    let r = scene_post_form_from_pairs(&vec![kv("a", "https://x")], true).unwrap();
    assert!(matches!(r, ScenePostForm::Grant(g) if g == b"https://x".to_vec()));
    // A withdrawal alone.
    let r = scene_post_form_from_pairs(&vec![kv("d", "https://x")], true).unwrap();
    assert!(matches!(r, ScenePostForm::Ungrant(_)));
    // A full event; a later key overrides an earlier one.
    let r = scene_post_form_from_pairs(
        &vec![kv("ts", "1"), kv("u", "me"), kv("c", "2"), kv("x", "3"), kv("y", "4"), kv("ts", "-9")],
        true,
    )
    .unwrap();
    match r {
        ScenePostForm::Event(ev) => {
            assert_eq!(ev.ts, -9);
            assert_eq!(ev.username, b"me".to_vec());
            assert_eq!(ev.color, 2);
            assert_eq!(ev.x, 3);
            assert_eq!(ev.y, 4);
        },
        _ => panic!("expected an event"),
    }
    // Mixtures, bad numbers and unknown strict keys are rejected.
    assert!(scene_post_form_from_pairs(&vec![kv("a", "p"), kv("d", "q")], true).is_err());
    assert!(scene_post_form_from_pairs(&vec![kv("ts", "1")], true).is_err());
    assert!(
        scene_post_form_from_pairs(
            &vec![kv("ts", "1"), kv("u", "me"), kv("c", "-2"), kv("x", "3"), kv("y", "4")],
            true
        )
        .is_err()
    );
    assert!(scene_post_form_from_pairs(&vec![kv("zz", "1")], true).is_err());
    // A lax reading ignores unknown keys.
    let r = scene_post_form_from_pairs(&vec![kv("zz", "1"), kv("a", "p")], false).unwrap();
    assert!(matches!(r, ScenePostForm::Grant(_)));
}

#[test]
fn query_bounds() {
    let ps = |v: &[&str]| v.iter().map(|s| s.as_bytes().to_vec()).collect::<Vec<_>>();
    let b = get_bounds_from_query(&ps(&["since=5", "until=-3"]));
    assert_eq!(b.start, Some(5));
    assert_eq!(b.end, Some(-3));
    // Unparsable values and unrelated parameters are ignored; the last
    // parsable occurrence wins.
    let b = get_bounds_from_query(&ps(&["since=x", "flag", "until=2", "until=7"]));
    assert_eq!(b.start, None);
    assert_eq!(b.end, Some(7));
    let b = get_bounds_from_query(&ps(&[]));
    assert_eq!(b.start, None);
    assert_eq!(b.end, None);
}

#[test]
fn checkpos_form_values() {
    assert_eq!(pbn::events::checkpos::<()>(Ok(3), "x").unwrap(), 3);
    assert!(pbn::events::checkpos::<()>(Ok(-1), "x").is_err());
    assert!(pbn::events::checkpos::<()>(Err(()), "x").is_err());
}
