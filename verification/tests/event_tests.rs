use pbn::bytesource::ChunkedSource;
use pbn::bytesource::SliceSource;
use pbn::events::parse_event_stream;
use pbn::events::EventInfo;

fn parse_all(doc: &[u8]) -> Result<Vec<EventInfo>, String> {
    parse_event_stream(SliceSource::new(doc.to_vec()))
}

#[test]
fn parse_event_streams() {
    let stream = br#"{"data":[]}"#;
    assert_eq!(parse_all(stream).unwrap().len(), 0);

    let stream = br#"{"data":[{"ts":2,"u":"foo","c":5,"x":4,"y":8}]}"#;
    let strm = parse_all(stream).unwrap();
    assert_eq!(strm.len(), 1);
    assert_eq!(strm[0].ts, 2);
    assert_eq!(strm[0].username, b"foo".to_vec());
    assert_eq!(strm[0].color, 5);
    assert_eq!(strm[0].x, 4);
    assert_eq!(strm[0].y, 8);

    let stream = br#"{"data":[{"ts":2,"u":"foo","c":5,"x":4,"y":"8"}]}"#;
    let strm = parse_all(stream).unwrap();
    assert_eq!(strm.len(), 1);
    assert_eq!(strm[0].ts, 2);
    assert_eq!(strm[0].username, b"foo".to_vec());
    assert_eq!(strm[0].color, 5);
    assert_eq!(strm[0].x, 4);
    assert_eq!(strm[0].y, 8);

    let stream = br#"{"data":[{"ts":-2,"u":"foo","c":5,"x":4,"y":"8"}]}"#;
    let strm = parse_all(stream).unwrap();
    assert_eq!(strm.len(), 1);
    assert_eq!(strm[0].ts, -2);
    assert_eq!(strm[0].username, b"foo".to_vec());
    assert_eq!(strm[0].color, 5);
    assert_eq!(strm[0].x, 4);
    assert_eq!(strm[0].y, 8);

    let stream =
        br#"{"data":[{"ts":2,"u":"foo","c":5,"x":4,"y":8},{"ts":12,"u":"bar","c":15,"x":14,"y":18}]}"#;
    let strm = parse_all(stream).unwrap();
    assert_eq!(strm.len(), 2);
    assert_eq!(strm[0].ts, 2);
    assert_eq!(strm[0].username, b"foo".to_vec());
    assert_eq!(strm[0].color, 5);
    assert_eq!(strm[0].x, 4);
    assert_eq!(strm[0].y, 8);
    assert_eq!(strm[1].ts, 12);
    assert_eq!(strm[1].username, b"bar".to_vec());
    assert_eq!(strm[1].color, 15);
    assert_eq!(strm[1].x, 14);
    assert_eq!(strm[1].y, 18);
}

#[test]
fn parse_event_streams_invalid() {
    let stream = br#"{"data":[{"ts":2,"u":"foo","c":5,"x":4,"y":-8}]}"#;
    assert!(parse_all(stream).is_err());
    let stream = br#"{"data":[{"ts":2,"u":"foo","c":5,"x":-4,"y":8}]}"#;
    assert!(parse_all(stream).is_err());
    let stream = br#"{"data":[{"ts":2,"u":"foo","c":-5,"x":4,"y":8}]}"#;
    assert!(parse_all(stream).is_err());
    let stream = br#"{"data":[{"ts":2,"u":"foo","c":5,"x":4,"y":2200000000}]}"#;
    assert!(parse_all(stream).is_err());
    let stream = br#"{"data":[{"ts":2,"u":"foo","c":5,"x":4}]}"#;
    assert!(parse_all(stream).is_err());
    let stream = br#"{"data":[{"ts":2,"u":"foo","c":5,"y":8}]}"#;
    assert!(parse_all(stream).is_err());
    let stream = br#"{"data":[{"ts":2,"u":"foo","x":4,"y":8}]}"#;
    assert!(parse_all(stream).is_err());
    let stream = br#"{"data":[{"ts":2,"c":5,"x":4,"y":8}]}"#;
    assert!(parse_all(stream).is_err());
    let stream = br#"{"data":[{"u":"foo","c":5,"x":4,"y":8}]}"#;
    assert!(parse_all(stream).is_err());
    let stream = br#"{"data":[{"ts":2,"u":"foo","c":5,"x":4,"y":8,"z":5}]}"#;
    assert!(parse_all(stream).is_err());
    let stream = br#"{"data":[{"ts":2,"u":"foo","c":5,"x":4,"y":8,}]}"#;
    assert!(parse_all(stream).is_err());
    let stream = br#"{"data":[{"ts":2,"u":"foo","c":5,"x":4,"y":8]}"#;
    assert!(parse_all(stream).is_err());
    let stream = br#"{"data":[{"ts":2,"u":"foo","c":5,"x":4,"y":8}}"#;
    assert!(parse_all(stream).is_err());
    let stream = br#"{"data":[{"ts":2,"u":"foo","c":5,"x":4,"y":8}]"#;
    assert!(parse_all(stream).is_err());
}

#[test]
fn chunking_never_changes_the_outcome() {
    // Splitting a document at every possible offset — including inside
    // multi-byte characters — never changes acceptance or the decoded
    // events.
    let docs: &[&[u8]] = &[
        br#"{"data":[]}"#,
        r#"{ "data" : [ { "ts" : 2 , "u" : "föo" , "c" : 5 , "x" : 4 , "y" : 8 } ] }"#.as_bytes(),
        "{\"data\":[{\"ts\":-2,\"u\":\"sm\u{00f6}rg\u{e5}s\u{10348}\",\"c\":1,\"x\":0,\"y\":0}]}"
            .as_bytes(),
        br#"{"data":[{"ts":2,"u":"foo","c":5,"x":4,"y":8},]}"#,
        br#"{"data":[{"ts":2,"u":"foo"}]}"#,
        b"{\"data\":[]} trailing",
        b"not json at all",
        b"{\"data\":[{\"ts\":2,\"u\":\"\xff\xff\",\"c\":5,\"x\":4,\"y\":8}]}",
    ];
    for doc in docs {
        let whole = parse_all(doc);
        for k in 1..doc.len() + 1 {
            let split = parse_event_stream(ChunkedSource::new(doc.to_vec(), k));
            assert_eq!(whole.is_ok(), split.is_ok());
            if let (Ok(a), Ok(b)) = (&whole, &split) {
                assert_eq!(a.len(), b.len());
                for i in 0..a.len() {
                    assert_eq!(a[i].ts, b[i].ts);
                    assert_eq!(a[i].username, b[i].username);
                    assert_eq!(a[i].color, b[i].color);
                    assert_eq!(a[i].x, b[i].x);
                    assert_eq!(a[i].y, b[i].y);
                }
            }
        }
    }
}

#[test]
fn utf8_errors_are_rejected() {
    // A continuation byte cannot start a character.
    assert!(parse_all(b"{\"data\":[{\"ts\":2,\"u\":\"\x80\",\"c\":5,\"x\":4,\"y\":8}]}").is_err());
    // An overlong encoding is rejected.
    assert!(parse_all(b"{\"data\":[{\"ts\":2,\"u\":\"\xc0\xaf\",\"c\":5,\"x\":4,\"y\":8}]}").is_err());
    // A document must not end inside a multi-byte character.
    assert!(parse_all(b"{\"data\":[]} \xe2\x82").is_err());
    // A well-formed multi-byte character is fine.
    let ok = parse_all("{\"data\":[{\"ts\":2,\"u\":\"\u{20ac}\",\"c\":5,\"x\":4,\"y\":8}]}".as_bytes());
    assert_eq!(ok.unwrap()[0].username, "\u{20ac}".as_bytes().to_vec());
}

#[test]
fn event_stream_edge_cases() {
    // Duplicate keys: the later value wins.
    let strm = parse_all(br#"{"data":[{"ts":1,"ts":2,"u":"a","c":0,"x":0,"y":0}]}"#).unwrap();
    assert_eq!(strm[0].ts, 2);
    // Coordinates at the extremes of the accepted range.
    let strm = parse_all(br#"{"data":[{"ts":1,"u":"a","c":2147483647,"x":0,"y":"2147483647"}]}"#)
        .unwrap();
    assert_eq!(strm[0].color, 2147483647);
    assert_eq!(strm[0].y, 2147483647);
    // Just past the range is rejected, quoted or not.
    assert!(parse_all(br#"{"data":[{"ts":1,"u":"a","c":2147483648,"x":0,"y":0}]}"#).is_err());
    assert!(parse_all(br#"{"data":[{"ts":1,"u":"a","c":0,"x":0,"y":"2147483648"}]}"#).is_err());
    // Timestamps span the whole 64-bit signed range.
    let strm = parse_all(
        br#"{"data":[{"ts":-9223372036854775808,"u":"a","c":0,"x":0,"y":0}]}"#,
    )
    .unwrap();
    assert_eq!(strm[0].ts, i64::MIN);
    // A fractional timestamp is not a machine integer.
    assert!(parse_all(br#"{"data":[{"ts":1.5,"u":"a","c":0,"x":0,"y":0}]}"#).is_err());
    // Empty input and a bare brace are rejected.
    assert!(parse_all(b"").is_err());
    assert!(parse_all(b"{").is_err());
    // The empty object has no data array but is a valid top level object.
    assert_eq!(parse_all(b"{}").unwrap().len(), 0);
}

#[test]
fn format_row_echoes_json() {
    let ev = EventInfo {
        ts: -5,
        username: b"f\"oo".to_vec(),
        color: 7,
        x: 12,
        y: 2147483647,
    };
    let mut out: Vec<u8> = Vec::new();
    pbn::events::format_row(&mut out, &ev);
    assert_eq!(out, br#"{"ts":-5,"u":"f\"oo","c":7,"x":12,"y":2147483647}"#.to_vec());
}

#[test]
fn checkpos2_bounds() {
    assert_eq!(pbn::events::checkpos2(0, "c").unwrap(), 0);
    assert_eq!(pbn::events::checkpos2(2147483647, "c").unwrap(), 2147483647);
    assert!(pbn::events::checkpos2(-1, "c").is_err());
    assert!(pbn::events::checkpos2(2147483648, "c").is_err());
}

#[test]
fn oversized_tokens_are_rejected_and_long_documents_pass() {
    // A single token longer than the buffered window is rejected, however
    // the input arrives.
    let mut doc: Vec<u8> = br#"{"data":[{"ts":2,"u":""#.to_vec();
    doc.extend(std::iter::repeat(b'a').take(5000));
    doc.extend_from_slice(br#"","c":5,"x":4,"y":8}]}"#);
    assert!(parse_all(&doc).is_err());
    assert!(parse_event_stream(ChunkedSource::new(doc.clone(), 7)).is_err());
    // A username just inside the window is fine.
    let mut doc: Vec<u8> = br#"{"data":[{"ts":2,"u":""#.to_vec();
    doc.extend(std::iter::repeat(b'a').take(4000));
    doc.extend_from_slice(br#"","c":5,"x":4,"y":8}]}"#);
    let evs = parse_all(&doc).unwrap();
    assert_eq!(evs[0].username.len(), 4000);
    // A long document of small tokens streams through the compacting
    // buffer without trouble.
    let mut doc: Vec<u8> = br#"{"data":["#.to_vec();
    for i in 0..700 {
        if i > 0 {
            doc.push(b',');
        }
        doc.extend_from_slice(
            format!(r#"{{"ts":{},"u":"user{}","c":1,"x":2,"y":3}}"#, i, i).as_bytes(),
        );
    }
    doc.extend_from_slice(b"]}");
    assert!(doc.len() > 20000);
    let evs = parse_all(&doc).unwrap();
    assert_eq!(evs.len(), 700);
    assert_eq!(evs[699].ts, 699);
    let evs2 = parse_event_stream(ChunkedSource::new(doc, 13)).unwrap();
    assert_eq!(evs2.len(), 700);
}
