use cbordb::{
    decode_header, encode_header, header_size, Decode, Encode, Error, Float, Kind, NullVisitor,
    Visitor, CBOR,
};

#[derive(Debug, PartialEq, Clone)]
enum Event {
    Integer(i128),
    Bytes(Vec<u8>),
    Text(String),
    Null,
    Undefined,
    Bool(bool),
    Float(Float),
    Simple(u64),
    ArrayStart(Option<u64>),
    ArraySeparator,
    ArrayEnd,
    MapStart(Option<u64>),
    MapColon,
    MapSeparator,
    MapEnd,
    TagStart(u64),
    TagEnd,
}

#[derive(Default)]
struct Recorder {
    events: Vec<Event>,
}

impl<'a> Visitor<'a> for Recorder {
    fn event(&mut self, e: cbordb::Event<'a>) -> Result<(), Error> {
        let owned = match e {
            cbordb::Event::Integer(v) => Event::Integer(v),
            cbordb::Event::Bytes(b) => Event::Bytes(b.to_vec()),
            cbordb::Event::Text(t) => Event::Text(t.to_string()),
            cbordb::Event::Null => Event::Null,
            cbordb::Event::Undefined => Event::Undefined,
            cbordb::Event::Bool(v) => Event::Bool(v),
            cbordb::Event::Float(v) => Event::Float(v),
            cbordb::Event::Simple(v) => Event::Simple(v),
            cbordb::Event::ArrayStart(n) => Event::ArrayStart(n),
            cbordb::Event::ArraySeparator => Event::ArraySeparator,
            cbordb::Event::ArrayEnd => Event::ArrayEnd,
            cbordb::Event::MapStart(n) => Event::MapStart(n),
            cbordb::Event::MapColon => Event::MapColon,
            cbordb::Event::MapSeparator => Event::MapSeparator,
            cbordb::Event::MapEnd => Event::MapEnd,
            cbordb::Event::TagStart(t) => Event::TagStart(t),
            cbordb::Event::TagEnd => Event::TagEnd,
        };
        self.events.push(owned);
        Ok(())
    }
}

/// Fails on the first integer it is shown.
struct RefuseIntegers;

impl<'a> Visitor<'a> for RefuseIntegers {
    fn event(&mut self, e: cbordb::Event<'a>) -> Result<(), Error> {
        match e {
            cbordb::Event::Integer(_) => Err(Error::FormatError),
            _ => Ok(()),
        }
    }
}

fn encode<T: Encode>(v: &T) -> Vec<u8> {
    let mut buf = vec![0u8; v.cbor_size()];
    let n = v.cbor_encode(&mut buf).unwrap();
    assert_eq!(n, buf.len());
    buf
}

fn events(bytes: &[u8]) -> (Result<usize, Error>, Vec<Event>) {
    let mut r = Recorder::default();
    let res = CBOR(bytes).visit(&mut r);
    (res, r.events)
}

#[test]
fn scenario_unsigned_1000() {
    let bytes = encode(&1000u64);
    assert_eq!(bytes, vec![0x19, 0x03, 0xE8]);
    let (res, ev) = events(&bytes);
    assert_eq!(res, Ok(3));
    assert_eq!(ev, vec![Event::Integer(1000)]);
    let mut cur: &[u8] = &bytes;
    assert_eq!(i32::decode(&mut cur), Ok(1000));
    assert!(cur.is_empty());
}

#[test]
fn scenario_one_char_string() {
    let bytes = encode(&"a");
    assert_eq!(bytes, vec![0x61, 0x61]);
    let mut cur: &[u8] = &bytes;
    assert_eq!(<&str>::decode(&mut cur), Ok("a"));
    assert!(cur.is_empty());
    let (res, ev) = events(&bytes);
    assert_eq!(res, Ok(2));
    assert_eq!(ev, vec![Event::Text("a".to_string())]);
}

#[test]
fn scenario_empty_list() {
    let empty: Vec<u32> = Vec::new();
    let bytes = encode(&empty);
    assert_eq!(bytes, vec![0x80]);
    let (res, ev) = events(&bytes);
    assert_eq!(res, Ok(1));
    assert_eq!(ev, vec![Event::ArrayStart(Some(0)), Event::ArrayEnd]);
}

#[test]
fn scenario_lone_break_byte() {
    let bytes = [0xFFu8];
    assert_eq!(CBOR(&bytes[..]).visit(&mut NullVisitor), Err(Error::InvalidCode));
    assert_eq!(CBOR(&bytes[..]).size(), Err(Error::InvalidCode));
    assert_eq!(CBOR(&bytes[..]).kind(), Kind::Break);
}

#[test]
fn reserved_codes_are_invalid() {
    for major in 0u8..8 {
        for low in 28u8..31 {
            let b = [major * 32 + low, 0, 0, 0, 0, 0, 0, 0, 0];
            assert!(matches!(decode_header(&b), Err(Error::InvalidCode)));
            assert_eq!(CBOR(&b[..]).visit(&mut NullVisitor), Err(Error::InvalidCode));
            assert_eq!(CBOR(&b[..]).size(), Err(Error::InvalidCode));
            assert_eq!(CBOR(&b[..]).kind(), Kind::Invalid);
        }
    }
}

#[test]
fn header_widths_are_minimal() {
    let cases: [(u64, usize); 10] = [
        (0, 1),
        (23, 1),
        (24, 2),
        (255, 2),
        (256, 3),
        (65535, 3),
        (65536, 5),
        (0xFFFF_FFFF, 5),
        (0x1_0000_0000, 9),
        (u64::MAX, 9),
    ];
    for (arg, width) in cases {
        assert_eq!(header_size(arg), width);
        for major in 0u8..8 {
            let mut buf = [0u8; 9];
            assert_eq!(encode_header(&mut buf, major, arg), Ok(width));
            let (m, a, rest) = decode_header(&buf[..width]).unwrap();
            assert_eq!((m, a, rest.len()), (major, Some(arg), 0));
            let mut short = vec![0u8; width - 1];
            assert_eq!(encode_header(&mut short, major, arg), Err(Error::TooShort));
        }
    }
}

#[test]
fn non_minimal_header_is_accepted() {
    let b = [0x18u8, 0x05];
    let (m, a, rest) = decode_header(&b).unwrap();
    assert_eq!((m, a, rest.len()), (0, Some(5), 0));
    assert_eq!(events(&b), (Ok(2), vec![Event::Integer(5)]));
    let wide = [0x1bu8, 0, 0, 0, 0, 0, 0, 0, 7];
    assert_eq!(events(&wide), (Ok(9), vec![Event::Integer(7)]));
}

#[test]
fn integers_of_every_width_round_trip() {
    assert_eq!(encode(&0u8), vec![0x00]);
    assert_eq!(encode(&24u8), vec![0x18, 24]);
    assert_eq!(encode(&500u16), vec![0x19, 0x01, 0xF4]);
    assert_eq!(encode(&70000u32), vec![0x1a, 0x00, 0x01, 0x11, 0x70]);
    assert_eq!(encode(&-1i8), vec![0x20]);
    assert_eq!(encode(&-100i16), vec![0x38, 99]);
    assert_eq!(encode(&-1000i32), vec![0x39, 0x03, 0xE7]);
    let values: [i128; 8] = [
        0,
        1,
        -1,
        i64::MAX as i128,
        i64::MIN as i128,
        u64::MAX as i128,
        i32::MIN as i128,
        -24,
    ];
    for v in values {
        let bytes = if v >= 0 { encode(&(v as u64)) } else { encode(&(v as i64)) };
        let (res, ev) = events(&bytes);
        assert_eq!(res, Ok(bytes.len()));
        assert_eq!(ev, vec![Event::Integer(v)]);
        assert_eq!(CBOR(&bytes[..]).size(), Ok(bytes.len()));
    }
}

#[test]
fn most_negative_integer_round_trips() {
    let bytes = encode(&i64::MIN);
    assert_eq!(bytes, vec![0x3b, 0x7f, 0xff, 0xff, 0xff, 0xff, 0xff, 0xff, 0xff]);
    assert_eq!(events(&bytes), (Ok(9), vec![Event::Integer(i64::MIN as i128)]));
    let bytes = encode(&i32::MIN);
    assert_eq!(bytes, vec![0x3a, 0x7f, 0xff, 0xff, 0xff]);
    let mut cur: &[u8] = &bytes;
    assert_eq!(i32::decode(&mut cur), Ok(i32::MIN));
    let mut cur: &[u8] = &encode(&i32::MAX);
    assert_eq!(i32::decode(&mut cur), Ok(i32::MAX));
}

#[test]
fn narrowing_reports_number_too_big() {
    let mut cur: &[u8] = &encode(&(i32::MAX as u64 + 1));
    assert_eq!(i32::decode(&mut cur), Err(Error::NumberTooBig));
    let mut cur: &[u8] = &encode(&(i32::MIN as i64 - 1));
    assert_eq!(i32::decode(&mut cur), Err(Error::NumberTooBig));
}

#[test]
fn typed_decode_reports_wrong_type() {
    let mut cur: &[u8] = &encode(&"x");
    assert_eq!(i32::decode(&mut cur), Err(Error::IncorrectType));
    let mut cur: &[u8] = &encode(&7u8);
    assert_eq!(<&str>::decode(&mut cur), Err(Error::IncorrectType));
    let mut cur: &[u8] = &encode(&"x");
    assert_eq!(<&[u8]>::decode(&mut cur), Err(Error::IncorrectType));
    let mut cur: &[u8] = &[0x9f, 0xff];
    assert_eq!(<&str>::decode(&mut cur), Err(Error::InvalidCode));
    let mut cur: &[u8] = &[0x63, b'a'];
    assert_eq!(<&str>::decode(&mut cur), Err(Error::TooShort));
    let mut cur: &[u8] = &[];
    assert_eq!(i32::decode(&mut cur), Err(Error::TooShort));
}

#[test]
fn text_and_bytes_round_trip() {
    let text = "h\u{e9}llo, \u{4e16}\u{754c}";
    let bytes = encode(&text);
    assert_eq!(bytes[0], 0x60 + text.len() as u8);
    let mut cur: &[u8] = &bytes;
    assert_eq!(<&str>::decode(&mut cur), Ok(text));
    assert!(cur.is_empty());

    let data: &[u8] = &[1, 2, 3, 0xff];
    let bytes = encode(&data);
    assert_eq!(bytes, vec![0x44, 1, 2, 3, 0xff]);
    let mut cur: &[u8] = &bytes;
    assert_eq!(<&[u8]>::decode(&mut cur), Ok(data));
    assert_eq!(events(&bytes), (Ok(5), vec![Event::Bytes(data.to_vec())]));

    let long = "x".repeat(300);
    let bytes = encode(&long.as_str());
    assert_eq!(&bytes[..3], &[0x79, 0x01, 0x2c]);
    let mut cur: &[u8] = &bytes;
    assert_eq!(<&str>::decode(&mut cur), Ok(long.as_str()));
}

#[test]
fn invalid_utf8_is_rejected() {
    let bytes = [0x62u8, 0xc3, 0x28];
    assert_eq!(CBOR(&bytes[..]).visit(&mut NullVisitor), Err(Error::NonUTF8String));
    let mut cur: &[u8] = &bytes;
    assert_eq!(<&str>::decode(&mut cur), Err(Error::NonUTF8String));
    assert_eq!(CBOR(&bytes[..]).size(), Ok(3));
}

#[test]
fn scalars_and_composites_round_trip() {
    assert_eq!(encode(&true), vec![0xf5]);
    assert_eq!(encode(&false), vec![0xf4]);
    assert_eq!(encode(&()), vec![0xf6]);
    assert_eq!(encode(&None::<u8>), vec![0xf6]);
    assert_eq!(encode(&Some(5u8)), vec![0x05]);
    assert_eq!(encode(&Float::F32(0x3fc0_0000)), vec![0xfa, 0x3f, 0xc0, 0, 0]);
    assert_eq!(
        encode(&Float::F64(0x3ff8_0000_0000_0000)),
        vec![0xfb, 0x3f, 0xf8, 0, 0, 0, 0, 0, 0]
    );
    let pair = (1u8, "ab");
    let bytes = encode(&pair);
    assert_eq!(bytes, vec![0x82, 0x01, 0x62, b'a', b'b']);
    assert_eq!(
        events(&bytes),
        (
            Ok(5),
            vec![
                Event::ArrayStart(Some(2)),
                Event::Integer(1),
                Event::ArraySeparator,
                Event::Text("ab".to_string()),
                Event::ArrayEnd
            ]
        )
    );
    let arr = [true, false, true];
    assert_eq!(encode(&arr), vec![0x83, 0xf5, 0xf4, 0xf5]);
    let nested: Vec<Vec<i64>> = vec![vec![1, -2], vec![], vec![i64::MIN]];
    let bytes = encode(&nested);
    assert_eq!(CBOR(&bytes[..]).size(), Ok(bytes.len()));
    let (res, ev) = events(&bytes);
    assert_eq!(res, Ok(bytes.len()));
    assert_eq!(ev.iter().filter(|e| matches!(e, Event::Integer(_))).count(), 3);
    let (res, ev) = events(&encode(&(Float::F32(0x4049_0fdb), Some(true))));
    assert_eq!(res, Ok(7));
    assert_eq!(ev[1], Event::Float(Float::F32(0x4049_0fdb)));
    assert_eq!(ev[3], Event::Bool(true));
}

#[test]
fn encode_into_short_buffer_fails() {
    let v: Vec<u16> = vec![1, 2, 1000];
    let size = v.cbor_size();
    assert_eq!(size, 6);
    for n in 0..size {
        let mut buf = vec![0u8; n];
        assert_eq!(v.cbor_encode(&mut buf), Err(Error::TooShort));
    }
    let mut buf = vec![0u8; size + 2];
    assert_eq!(v.cbor_encode(&mut buf), Ok(size));
    assert_eq!(buf, vec![0x83, 1, 2, 0x19, 0x03, 0xe8, 0, 0]);
    let mut small = [0u8; 4];
    assert_eq!("hello".cbor_encode(&mut small), Err(Error::TooShort));
    assert_eq!(Float::F64(0).cbor_encode(&mut small), Err(Error::TooShort));
    assert_eq!(Some(300u32).cbor_encode(&mut small[..2]), Err(Error::TooShort));
}

#[test]
fn definite_and_indefinite_arrays() {
    let definite = [0x83u8, 0x01, 0x02, 0x03];
    let (res, ev) = events(&definite);
    assert_eq!(res, Ok(4));
    assert_eq!(ev.iter().filter(|e| matches!(e, Event::Integer(_))).count(), 3);

    let indefinite = [0x9fu8, 0x01, 0x02, 0xff, 0x05];
    let (res, ev) = events(&indefinite);
    assert_eq!(res, Ok(4));
    assert_eq!(
        ev,
        vec![
            Event::ArrayStart(None),
            Event::Integer(1),
            Event::ArraySeparator,
            Event::Integer(2),
            Event::ArrayEnd
        ]
    );
    assert_eq!(CBOR(&indefinite[..]).size(), Ok(4));
    let next = CBOR(&indefinite[..]).next().unwrap();
    assert_eq!(next.0, &[0x05u8][..]);

    // a break byte inside a definite array is not a value
    let bad = [0x82u8, 0x01, 0xff];
    assert_eq!(CBOR(&bad[..]).visit(&mut NullVisitor), Err(Error::InvalidCode));
    assert_eq!(CBOR(&bad[..]).size(), Err(Error::InvalidCode));
    // an indefinite array without its break byte runs out of input
    let open = [0x9fu8, 0x01];
    assert_eq!(CBOR(&open[..]).size(), Err(Error::TooShort));
}

#[test]
fn maps_and_tags_are_visited() {
    let map = [0xa2u8, 0x61, b'a', 0x01, 0x61, b'b', 0xf6];
    let (res, ev) = events(&map);
    assert_eq!(res, Ok(7));
    assert_eq!(
        ev,
        vec![
            Event::MapStart(Some(2)),
            Event::Text("a".to_string()),
            Event::MapColon,
            Event::Integer(1),
            Event::MapSeparator,
            Event::Text("b".to_string()),
            Event::MapColon,
            Event::Null,
            Event::MapEnd
        ]
    );
    let indefinite_map = [0xbfu8, 0x01, 0xf7, 0xff];
    let (res, ev) = events(&indefinite_map);
    assert_eq!(res, Ok(4));
    assert_eq!(ev[3], Event::Undefined);
    let tagged = [0xc1u8, 0x1a, 0x51, 0x4b, 0x67, 0xb0];
    let (res, ev) = events(&tagged);
    assert_eq!(res, Ok(6));
    assert_eq!(ev, vec![Event::TagStart(1), Event::Integer(1363896240), Event::TagEnd]);
    assert_eq!(CBOR(&tagged[..]).kind(), Kind::Time);
}

#[test]
fn simple_values_and_floats() {
    assert_eq!(events(&[0xf0]), (Ok(1), vec![Event::Simple(16)]));
    assert_eq!(events(&[0xf8, 0xff]), (Ok(2), vec![Event::Simple(255)]));
    assert_eq!(events(&[0xf8, 0x10]).0, Err(Error::InvalidCode));
    assert_eq!(events(&[0xf9, 0x3c, 0x00]).0, Err(Error::InvalidCode));
    assert_eq!(CBOR(&[0xf9u8, 0x3c, 0x00][..]).size(), Ok(3));
    assert_eq!(
        events(&[0xfa, 0x47, 0xc3, 0x50, 0x00]),
        (Ok(5), vec![Event::Float(Float::F32(0x47c3_5000))])
    );
    assert_eq!(
        events(&[0xfb, 1, 2, 3, 4, 5, 6, 7, 8]),
        (Ok(9), vec![Event::Float(Float::F64(0x0102_0304_0506_0708))])
    );
}

#[test]
fn truncated_values_are_too_short() {
    let samples: Vec<Vec<u8>> = vec![
        encode(&1000u64),
        encode(&"hello"),
        encode(&vec![vec![1u32, 70000], vec![]]),
        vec![0x9f, 0x01, 0x9f, 0x02, 0xff, 0xff],
        vec![0xbf, 0x61, b'k', 0xc2, 0x41, 0x00, 0xff],
        encode(&Float::F64(1)),
        encode(&(i64::MIN, "z")),
    ];
    for full in samples {
        let len = full.len();
        assert_eq!(CBOR(&full[..]).visit(&mut NullVisitor), Ok(len));
        for m in 0..len {
            let cut = &full[..m];
            assert_eq!(CBOR(cut).visit(&mut NullVisitor), Err(Error::TooShort));
            assert_eq!(CBOR(cut).size(), Err(Error::TooShort));
        }
    }
}

#[test]
fn navigation_agrees_with_visit() {
    let samples: Vec<Vec<u8>> = vec![
        vec![0x9f, 0x82, 0x01, 0xa1, 0x61, b'k', 0x9f, 0xff, 0xc6, 0x40, 0xff, 0x00],
        vec![0xbf, 0x01, 0x9f, 0x02, 0xff, 0xff],
        encode(&vec![(1u8, "a"), (2u8, "bc")]),
        vec![0xd8, 0x20, 0x78, 0x01, b'u'],
    ];
    for s in samples {
        let visited = CBOR(&s[..]).visit(&mut NullVisitor);
        assert!(visited.is_ok());
        assert_eq!(CBOR(&s[..]).size(), visited);
    }
}

#[test]
fn deep_nesting_is_refused() {
    let mut deep = vec![0x81u8; 300];
    deep.push(0x00);
    assert_eq!(CBOR(&deep[..]).visit(&mut NullVisitor), Err(Error::TooDeep));
    assert_eq!(CBOR(&deep[..]).size(), Err(Error::TooDeep));
    let mut fine = vec![0x81u8; 100];
    fine.push(0x00);
    assert_eq!(CBOR(&fine[..]).size(), Ok(101));
}

#[test]
fn visitor_errors_stop_the_visit() {
    let bytes = encode(&vec![1u8, 2]);
    assert_eq!(CBOR(&bytes[..]).visit(&mut RefuseIntegers), Err(Error::FormatError));
    let text = encode(&"no numbers");
    assert_eq!(CBOR(&text[..]).visit(&mut RefuseIntegers), Ok(text.len()));
}

#[test]
fn kinds_follow_the_first_byte() {
    let cases: [(u8, Kind); 16] = [
        (0x00, Kind::Integer),
        (0x3b, Kind::Integer),
        (0x1f, Kind::Invalid),
        (0x40, Kind::Bytes),
        (0x5f, Kind::Invalid),
        (0x60, Kind::String),
        (0x9f, Kind::Array),
        (0xbf, Kind::Mapping),
        (0xc2, Kind::BigNumber),
        (0xd8, Kind::Tag),
        (0xf4, Kind::Bool),
        (0xf6, Kind::Null),
        (0xf7, Kind::Undefined),
        (0xf8, Kind::Simple),
        (0xfb, Kind::Float),
        (0xfc, Kind::Invalid),
    ];
    for (b, k) in cases {
        assert_eq!(CBOR(&[b][..]).kind(), k);
    }
    assert_eq!(CBOR(&[][..]).kind(), Kind::Invalid);
}

#[test]
fn map_lookup_and_array_index() {
    let map = [
        0xa3u8, 0x01, 0x02, 0x61, b'a', 0x83, 0x01, 0x02, 0x03, 0x62, b'b', b'c', 0xf5,
    ];
    let c = CBOR(&map[..]);
    assert_eq!(c.get("a").map(|v| v.0), Some(&[0x83u8, 0x01, 0x02, 0x03][..]));
    assert_eq!(c.get("bc").map(|v| v.0), Some(&[0xf5u8][..]));
    assert!(c.get("b").is_none());
    assert!(c.get("zz").is_none());
    assert!(CBOR(&[0x80u8][..]).get("a").is_none());

    let arr = [0x83u8, 0x61, b'x', 0x19, 0x03, 0xe8, 0xf6];
    let c = CBOR(&arr[..]);
    assert_eq!(c.index(0).map(|v| v.0), Some(&[0x61u8, b'x'][..]));
    assert_eq!(c.index(1).map(|v| v.0), Some(&[0x19u8, 0x03, 0xe8][..]));
    assert_eq!(c.index(2).map(|v| v.0), Some(&[0xf6u8][..]));
    assert!(c.index(3).is_none());
    assert!(CBOR(&[0x9fu8, 0x01, 0xff][..]).index(0).is_none());
    assert!(CBOR(&map[..]).index(0).is_none());
}

#[test]
fn element_iterator_walks_children() {
    let arr = [0x9fu8, 0x01, 0x82, 0x02, 0x03, 0x61, b'z', 0xff, 0x07];
    let mut it = cbordb::CBORIter::new(CBOR(&arr[1..]), None);
    assert_eq!(it.next().map(|c| c.0), Some(&[0x01u8][..]));
    assert_eq!(it.next().map(|c| c.0), Some(&[0x82u8, 0x02, 0x03][..]));
    assert_eq!(it.next().map(|c| c.0), Some(&[0x61u8, b'z'][..]));
    assert!(it.next().is_none());
    assert_eq!(it.cbor.0, &[0xffu8, 0x07][..]);

    let mut counted = cbordb::CBORIter::new(CBOR(&arr[1..]), Some(2));
    assert!(counted.next().is_some());
    assert!(counted.next().is_some());
    assert!(counted.next().is_none());
    assert_eq!(counted.items, Some(0));
}

#[test]
fn array_elements_read_back_in_order() {
    let items: Vec<i32> = vec![7, -300, i32::MIN, 70000];
    let bytes = encode(&items);
    let c = CBOR(&bytes[..]);
    for (i, v) in items.iter().enumerate() {
        let child = c.index(i).unwrap();
        assert_eq!(child.0, &encode(v)[..]);
        let mut cur: &[u8] = child.0;
        assert_eq!(i32::decode(&mut cur), Ok(*v));
        assert!(cur.is_empty());
    }
    assert!(c.index(items.len()).is_none());
}

#[test]
fn event_log_keeps_every_callback() {
    let bytes = [0x9fu8, 0x61, b'k', 0x3b, 0xff, 0xff, 0xff, 0xff, 0xff, 0xff, 0xff, 0xff, 0xff];
    let mut log = cbordb::EventLog::new();
    assert_eq!(CBOR(&bytes[..]).visit(&mut log), Ok(13));
    assert_eq!(
        log.events,
        vec![
            cbordb::Event::ArrayStart(None),
            cbordb::Event::Text("k"),
            cbordb::Event::ArraySeparator,
            cbordb::Event::Integer(-18446744073709551616),
            cbordb::Event::ArrayEnd,
        ]
    );
    assert_eq!(CBOR(&bytes[..12]).visit(&mut cbordb::EventLog::new()), Err(Error::TooShort));
    let mut log = cbordb::EventLog::new();
    assert_eq!(CBOR(&[0xffu8][..]).visit(&mut log), Err(Error::InvalidCode));
    assert!(log.events.is_empty());
    let mut log = cbordb::EventLog::new();
    assert_eq!(CBOR(&[0x62u8, 0xc3, 0x28][..]).visit(&mut log), Err(Error::NonUTF8String));
    assert!(log.events.is_empty());
}
