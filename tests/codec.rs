use lazer::codec::{decode_line, encode_line, next_field, parse_i64, split_fields, DecodeError, LaserCodec, Reading};
use lazer::logger::session_file_name;

fn reading(vals: [i64; 8]) -> Reading {
    Reading {
        reference: vals[0],
        measured: vals[1],
        total_displacement: vals[2],
        velocity: vals[3],
        zero: vals[4],
        sequence_num: vals[5],
        code: vals[6],
        data: vals[7],
        displacement: 0,
    }
}

fn drain(codec: &mut LaserCodec, out: &mut Vec<Result<Reading, DecodeError>>) {
    loop {
        match codec.decode() {
            Ok(Some(r)) => out.push(Ok(r)),
            Ok(None) => return,
            Err(e) => out.push(Err(e)),
        }
    }
}

#[test]
fn decodes_scenario_line() {
    let mut codec = LaserCodec::new();
    codec.feed(b"10 20 0 5 0 1 0 0\n");
    let r = codec.decode().unwrap().unwrap();
    assert_eq!(r, reading([10, 20, 0, 5, 0, 1, 0, 0]));
    assert_eq!(r.reference, 10);
    assert_eq!(r.measured, 20);
    assert_eq!(r.velocity, 5);
    assert_eq!(r.sequence_num, 1);
    assert_eq!(r.total_displacement, 0);
    assert_eq!(codec.decode(), Ok(None));
}

#[test]
fn bad_line_is_missing_field() {
    let mut codec = LaserCodec::new();
    codec.feed(b"bad line\n");
    assert_eq!(codec.decode(), Err(DecodeError::MissingField(2)));
    assert_eq!(codec.decode(), Ok(None));
}

#[test]
fn short_lines_are_missing_field() {
    assert_eq!(decode_line(b"\n"), Err(DecodeError::MissingField(0)));
    assert_eq!(decode_line(b"1 2 3 4 5 6 7\n"), Err(DecodeError::MissingField(7)));
    assert_eq!(decode_line(b"x y z w v u t\n"), Err(DecodeError::MissingField(7)));
}

#[test]
fn non_numeric_field_is_invalid() {
    for k in 0..8 {
        let mut toks: Vec<String> = (1..=8).map(|v| v.to_string()).collect();
        toks[k] = "abc".to_string();
        let line = format!("{}\n", toks.join(" "));
        assert_eq!(decode_line(line.as_bytes()), Err(DecodeError::InvalidField(k)));
    }
    assert_eq!(decode_line(b"1 2 3 4 5 6 7 99999999999999999999\n"), Err(DecodeError::InvalidField(7)));
    assert_eq!(decode_line(b"1 2 9223372036854775808 4 5 6 7 8"), Err(DecodeError::InvalidField(2)));
    assert_eq!(decode_line(b"1 x 3 1.5 5 6 7 8\n"), Err(DecodeError::InvalidField(1)));
}

#[test]
fn invalid_text_is_invalid_encoding() {
    assert_eq!(decode_line(&[0xff, 0xfe, b'\n']), Err(DecodeError::InvalidEncoding));
    let mut codec = LaserCodec::new();
    codec.feed(&[b'1', 0xc3, b' ', b'\n']);
    assert_eq!(codec.decode(), Err(DecodeError::InvalidEncoding));
}

#[test]
fn other_whitespace_and_extra_tokens() {
    assert_eq!(decode_line(b"  1\t2 3  4 5 6 7 8\r\n"), Ok(reading([1, 2, 3, 4, 5, 6, 7, 8])));
    assert_eq!(decode_line(b"1 2 3 4 5 6 7 8 extra\n"), Ok(reading([1, 2, 3, 4, 5, 6, 7, 8])));
    assert_eq!(decode_line(b"+1 -2 3 4 5 6 7 -0\n"), Ok(reading([1, -2, 3, 4, 5, 6, 7, 0])));
}

#[test]
fn partial_line_is_kept() {
    let mut codec = LaserCodec::new();
    codec.feed(b"1 2 3");
    assert_eq!(codec.decode(), Ok(None));
    codec.feed(b" 4 5 6 7 8");
    assert_eq!(codec.decode(), Ok(None));
    codec.feed(b"\n9");
    assert_eq!(codec.decode(), Ok(Some(reading([1, 2, 3, 4, 5, 6, 7, 8]))));
    assert_eq!(codec.decode(), Ok(None));
    codec.feed(b" 9 9 9 9 9 9 9\n");
    assert_eq!(codec.decode(), Ok(Some(reading([9; 8]))));
}

#[test]
fn chunk_boundaries_do_not_matter() {
    let stream: &[u8] = b"10 20 0 5 0 1 0 0\n-3 4 100 7 0 2 1 9\nbad\n1 2 3 4 5 6 7 8\n1 2";
    let mut whole = LaserCodec::new();
    whole.feed(stream);
    let mut expected = Vec::new();
    drain(&mut whole, &mut expected);
    assert_eq!(expected.len(), 4);
    for size in 1..stream.len() {
        let mut codec = LaserCodec::new();
        let mut got = Vec::new();
        for chunk in stream.chunks(size) {
            codec.feed(chunk);
            drain(&mut codec, &mut got);
        }
        assert_eq!(got, expected, "chunk size {}", size);
    }
}

#[test]
fn integer_tokens() {
    assert_eq!(parse_i64(b"0"), Some(0));
    assert_eq!(parse_i64(b"-0"), Some(0));
    assert_eq!(parse_i64(b"+17"), Some(17));
    assert_eq!(parse_i64(b"007"), Some(7));
    assert_eq!(parse_i64(b"9223372036854775807"), Some(i64::MAX));
    assert_eq!(parse_i64(b"9223372036854775808"), None);
    assert_eq!(parse_i64(b"-9223372036854775808"), Some(i64::MIN));
    assert_eq!(parse_i64(b"-9223372036854775809"), None);
    assert_eq!(parse_i64(b""), None);
    assert_eq!(parse_i64(b"-"), None);
    assert_eq!(parse_i64(b"+"), None);
    assert_eq!(parse_i64(b"+-1"), None);
    assert_eq!(parse_i64(b"1a"), None);
}

#[test]
fn fields_in_order() {
    let ts = split_fields(b" 5  x\t-6\n");
    assert_eq!(ts, vec![b"5".to_vec(), b"x".to_vec(), b"-6".to_vec()]);
    assert_eq!(next_field(&ts, 0), Ok(5));
    assert_eq!(next_field(&ts, 1), Err(DecodeError::InvalidField(1)));
    assert_eq!(next_field(&ts, 2), Ok(-6));
    assert_eq!(next_field(&ts, 3), Err(DecodeError::MissingField(3)));
    let ts = split_fields(b"42 x");
    assert_eq!(next_field(&ts, 0), Ok(42));
    assert_eq!(next_field(&ts, 1), Err(DecodeError::InvalidField(1)));
    assert_eq!(next_field(&ts, 2), Err(DecodeError::MissingField(2)));
}

#[test]
fn encode_then_decode_round_trips() {
    let samples = [
        reading([10, 20, 0, 5, 0, 1, 0, 0]),
        reading([i64::MIN, i64::MAX, -1, 1, -10, 10, 123456789, -987654321]),
    ];
    for r in samples {
        let line = encode_line(&r);
        assert_eq!(decode_line(&line), Ok(r));
    }
    assert_eq!(encode_line(&reading([10, 20, 0, 5, 0, 1, 0, 0])), b"10 20 0 5 0 1 0 0\n".to_vec());
    let scaled = Reading { displacement: 55, ..reading([1, 2, 3, 4, 5, 6, 7, 8]) };
    assert_eq!(decode_line(&encode_line(&scaled)), Ok(reading([1, 2, 3, 4, 5, 6, 7, 8])));
}

#[test]
fn decode_then_encode_keeps_fields() {
    let first = decode_line(b"+0010  -20\t30 40 50 60 70 80\n").unwrap();
    let again = decode_line(&encode_line(&first)).unwrap();
    assert_eq!(again, first);
    assert_eq!(encode_line(&first), b"10 -20 30 40 50 60 70 80\n".to_vec());
}

#[test]
fn session_file_names() {
    assert_eq!(session_file_name(1700000000), b"log-1700000000.csv".to_vec());
    assert_eq!(session_file_name(0), b"log-0.csv".to_vec());
    assert_eq!(session_file_name(u64::MAX), format!("log-{}.csv", u64::MAX).into_bytes());
}

#[test]
fn unicode_whitespace_separates_fields() {
    let line = "1\u{3000}2 3 4 5 6 7 8\n";
    assert_eq!(decode_line(line.as_bytes()), Ok(reading([1, 2, 3, 4, 5, 6, 7, 8])));
    assert_eq!(decode_line("x\u{3000}2 3 4 5 6 7 8\n".as_bytes()), Err(DecodeError::InvalidField(0)));
    let mut codec = LaserCodec::new();
    codec.feed("x\u{3000}2 3 4 5 6 7 8\n".as_bytes());
    assert_eq!(codec.decode(), Err(DecodeError::InvalidField(0)));
    assert_eq!(decode_line("1\u{a0}2\u{85}3\u{2009}4\u{205f}5\u{1680}6\u{2028}7\u{2029}8\u{202f}\n".as_bytes()),
        Ok(reading([1, 2, 3, 4, 5, 6, 7, 8])));
    assert_eq!(decode_line("1\u{e9} 2 3 4 5 6 7 8\n".as_bytes()), Err(DecodeError::InvalidField(0)));
    assert_eq!(decode_line("1\u{200b}2 3 4 5 6 7 8\n".as_bytes()), Err(DecodeError::MissingField(7)));
}

#[test]
fn splits_like_split_whitespace() {
    for c in (0u32..=0x3100).chain(0xfeff..=0xff00).filter_map(char::from_u32) {
        let line = format!("a{c}b{c}{c}\u{e9}c");
        let expected: Vec<Vec<u8>> = line.split_whitespace().map(|t| t.as_bytes().to_vec()).collect();
        assert_eq!(split_fields(line.as_bytes()), expected, "separator U+{:04X}", c as u32);
    }
}
