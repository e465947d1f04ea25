use influence_maximization::records::{
    parse_edge_record, parse_i8, parse_rating_record, parse_u64, render_edge_ids, split_fields_of,
    RecordError,
};

#[test]
fn parse_u64_accepts_plain_and_plus_signed_digits() {
    assert_eq!(parse_u64(b"0"), Some(0));
    assert_eq!(parse_u64(b"007"), Some(7));
    assert_eq!(parse_u64(b"+42"), Some(42));
    assert_eq!(parse_u64(b"18446744073709551615"), Some(u64::MAX));
}

#[test]
fn parse_u64_refuses_what_from_str_refuses() {
    assert_eq!(parse_u64(b""), None);
    assert_eq!(parse_u64(b"+"), None);
    assert_eq!(parse_u64(b"-1"), None);
    assert_eq!(parse_u64(b"1 "), None);
    assert_eq!(parse_u64(b"12a"), None);
    assert_eq!(parse_u64(b"18446744073709551616"), None);
    assert_eq!(parse_u64(b"99999999999999999999999"), None);
}

#[test]
fn parse_u64_agrees_with_std() {
    let samples: [&str; 10] = ["0", "1", "+9", "-0", "", "+", "123456789", "4294967296", "x1", "18446744073709551616"];
    for s in samples.iter() {
        assert_eq!(parse_u64(s.as_bytes()), s.parse::<u64>().ok(), "input {:?}", s);
    }
}

#[test]
fn parse_i8_covers_the_signed_range() {
    assert_eq!(parse_i8(b"-128"), Some(-128));
    assert_eq!(parse_i8(b"127"), Some(127));
    assert_eq!(parse_i8(b"+5"), Some(5));
    assert_eq!(parse_i8(b"-0"), Some(0));
    assert_eq!(parse_i8(b"128"), None);
    assert_eq!(parse_i8(b"-129"), None);
    assert_eq!(parse_i8(b"-"), None);
    assert_eq!(parse_i8(b""), None);
    assert_eq!(parse_i8(b"+-1"), None);
}

#[test]
fn parse_i8_agrees_with_std() {
    let samples: [&str; 11] = ["-1", "1", "6", "-128", "127", "128", "-129", "+", "-", "--1", "0x1"];
    for s in samples.iter() {
        assert_eq!(parse_i8(s.as_bytes()), s.parse::<i8>().ok(), "input {:?}", s);
    }
}

#[test]
fn split_fields_matches_str_split() {
    let samples: [&str; 6] = ["", ",", "a,b", "1,2,3,4", ",,x,", "no commas"];
    for s in samples.iter() {
        let ours: Vec<Vec<u8>> = split_fields_of(s.as_bytes());
        let theirs: Vec<Vec<u8>> = s.split(",").map(|f| f.as_bytes().to_vec()).collect();
        assert_eq!(ours, theirs, "input {:?}", s);
    }
}

#[test]
fn edge_record_reads_ids_and_raw_weight() {
    let r = parse_edge_record(b"12,34,0.75").unwrap();
    assert_eq!(r, (12, 34, b"0.75".to_vec()));
    let r = parse_edge_record(b"1,2,-1,extra").unwrap();
    assert_eq!(r, (1, 2, b"-1".to_vec()));
}

#[test]
fn edge_record_reports_each_error() {
    assert_eq!(parse_edge_record(b"x,2,3"), Err(RecordError::Malformed(0)));
    assert_eq!(parse_edge_record(b"x"), Err(RecordError::Malformed(0)));
    assert_eq!(parse_edge_record(b"1"), Err(RecordError::Missing(1)));
    assert_eq!(parse_edge_record(b"1,y,3"), Err(RecordError::Malformed(1)));
    assert_eq!(parse_edge_record(b"1,2"), Err(RecordError::Missing(2)));
    assert_eq!(parse_edge_record(b""), Err(RecordError::Malformed(0)));
}

#[test]
fn rating_record_reads_a_small_signed_third_field() {
    assert_eq!(parse_rating_record(b"5,6,-1"), Ok((5, 6, -1)));
    assert_eq!(parse_rating_record(b"5,6,1000"), Err(RecordError::Malformed(2)));
    assert_eq!(parse_rating_record(b"5,6,0.5"), Err(RecordError::Malformed(2)));
    assert_eq!(parse_rating_record(b"5,6"), Err(RecordError::Missing(2)));
}

#[test]
fn rendered_ids_are_decimal() {
    assert_eq!(render_edge_ids(0, 7), b"0,7,".to_vec());
    assert_eq!(render_edge_ids(1234, u64::MAX), b"1234,18446744073709551615,".to_vec());
}

#[test]
fn written_record_reads_back() {
    let pairs: [(u64, u64); 4] = [(0, 0), (9, 10), (123456, 7), (u64::MAX, 1)];
    for (u, v) in pairs.iter() {
        let mut line = render_edge_ids(*u, *v);
        line.extend_from_slice(b"-0.4621172");
        let (ru, rv, w) = parse_edge_record(&line).unwrap();
        assert_eq!((ru, rv), (*u, *v));
        assert_eq!(w, b"-0.4621172".to_vec());
    }
}
