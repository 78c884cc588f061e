use track::codec::{decode, encode};
use track::error::FlatFileError;
use track::record::Timestamp;

const T0: u64 = 1_700_000_000;

#[test]
fn encode_produces_the_canonical_json_bytes() {
    let db = vec![Timestamp(T0, None, true)];
    assert_eq!(encode(&db), b"[[1700000000,null,true]]".to_vec());

    let db = vec![
        Timestamp(T0, Some(T0 + 60), false),
        Timestamp(T0 + 100, None, true),
    ];
    assert_eq!(
        encode(&db),
        b"[[1700000000,1700000060,false],[1700000100,null,true]]".to_vec()
    );
}

#[test]
fn encode_of_the_empty_sequence_is_an_empty_array() {
    let db: Vec<Timestamp> = Vec::new();
    assert_eq!(encode(&db), b"[]".to_vec());
}

#[test]
fn decode_inverts_encode() {
    let dbs: Vec<Vec<Timestamp>> = vec![
        vec![],
        vec![Timestamp(0, None, true)],
        vec![Timestamp(T0, Some(T0 + 120), false)],
        vec![
            Timestamp(T0, Some(T0 + 60), false),
            Timestamp(T0 + 100, Some(T0 + 130), false),
            Timestamp(T0 + 200, None, true),
        ],
        vec![Timestamp(u64::MAX, Some(u64::MAX), false)],
    ];
    for db in dbs {
        let bytes = encode(&db);
        assert_eq!(decode(&bytes).unwrap(), db);
    }
}

#[test]
fn empty_and_whitespace_only_files_are_the_empty_sequence() {
    assert_eq!(decode(b"").unwrap(), Vec::<Timestamp>::new());
    assert_eq!(decode(b" \t\r\n  \n").unwrap(), Vec::<Timestamp>::new());
}

#[test]
fn garbage_is_refused_with_a_parse_error() {
    for bad in [
        &b"not json"[..],
        b"[",
        b"]",
        b"[[1700000000,null,true]",
        b"[[1700000000,null]]",
        b"[[1700000000,null,maybe]]",
        b"[[,null,true]]",
        b"[[1700000000,null,true],]",
        b"[[1700000000,null,true]] ",
        b"{}",
    ] {
        assert_eq!(decode(bad).unwrap_err(), FlatFileError::JsonParseError);
    }
}

#[test]
fn leading_zeros_and_overflow_are_refused() {
    assert_eq!(
        decode(b"[[01,null,true]]").unwrap_err(),
        FlatFileError::JsonParseError
    );
    // u64::MAX itself is fine; one more is not.
    assert!(decode(b"[[18446744073709551615,null,true]]").is_ok());
    assert_eq!(
        decode(b"[[18446744073709551616,null,true]]").unwrap_err(),
        FlatFileError::JsonParseError
    );
}

#[test]
fn zero_is_a_valid_timestamp() {
    assert_eq!(
        decode(b"[[0,0,false]]").unwrap(),
        vec![Timestamp(0, Some(0), false)]
    );
}

#[test]
fn encoding_agrees_with_the_json_ecosystem() {
    // The wire shape is what a JSON serializer produces for a vector of
    // (u64, Option<u64>, bool) triples.
    let triples: Vec<(u64, Option<u64>, bool)> =
        vec![(T0, Some(T0 + 60), false), (T0 + 100, None, true)];
    let json = serde_json::to_string(&triples).unwrap();

    let db = vec![
        Timestamp(T0, Some(T0 + 60), false),
        Timestamp(T0 + 100, None, true),
    ];
    assert_eq!(encode(&db), json.into_bytes());

    // And what the library writes reads back through that serializer too.
    let bytes = encode(&db);
    let parsed: Vec<(u64, Option<u64>, bool)> =
        serde_json::from_str(std::str::from_utf8(&bytes).unwrap()).unwrap();
    assert_eq!(
        parsed,
        vec![(T0, Some(T0 + 60), false), (T0 + 100, None, true)]
    );
}
