use torrent_meta::bencode::{bencode_bytes, bencode_int, bencode_string, bencode_uint, Bencode, BencodeError};

#[test]
fn integers_are_written_in_decimal() {
    assert_eq!(bencode_uint(0), b"i0e".to_vec());
    assert_eq!(bencode_uint(65536), b"i65536e".to_vec());
    assert_eq!(bencode_int(-42), b"i-42e".to_vec());
}

#[test]
fn strings_carry_their_length() {
    assert_eq!(bencode_string("spam"), b"4:spam".to_vec());
    assert_eq!(bencode_bytes(&[]), b"0:".to_vec());
}

#[test]
fn decode_reads_nested_values() {
    let value = Bencode::decode(b"d3:bari-7e3:fool4:spami3eee").unwrap();
    assert_eq!(
        value,
        Bencode::Dict(vec![
            (b"bar".to_vec(), Bencode::Int(-7)),
            (b"foo".to_vec(), Bencode::List(vec![Bencode::Bytes(b"spam".to_vec()), Bencode::Int(3)])),
        ])
    );
    assert_eq!(value.encode().unwrap(), b"d3:bari-7e3:fool4:spami3eee".to_vec());
}

#[test]
fn decode_names_each_error() {
    assert_eq!(Bencode::decode(b"i12"), Err(BencodeError::Truncated));
    assert_eq!(Bencode::decode(b"i012e"), Err(BencodeError::BadInteger));
    assert_eq!(Bencode::decode(b"i-0e"), Err(BencodeError::BadInteger));
    assert_eq!(Bencode::decode(b"3x:abc"), Err(BencodeError::BadLength));
    assert_eq!(Bencode::decode(b"x"), Err(BencodeError::UnknownToken));
    assert_eq!(Bencode::decode(b"5:abc"), Err(BencodeError::Truncated));
}

#[test]
fn the_strict_encoder_refuses_unordered_keys() {
    let unordered = Bencode::Dict(vec![
        (b"b".to_vec(), Bencode::Int(1)),
        (b"a".to_vec(), Bencode::Int(2)),
    ]);
    assert_eq!(unordered.encode(), Err(BencodeError::UnorderedKeys));
    assert!(!unordered.is_canonical());
    let twice = Bencode::Dict(vec![(b"a".to_vec(), Bencode::Int(1)), (b"a".to_vec(), Bencode::Int(2))]);
    assert_eq!(twice.encode(), Err(BencodeError::UnorderedKeys));
    let nested = Bencode::List(vec![Bencode::Dict(vec![
        (b"a".to_vec(), Bencode::Int(1)),
        (b"ab".to_vec(), Bencode::Dict(vec![])),
        (b"b".to_vec(), Bencode::Bytes(vec![0xff, 0x00])),
    ])]);
    let bytes = nested.encode().unwrap();
    assert_eq!(bytes, b"ld1:ai1e2:abde1:b2:\xff\x00ee".to_vec());
    assert_eq!(Bencode::decode(&bytes), Ok(nested));
    let mut out = b"x".to_vec();
    unordered.write_to(&mut out);
    assert_eq!(out, b"xd1:bi1e1:ai2ee".to_vec());
    assert_eq!(Bencode::decode(&out[1..]), Ok(unordered));
}

#[test]
fn every_integer_of_128_bits_round_trips() {
    for i in [0i128, 1, -1, 9, 10, -10, i64::MAX as i128, i64::MIN as i128, u64::MAX as i128, i128::MAX, i128::MIN] {
        let bytes = Bencode::Int(i).encode().unwrap();
        assert_eq!(bytes, format!("i{}e", i).into_bytes());
        assert_eq!(Bencode::decode(&bytes), Ok(Bencode::Int(i)));
    }
    assert_eq!(Bencode::decode(b"i170141183460469231731687303715884105728e"), Err(BencodeError::BadInteger));
    assert_eq!(Bencode::decode(b"i-170141183460469231731687303715884105729e"), Err(BencodeError::BadInteger));
    assert_eq!(Bencode::decode(b"ie"), Err(BencodeError::BadInteger));
    assert_eq!(Bencode::decode(b"i-e"), Err(BencodeError::BadInteger));
    assert_eq!(Bencode::decode(b"i1x"), Err(BencodeError::BadInteger));
    assert_eq!(Bencode::decode(b"i"), Err(BencodeError::Truncated));
    assert_eq!(Bencode::decode(b"i-"), Err(BencodeError::Truncated));
}

#[test]
fn the_decoder_stops_behind_the_value() {
    let data = b"4:spami7exyz";
    let mut pos: usize = 0;
    assert_eq!(torrent_meta::bencode::parse_bencode(data, &mut pos), Ok(Bencode::Bytes(b"spam".to_vec())));
    assert_eq!(pos, 6);
    assert_eq!(torrent_meta::bencode::parse_bencode(data, &mut pos), Ok(Bencode::Int(7)));
    assert_eq!(pos, 9);
    assert_eq!(torrent_meta::bencode::parse_bencode(data, &mut pos), Err(BencodeError::UnknownToken));
    assert_eq!(pos, 9);
    pos = 50;
    assert_eq!(torrent_meta::bencode::parse_bencode(data, &mut pos), Err(BencodeError::Truncated));
    assert_eq!(Bencode::decode(b"03:abc"), Ok(Bencode::Bytes(b"abc".to_vec())));
    assert_eq!(Bencode::decode(b"99999999999999999999999999999999999999999999:a"), Err(BencodeError::Truncated));
    assert_eq!(Bencode::decode(b"l"), Err(BencodeError::Truncated));
    assert_eq!(Bencode::decode(b"d1:a"), Err(BencodeError::Truncated));
    assert_eq!(Bencode::decode(b"d1:ai1e"), Err(BencodeError::Truncated));
}

#[test]
fn a_lookup_finds_the_last_entry_of_a_key() {
    let entries = vec![
        (b"k".to_vec(), Bencode::Int(1)),
        (b"other".to_vec(), Bencode::Int(2)),
        (b"k".to_vec(), Bencode::Int(3)),
    ];
    assert_eq!(torrent_meta::bencode::dict_find(&entries, "k"), Some(&Bencode::Int(3)));
    assert_eq!(torrent_meta::bencode::dict_find(&entries, "other"), Some(&Bencode::Int(2)));
    assert_eq!(torrent_meta::bencode::dict_find(&entries, "none"), None);
    assert!(torrent_meta::bencode::bytes_less(b"a", b"ab"));
    assert!(torrent_meta::bencode::bytes_less(b"ab", b"b"));
    assert!(!torrent_meta::bencode::bytes_less(b"b", b"b"));
    assert!(torrent_meta::bencode::bytes_equal(b"b", b"b"));
    assert!(!torrent_meta::bencode::bytes_equal(b"b", b"bb"));
}
