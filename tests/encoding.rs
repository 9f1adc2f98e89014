use std::collections::VecDeque;
use lightning::util::ser::{BigSize, Writeable};
use fedimint_core::bytes::{
    consensus_decode_bytes_from_finite_reader, consensus_decode_bytes_static_from_finite_reader,
    consensus_encode_bytes, consensus_encode_bytes_static, read_bytes_from_finite_reader,
};
use fedimint_core::dlc::{DlcConsensusItem, DlcInputError, DlcOutputError, UnknownDlcInputVariantError};
use fedimint_core::codec::{consensus_decode_whole, consensus_encode_to_vec};
use fedimint_core::encoding::{read_bigsize, write_bigsize, Codec, DecodeError};
use fedimint_core::collections::{decode_result, encode_result};
use fedimint_core::maps::{OrderedMap, OrderedSet};
use fedimint_core::time::{Duration, SystemTime};

fn round_trip<T: Codec + PartialEq + std::fmt::Debug>(value: &T) {
    let bytes = consensus_encode_to_vec(value);
    let back: T = consensus_decode_whole(&bytes).expect("decodes");
    assert_eq!(&back, value);
}

#[test]
fn vec_decode_sanity() {
    let buf = [
        0xffu8, 0xff, 0xff, 0xff, 0xff, 0xff, 0xff, 0xff, 0, 0, 0, 0, 0, 0, 0, 0, 0, 0, 0, 0, 0,
        0,
    ];

    // On malicious large len, return an error instead of panicking.
    assert!(consensus_decode_whole::<Vec<u8>>(&buf).is_err());
    assert!(consensus_decode_whole::<Vec<u16>>(&buf).is_err());
}

#[test]
fn vec_deque_decode_sanity() {
    let buf = [
        0xffu8, 0xff, 0xff, 0xff, 0xff, 0xff, 0xff, 0xff, 0, 0, 0, 0, 0, 0, 0, 0, 0, 0, 0, 0, 0,
        0,
    ];

    // On malicious large len, return an error instead of panicking.
    assert!(consensus_decode_whole::<VecDeque<u8>>(&buf).is_err());
    assert!(consensus_decode_whole::<VecDeque<u16>>(&buf).is_err());
}

#[test]
fn vec_deque_round_trip_keeps_order() {
    let deque: VecDeque<u32> = VecDeque::from(vec![3, 1, 2]);
    let bytes = consensus_encode_to_vec(&deque);
    assert_eq!(bytes, consensus_encode_to_vec(&vec![3u32, 1, 2]));
    round_trip(&deque);
}

#[test]
fn declared_length_beyond_input_is_short_read() {
    let mut buf = vec![0xffu8; 9];
    buf.extend_from_slice(&[0u8; 8]);
    assert_eq!(
        consensus_decode_bytes_from_finite_reader(&buf, 0).unwrap_err(),
        DecodeError::ShortRead
    );
    assert_eq!(
        consensus_decode_whole::<Vec<u8>>(&buf).unwrap_err(),
        DecodeError::ShortRead
    );
}

#[test]
fn bigsize_forms() {
    let cases: [(u64, &[u8]); 7] = [
        (0, &[0x00]),
        (0xfc, &[0xfc]),
        (0xfd, &[0xfd, 0x00, 0xfd]),
        (0xffff, &[0xfd, 0xff, 0xff]),
        (0x10000, &[0xfe, 0x00, 0x01, 0x00, 0x00]),
        (0xffff_ffff, &[0xfe, 0xff, 0xff, 0xff, 0xff]),
        (
            0x1_0000_0000,
            &[0xff, 0x00, 0x00, 0x00, 0x01, 0x00, 0x00, 0x00, 0x00],
        ),
    ];
    for (value, bytes) in cases {
        let mut out = Vec::new();
        write_bigsize(&mut out, value);
        assert_eq!(out, bytes.to_vec());
        assert_eq!(read_bigsize(bytes, 0), Ok((value, bytes.len())));
    }
}

#[test]
fn bigsize_rejects_longer_form_than_needed() {
    assert_eq!(
        read_bigsize(&[0xfd, 0x00, 0xfc], 0),
        Err(DecodeError::NonCanonicalInteger)
    );
    assert_eq!(
        read_bigsize(&[0xfe, 0x00, 0x00, 0xff, 0xff], 0),
        Err(DecodeError::NonCanonicalInteger)
    );
    assert_eq!(
        read_bigsize(&[0xff, 0, 0, 0, 0, 0xff, 0xff, 0xff, 0xff], 0),
        Err(DecodeError::NonCanonicalInteger)
    );
    assert_eq!(read_bigsize(&[0xfd, 0x01], 0), Err(DecodeError::ShortRead));
}

#[test]
fn narrow_integers_reject_wider_values() {
    let bytes = consensus_encode_to_vec(&0x1_0000u64);
    assert_eq!(
        consensus_decode_whole::<u16>(&bytes),
        Err(DecodeError::IntegerOverflow)
    );
    let bytes = consensus_encode_to_vec(&0x1_0000_0000u64);
    assert_eq!(
        consensus_decode_whole::<u32>(&bytes),
        Err(DecodeError::IntegerOverflow)
    );
    assert_eq!(consensus_decode_whole::<u32>(&consensus_encode_to_vec(&7u64)), Ok(7u32));
}

#[test]
fn primitive_round_trips() {
    round_trip(&0u8);
    round_trip(&255u8);
    round_trip(&0xfdu16);
    round_trip(&u32::MAX);
    round_trip(&u64::MAX);
    round_trip(&true);
    round_trip(&false);
    round_trip(&"hello".to_string());
    round_trip(&String::new());
    round_trip(&vec![1u64, 0xfd, 0x1_0000_0000]);
    round_trip(&Some(5u32));
    round_trip(&None::<u32>);
    round_trip(&(3u16, vec![true, false]));
    round_trip(&Box::new(42u64));
    round_trip(&[7u8; 32]);
}

#[test]
fn bool_and_option_reject_other_flags() {
    assert_eq!(consensus_decode_whole::<bool>(&[2]), Err(DecodeError::InvalidFlag));
    assert_eq!(
        consensus_decode_whole::<Option<u8>>(&[2, 0]),
        Err(DecodeError::InvalidFlag)
    );
    assert_eq!(consensus_decode_whole::<Option<u8>>(&[1, 9]), Ok(Some(9)));
}

#[test]
fn trailing_bytes_are_refused() {
    assert_eq!(
        consensus_decode_whole::<u8>(&[1, 2]),
        Err(DecodeError::TrailingBytes)
    );
}

#[test]
fn string_rejects_invalid_utf8() {
    assert_eq!(
        consensus_decode_whole::<String>(&[2, 0xc3, 0x28]),
        Err(DecodeError::InvalidUtf8)
    );
    let bytes = consensus_encode_to_vec(&"é".to_string());
    assert_eq!(bytes, vec![2, 0xc3, 0xa9]);
}

#[test]
fn byte_buffer_encoding_is_length_then_bytes() {
    let mut out = Vec::new();
    consensus_encode_bytes(&[9, 8, 7], &mut out);
    assert_eq!(out, vec![3, 9, 8, 7]);
    assert_eq!(
        consensus_decode_bytes_from_finite_reader(&out, 0),
        Ok((vec![9, 8, 7], 4))
    );
}

#[test]
fn read_bytes_pulls_in_chunks() {
    let input: Vec<u8> = (0..10).collect();
    assert_eq!(
        read_bytes_from_finite_reader(&input, 2, 7, 3),
        Ok(((2..9).collect::<Vec<u8>>(), 9))
    );
    assert_eq!(
        read_bytes_from_finite_reader(&input, 2, 9, 3),
        Err(DecodeError::ShortRead)
    );
}

#[test]
fn static_bytes_have_no_length_prefix() {
    let mut out = Vec::new();
    consensus_encode_bytes_static(&[1u8, 2, 3], &mut out);
    assert_eq!(out, vec![1, 2, 3]);
    assert_eq!(
        consensus_decode_bytes_static_from_finite_reader::<3>(&out, 0),
        Ok(([1, 2, 3], 3))
    );
    assert_eq!(
        consensus_decode_bytes_static_from_finite_reader::<4>(&out, 0),
        Err(DecodeError::ShortRead)
    );
}

#[test]
fn ordered_map_round_trip() {
    let map = OrderedMap::from_entries(vec![(1u32, 1u32), (2u32, 2u32)]).expect("ascending");
    let bytes = consensus_encode_to_vec(&map);
    assert_eq!(bytes, vec![2, 1, 1, 2, 2]);
    let back: OrderedMap<u32, u32> = consensus_decode_whole(&bytes).expect("decodes");
    assert_eq!(back.entries(), map.entries());
}

#[test]
fn map_rejects_keys_out_of_order() {
    // two entries, keys 2 then 1
    assert_eq!(
        consensus_decode_whole::<OrderedMap<u32, u32>>(&[2, 2, 0, 1, 0]).err(),
        Some(DecodeError::UnsortedKeys)
    );
}

#[test]
fn map_rejects_duplicate_keys() {
    assert_eq!(
        consensus_decode_whole::<OrderedMap<u32, u32>>(&[2, 1, 0, 1, 0]).err(),
        Some(DecodeError::DuplicateKey)
    );
}

#[test]
fn ordered_map_requires_ascending_keys() {
    assert!(OrderedMap::from_entries(vec![(2u8, 0u8), (1u8, 0u8)]).is_none());
    assert!(OrderedMap::from_entries(vec![(1u8, 0u8), (1u8, 0u8)]).is_none());
    assert!(OrderedMap::<u8, u8>::from_entries(vec![]).is_some());
}

#[test]
fn test_systemtime() {
    let t = SystemTime::from_epoch_offset(Duration::new(1_700_000_000, 123_456_789).unwrap())
        .unwrap();
    round_trip(&t);
    round_trip(&Duration::from_millis(10));
}

#[test]
fn time_rejects_unrepresentable_values() {
    // secs = 1, nanos = 1_000_000_000
    let bytes = consensus_encode_to_vec(&(1u64, 1_000_000_000u32));
    assert_eq!(
        consensus_decode_whole::<Duration>(&bytes),
        Err(DecodeError::InvalidNanos)
    );
    let bytes = consensus_encode_to_vec(&(u64::MAX, 0u32));
    assert_eq!(
        consensus_decode_whole::<SystemTime>(&bytes),
        Err(DecodeError::TimeOverflow)
    );
}

#[test]
fn decode_error_messages() {
    assert_eq!(DecodeError::UnsortedKeys.message(), "non-canonical encoding: keys out of order");
    assert_eq!(DecodeError::ShortRead.message(), "unexpected end of input");
}

#[test]
fn unknown_consensus_item_kind_is_kept_as_raw_bytes() {
    let item = DlcConsensusItem::Default { variant: 9, bytes: vec![1, 2, 3] };
    let bytes = consensus_encode_to_vec(&item);
    assert_eq!(bytes, vec![9, 3, 1, 2, 3]);
    assert_eq!(consensus_decode_whole::<DlcConsensusItem>(&bytes), Ok(item));
    let vote = DlcConsensusItem::BlockCountVote(0xfd);
    let bytes = consensus_encode_to_vec(&vote);
    assert_eq!(bytes, vec![0, 3, 0xfd, 0x00, 0xfd]);
    assert_eq!(consensus_decode_whole::<DlcConsensusItem>(&bytes), Ok(vote));
    // a known kind whose fields do not decode is refused
    assert!(consensus_decode_whole::<DlcConsensusItem>(&[1, 0]).is_err());
}

#[test]
fn dlc_errors_round_trip() {
    round_trip(&DlcInputError::UnknownInputVariant(UnknownDlcInputVariantError { variant: 77 }));
    round_trip(&DlcInputError::InvalidForfeitSignature);
    round_trip(&DlcOutputError::ContractAlreadyExists);
    assert_eq!(consensus_encode_to_vec(&DlcInputError::Expired), vec![3, 0]);
    assert_eq!(
        consensus_decode_whole::<DlcOutputError>(&[9, 0]),
        Err(DecodeError::InvalidFlag)
    );
    assert_eq!(
        consensus_decode_whole::<DlcOutputError>(&[1, 1, 0]),
        Err(DecodeError::TrailingBytes)
    );
    assert_eq!(DlcInputError::Expired.message(), "The contracts locktime has passed");
}

#[test]
fn ordered_set_round_trip_and_rejections() {
    let set = OrderedSet::from_keys(vec![1u64, 0xfd, 0x1_0000]).expect("ascending");
    let bytes = consensus_encode_to_vec(&set);
    assert_eq!(bytes, vec![3, 1, 0xfd, 0x00, 0xfd, 0xfe, 0x00, 0x01, 0x00, 0x00]);
    let back: OrderedSet<u64> = consensus_decode_whole(&bytes).expect("decodes");
    assert_eq!(back.keys(), set.keys());
    assert_eq!(
        consensus_decode_whole::<OrderedSet<u8>>(&[2, 5, 4]).err(),
        Some(DecodeError::UnsortedKeys)
    );
    assert_eq!(
        consensus_decode_whole::<OrderedSet<u8>>(&[2, 5, 5]).err(),
        Some(DecodeError::DuplicateKey)
    );
    assert!(OrderedSet::from_keys(vec![3u16, 3u16]).is_none());
}

#[test]
fn result_encoding_uses_flag_byte() {
    let mut out = Vec::new();
    encode_result::<u64, bool>(&Ok(5), &mut out);
    encode_result::<u64, bool>(&Err(true), &mut out);
    assert_eq!(out, vec![1, 5, 0, 1]);
    assert_eq!(decode_result::<u64, bool>(&out, 0), Ok((Ok(5), 2)));
    assert_eq!(decode_result::<u64, bool>(&out, 2), Ok((Err(true), 4)));
    assert_eq!(
        decode_result::<u64, bool>(&[2, 0], 0),
        Err(DecodeError::InvalidFlag)
    );
}

#[test]
fn bigsize_matches_lightning_encoding() {
    for value in [0u64, 0xfc, 0xfd, 0xffff, 0x1_0000, 0xffff_ffff, 0x1_0000_0000, u64::MAX] {
        let mut ours = Vec::new();
        write_bigsize(&mut ours, value);
        assert_eq!(ours, BigSize(value).encode());
    }
}

#[test]
fn routing_fees_round_trip() {
    let fees = fedimint_core::routing_fees::RoutingFees { base_msat: 1000, proportional_millionths: 0xfd };
    let bytes = consensus_encode_to_vec(&fees);
    assert_eq!(bytes, vec![0xfd, 0x03, 0xe8, 0xfd, 0x00, 0xfd]);
    round_trip(&fees);
}

#[test]
fn bolt11_invoice_roundtrip() {
    let invoice_str = "lnbc100p1psj9jhxdqud3jxktt5w46x7unfv9kz6mn0v3jsnp4q0d3p2sfluzdx45tqcs\
			h2pu5qc7lgq0xs578ngs6s0s68ua4h7cvspp5q6rmq35js88zp5dvwrv9m459tnk2zunwj5jalqtyxqulh0l\
			5gflssp5nf55ny5gcrfl30xuhzj3nphgj27rstekmr9fw3ny5989s300gyus9qyysgqcqpcrzjqw2sxwe993\
			h5pcm4dxzpvttgza8zhkqxpgffcrf5v25nwpr3cmfg7z54kuqq8rgqqqqqqqq2qqqqq9qq9qrzjqd0ylaqcl\
			j9424x9m8h2vcukcgnm6s56xfgu3j78zyqzhgs4hlpzvznlugqq9vsqqqqqqqlgqqqqqeqq9qrzjqwldmj9d\
			ha74df76zhx6l9we0vjdquygcdt3kssupehe64g6yyp5yz5rhuqqwccqqyqqqqlgqqqqjcqq9qrzjqf9e58a\
			guqr0rcun0ajlvmzq3ek63cw2w282gv3z5uupmuwvgjtq2z55qsqqg6qqqyqqqrtnqqqzq3cqygrzjqvphms\
			ywntrrhqjcraumvc4y6r8v4z5v593trte429v4hredj7ms5z52usqq9ngqqqqqqqlgqqqqqqgq9qrzjq2v0v\
			p62g49p7569ev48cmulecsxe59lvaw3wlxm7r982zxa9zzj7z5l0cqqxusqqyqqqqlgqqqqqzsqygarl9fh3\
			8s0gyuxjjgux34w75dnc6xp2l35j7es3jd4ugt3lu0xzre26yg5m7ke54n2d5sym4xcmxtl8238xxvw5h5h5\
			j5r6drg6k6zcqj0fcwg";
    let invoice = invoice_str
        .parse::<lightning_invoice::Bolt11Invoice>()
        .unwrap();
    let bytes = consensus_encode_to_vec(&invoice.to_string());
    let text: String = consensus_decode_whole(&bytes).unwrap();
    assert_eq!(text.parse::<lightning_invoice::Bolt11Invoice>().unwrap(), invoice);
}

#[test]
fn test_btreemap() {
    let map = OrderedMap::from_entries(vec![("a".to_string(), 1u32), ("b".to_string(), 2)])
        .expect("ascending");
    let bytes = consensus_encode_to_vec(&map);
    assert_eq!(bytes, vec![0x02, 0x01, 0x61, 0x01, 0x01, 0x62, 0x02]);
    let back: OrderedMap<String, u32> = consensus_decode_whole(&bytes).expect("decodes");
    assert_eq!(back.entries(), map.entries());
}

#[test]
fn test_btreeset() {
    let set = OrderedSet::from_keys(vec!["a".to_string(), "b".to_string()]).expect("ascending");
    let bytes = consensus_encode_to_vec(&set);
    assert_eq!(bytes, vec![0x02, 0x01, 0x61, 0x01, 0x62]);
    let back: OrderedSet<String> = consensus_decode_whole(&bytes).expect("decodes");
    assert_eq!(back.keys(), set.keys());
}

#[test]
fn string_keyed_map_rejects_descending_and_repeated_keys() {
    assert_eq!(
        consensus_decode_whole::<OrderedMap<String, u32>>(&[0x02, 0x01, 0x62, 0x02, 0x01, 0x61, 0x01]).err(),
        Some(DecodeError::UnsortedKeys)
    );
    assert_eq!(
        consensus_decode_whole::<OrderedMap<String, u32>>(&[0x02, 0x01, 0x61, 0x01, 0x01, 0x61, 0x02]).err(),
        Some(DecodeError::DuplicateKey)
    );
    assert!(OrderedMap::from_entries(vec![("b".to_string(), 1u32), ("a".to_string(), 2)]).is_none());
}

#[test]
fn string_keyed_set_rejects_descending_and_repeated_keys() {
    assert_eq!(
        consensus_decode_whole::<OrderedSet<String>>(&[0x02, 0x01, 0x62, 0x01, 0x61]).err(),
        Some(DecodeError::UnsortedKeys)
    );
    assert_eq!(
        consensus_decode_whole::<OrderedSet<String>>(&[0x02, 0x01, 0x61, 0x01, 0x61]).err(),
        Some(DecodeError::DuplicateKey)
    );
    // a proper prefix sorts first; order follows the UTF-8 bytes
    assert!(OrderedSet::from_keys(vec!["a".to_string(), "ab".to_string(), "é".to_string()]).is_some());
    assert!(OrderedSet::from_keys(vec!["é".to_string(), "z".to_string()]).is_none());
}
