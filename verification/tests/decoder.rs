use router::decoder::decode_twice;
use router::decoder::ArraySplitDecoder;
use router::decoder::Decoder;
use router::decoder::Error;
use router::decoder::SplitDecoder;

#[test]
fn split_decoder_exact_chunk() {
    let mut decoder = SplitDecoder::<2>;
    let (item, consumed) = decoder.decode(&[1, 2, 3]).unwrap();
    assert_eq!(item, vec![1, 2]);
    assert_eq!(consumed, 2);
}

#[test]
fn split_decoder_incomplete_hint() {
    let mut decoder = SplitDecoder::<4>;
    assert!(matches!(decoder.decode(&[7]), Err(Error::Incomplete(Some(3)))));
    assert!(matches!(decoder.decode(&[]), Err(Error::Incomplete(Some(4)))));
}

#[test]
fn array_split_decoder_exact_chunk() {
    let mut decoder = ArraySplitDecoder::<2>;
    let (item, consumed) = decoder.decode(&[5, 6, 7]).unwrap();
    assert_eq!(item, [5, 6]);
    assert_eq!(consumed, 2);
    assert!(matches!(decoder.decode(&[9]), Err(Error::Incomplete(Some(1)))));
}

#[test]
fn check_and_is_needed_follow_decode() {
    let mut decoder = SplitDecoder::<2>;
    assert!(decoder.check(&[1, 2]).is_ok());
    assert!(matches!(decoder.check(&[1]), Err(Error::Incomplete(Some(1)))));
    assert!(!decoder.is_needed(&[1, 2]));
    assert!(decoder.is_needed(&[1]));
}

#[test]
fn decode_twice_agrees_on_success() {
    let mut decoder = SplitDecoder::<2>;
    let (first, second) = decode_twice(&mut decoder, &[1, 2, 3]);
    let (item1, n1) = first.unwrap();
    let (item2, n2) = second.unwrap();
    assert_eq!(item1, item2);
    assert_eq!(n1, n2);
}

#[test]
fn decode_twice_agrees_on_incomplete() {
    let mut decoder = SplitDecoder::<2>;
    let (first, second) = decode_twice(&mut decoder, &[9]);
    assert!(matches!(first, Err(Error::Incomplete(Some(1)))));
    assert!(matches!(second, Err(Error::Incomplete(Some(1)))));
}
