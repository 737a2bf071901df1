use router::decoder::stream::decode_fixed;
use router::decoder::stream::Advance;
use router::decoder::stream::Error;
use router::decoder::stream::Stream;
use router::decoder::ArraySplitDecoder;
use router::decoder::SplitDecoder;
use router::SplitDecoder as RootSplitDecoder;
use router::StreamDecoder;
use router::StreamError;

const TAKE: usize = 2;

#[test]
fn decoder_ref() {
    let source: Vec<u8> = vec![1, 2, 3, 4, 5, 6, 7, 8, 9, 0];

    let mut decoder = Stream::new(SplitDecoder::<TAKE>, 1024);
    let mut cursor: usize = 0;

    let mut chunks = source.chunks_exact(TAKE);

    loop {
        if let Some(chunk) = chunks.next() {
            assert_eq!(decoder.next_item(&source, &mut cursor).unwrap(), chunk);
        } else {
            assert!(matches!(
                decoder.next_item(&source, &mut cursor),
                Err(Error::ConnectionClosed)
            ));
            break;
        }
    }
}

#[test]
fn decoder_own() {
    let source: Vec<u8> = vec![1, 2, 3, 4, 5, 6, 7, 8, 9, 0];

    let mut decoder = Stream::new(ArraySplitDecoder::<TAKE>, 1024);
    let mut cursor: usize = 0;

    let mut chunks = source.chunks_exact(TAKE);

    loop {
        if let Some(chunk) = chunks.next() {
            assert_eq!(decoder.next_item(&source, &mut cursor).unwrap(), chunk);
        } else {
            assert!(matches!(
                decoder.next_item(&source, &mut cursor),
                Err(Error::ConnectionClosed)
            ));
            break;
        }
    }
}

#[test]
fn stream_decoder() {
    let source: Vec<u8> = vec![1, 2, 3, 4, 5, 6, 7, 8, 9, 0];

    let mut decoder = StreamDecoder::new(RootSplitDecoder::<TAKE>, 1024);
    let mut cursor: usize = 0;

    let mut chunks = source.chunks_exact(TAKE);

    loop {
        if let Some(chunk) = chunks.next() {
            assert_eq!(decoder.next_item(&source, &mut cursor).unwrap(), chunk);
        } else {
            assert!(matches!(
                decoder.next_item(&source, &mut cursor),
                Err(StreamError::ConnectionClosed)
            ));
            break;
        }
    }
}

#[test]
fn fixed_chunks_scenario() {
    let source: Vec<u8> = vec![1, 2, 3, 4, 5, 6, 7, 8, 9, 0];
    let mut decoder = Stream::new(SplitDecoder::<2>, 1024);
    let mut cursor: usize = 0;

    assert_eq!(decoder.next_item(&source, &mut cursor).unwrap(), vec![1, 2]);
    assert_eq!(decoder.next_item(&source, &mut cursor).unwrap(), vec![3, 4]);
    assert_eq!(decoder.next_item(&source, &mut cursor).unwrap(), vec![5, 6]);
    assert_eq!(decoder.next_item(&source, &mut cursor).unwrap(), vec![7, 8]);
    assert_eq!(decoder.next_item(&source, &mut cursor).unwrap(), vec![9, 0]);
    assert!(matches!(
        decoder.next_item(&source, &mut cursor),
        Err(Error::ConnectionClosed)
    ));
}

#[test]
fn compaction_with_one_byte_of_slack() {
    // Capacity is one item's size plus a single byte of slack: decoding can
    // proceed only through compaction, never through extra room.
    let source: Vec<u8> = vec![1, 2, 3, 4, 5, 6, 7, 8, 9, 0];
    let mut decoder = Stream::new(SplitDecoder::<2>, 3);
    let mut cursor: usize = 0;

    for chunk in source.chunks_exact(2) {
        assert_eq!(decoder.next_item(&source, &mut cursor).unwrap(), chunk);
    }
    assert!(matches!(
        decoder.next_item(&source, &mut cursor),
        Err(Error::ConnectionClosed)
    ));
}

#[test]
fn shift_reclaims_consumed_prefix() {
    let mut decoder = Stream::new(SplitDecoder::<2>, 4);
    assert_eq!(decoder.tail(), 4);
    assert_eq!(decoder.free(), 4);

    decoder.fill(&[1, 2, 3, 4]).unwrap();
    assert_eq!(decoder.tail(), 0);
    assert_eq!(decoder.free(), 0);

    match decoder.advance() {
        Ok(Advance::Item(item)) => assert_eq!(item, vec![1, 2]),
        _ => panic!("a complete item was buffered"),
    }
    assert_eq!(decoder.tail(), 0);
    assert_eq!(decoder.free(), 2);

    decoder.shift();
    assert_eq!(decoder.tail(), 2);
    assert_eq!(decoder.free(), 2);
}

#[test]
fn overflow_when_capacity_below_item_size() {
    let source: Vec<u8> = vec![1, 2, 3, 4];
    let mut decoder = Stream::new(SplitDecoder::<2>, 1);
    let mut cursor: usize = 0;

    assert!(matches!(
        decoder.next_item(&source, &mut cursor),
        Err(Error::Overflow)
    ));
}

#[test]
fn zero_byte_read_is_connection_closed() {
    let mut decoder = Stream::new(SplitDecoder::<2>, 8);
    assert!(matches!(decoder.fill(&[]), Err(Error::ConnectionClosed)));

    // The source ends while one byte of an item is still pending: a hard
    // error, never a silently-empty or partial item.
    let source: Vec<u8> = vec![7];
    let mut cursor: usize = 0;
    assert!(matches!(
        decoder.next_item(&source, &mut cursor),
        Err(Error::ConnectionClosed)
    ));
}

#[test]
fn decode_fixed_recovers_all_chunks() {
    let source: Vec<u8> = vec![1, 2, 3, 4, 5, 6, 7, 8, 9, 0];
    let (items, end) = decode_fixed::<2>(&source, 1024);
    assert_eq!(
        items,
        vec![vec![1, 2], vec![3, 4], vec![5, 6], vec![7, 8], vec![9, 0]]
    );
    assert!(matches!(end, Error::ConnectionClosed));

    let (items, end) = decode_fixed::<4>(&[1, 2, 3, 4, 5, 6], 4);
    assert_eq!(items, vec![vec![1, 2, 3, 4]]);
    assert!(matches!(end, Error::ConnectionClosed));
}

#[test]
fn decode_fixed_overflow_and_starved() {
    let (items, end) = decode_fixed::<2>(&[1, 2, 3, 4], 1);
    assert!(items.is_empty());
    assert!(matches!(end, Error::Overflow));

    let (items, end) = decode_fixed::<8>(&[1, 2], 4);
    assert!(items.is_empty());
    assert!(matches!(end, Error::ConnectionClosed));
}
