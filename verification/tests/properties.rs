use minibpe::basic::{create_vocab_from_merges, BasicTokenizer, TrainError};
use minibpe::gpt4::{invert_mapping, Gpt4Tokenizer};
use minibpe::regex::{get_stats_from_splits, tokenizer_with_presplit};

#[test]
fn round_trip_trained() {
    let text = "hello hello world";
    let tok = BasicTokenizer::train(text, 260).unwrap();
    let tokens = tok.encode(text);
    assert_eq!(tok.decode(&tokens), text);
}

#[test]
fn round_trip_unseen_text() {
    let tok = BasicTokenizer::train("banana bandana", 262).unwrap();
    let text = "a banana, not a bandana!";
    let tokens = tok.encode(text);
    assert_eq!(tok.decode(&tokens), text);
}

#[test]
fn vocab_order_independent() {
    let m1 = vec![((1, 2), 256), ((256, 3), 257), ((257, 257), 258)];
    let m2 = vec![((257, 257), 258), ((1, 2), 256), ((256, 3), 257)];
    assert_eq!(create_vocab_from_merges(&m1), create_vocab_from_merges(&m2));
}

#[test]
fn trained_ids_are_contiguous() {
    let tok = BasicTokenizer::train("abcabcabd", 260).unwrap();
    for (i, &(_, id)) in tok.merges.iter().enumerate() {
        assert_eq!(id, 256 + i as u32);
    }
    assert_eq!(tok.merges.len(), 4);
    assert_eq!(tok.vocab.len(), 260);
}

#[test]
fn decode_multibyte_utf8() {
    let tok = BasicTokenizer::default();
    let tokens: Vec<u32> = "åð".as_bytes().iter().map(|b| *b as u32).collect();
    assert_eq!(tok.decode(&tokens), "åð");
}

#[test]
fn decode_invalid_bytes_lossy() {
    let tok = BasicTokenizer::default();
    // 255 alone is never valid UTF-8: decoding degrades, it does not fail
    assert_eq!(tok.decode(&vec![255]), "\u{FFFD}");
}

#[test]
fn presplit_single_segment_matches_plain() {
    // a pattern matching the whole text as one segment: presplit training
    // coincides with plain training
    let pre = tokenizer_with_presplit("abcabc", 258, r"[\s\S]+").unwrap();
    let plain = BasicTokenizer::train("abcabc", 258).unwrap();
    assert_eq!(pre, plain);
}

#[test]
fn presplit_invalid_pattern() {
    let r = tokenizer_with_presplit("abc", 256, "(unclosed");
    assert_eq!(r, Err(TrainError::InvalidPattern));
}

#[test]
fn split_stats_do_not_cross_boundaries() {
    let splits = vec![vec![1, 2], vec![2, 3]];
    let stats = get_stats_from_splits(&splits);
    // the pair (2, 2) straddles the boundary and must not be counted
    assert_eq!(stats, vec![((1, 2), 1), ((2, 3), 1)]);
}

#[test]
fn presplit_prevents_boundary_merges() {
    // every segment is a single symbol, so no within-segment pair exists,
    // though the unsegmented text would offer pairs across the boundaries
    let r = tokenizer_with_presplit("a a a a", 257, r"\p{L}+|\s");
    assert_eq!(r, Err(TrainError::NotEnoughPairs));
}

#[test]
fn shuffle_inverse_maps_back() {
    let shuffle = vec![(0, 5), (5, 0), (7, 7)];
    let inv = invert_mapping(&shuffle);
    assert_eq!(inv, vec![(5, 0), (0, 5), (7, 7)]);
    for &(k, v) in shuffle.iter() {
        let back = inv.iter().find(|&&(a, _)| a == v).map(|&(_, b)| b).unwrap();
        assert_eq!(back, k);
    }
}

#[test]
fn shuffled_round_trip_matches_unshuffled() {
    // a full rotation of the byte alphabet
    let mut shuffle: Vec<(u8, u8)> = Vec::new();
    for i in 0..=255u8 {
        shuffle.push((i, i.wrapping_add(1)));
    }
    let gtok = Gpt4Tokenizer::from_merges_and_shuffles(&Vec::new(), &shuffle);
    let plain = BasicTokenizer::default();
    let text = "round trip";
    let shuffled_result = gtok.decode(&gtok.encode(text));
    let plain_result = plain.decode(&plain.encode(text));
    assert_eq!(shuffled_result, text);
    assert_eq!(shuffled_result, plain_result);
}

#[test]
fn stats_sum_over_segments() {
    let splits = vec![vec![1, 2, 2], vec![1, 2]];
    let stats = get_stats_from_splits(&splits);
    assert_eq!(stats, vec![((1, 2), 2), ((2, 2), 1)]);
}
