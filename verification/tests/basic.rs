use minibpe::basic::{create_vocab_from_merges, BasicTokenizer, TrainError};
use minibpe::utils::{get_stats, get_top_pair, merge};

/// Picks, among the adjacent pairs present in `tokens`, the one whose merge
/// rule carries the smallest id.
fn min_id_pair(merges: &[((u32, u32), u32)], tokens: &[u32]) -> Option<(u32, u32)> {
    let stats = get_stats(tokens);
    let mut best: Option<(u32, u32)> = None;
    let mut best_id = 0u32;
    for &(pair, _) in stats.iter() {
        if let Some(&(_, id)) = merges.iter().find(|&&(p, _)| p == pair) {
            if best.is_none() || id < best_id {
                best = Some(pair);
                best_id = id;
            }
        }
    }
    best
}

#[test]
fn basic_it_works() {
    let tok = BasicTokenizer::train("abc", 256 + 2).unwrap();
    let tokens = tok.encode("abc");
    assert_eq!(tokens, vec![257]);
    assert_eq!(tok.decode(&tokens), "abc");
}

#[test]
fn no_merge_error() {
    assert_eq!(
        BasicTokenizer::train("", 256 + 1),
        Err(TrainError::NotEnoughPairs)
    );
    assert_eq!(
        BasicTokenizer::train("a", 256 + 1),
        Err(TrainError::NotEnoughPairs)
    );
    assert_eq!(
        BasicTokenizer::train("ab", 256 + 2),
        Err(TrainError::NotEnoughPairs)
    );
}

#[test]
fn vocab_creation() {
    let merges = vec![((1, 2), 256), ((256, 3), 257)];

    let mut vocab: Vec<Vec<u8>> = Vec::new();
    // insert "trivial" items
    for idx in 0..256u32 {
        vocab.push(vec![idx as u8]);
    }
    // insert rules induced by merges
    vocab.push(vec![1, 2]);
    vocab.push(vec![1, 2, 3]);
    assert_eq!(create_vocab_from_merges(&merges), vocab);
}

#[test]
fn preserve_characters() {
    // create a tokenizer without any merges
    let notok = BasicTokenizer::default();
    let text = "foo bar baz åð";
    let ids1 = notok.encode(text);
    let ids2: Vec<u32> = text.as_bytes().iter().map(|c| *c as u32).collect();
    assert_eq!(ids1, ids2);
}

#[test]
fn encode_loop() {
    let ids = [1, 1, 2, 3];
    let merges = vec![((1, 2), 98), ((98, 3), 99)];

    let mut tokens = Vec::from(ids);
    while let Some(pair) = min_id_pair(&merges, &tokens) {
        let idx = merges
            .iter()
            .find(|&&(p, _)| p == pair)
            .map(|&(_, id)| id)
            .expect("we should find and index to the merge");
        tokens = merge(&tokens, pair, idx);
    }

    assert_eq!(tokens, vec![1, 99]);
}

#[test]
fn find_merge() {
    let ids = [1, 1, 2, 3];
    let merges = vec![((1, 2), 98), ((98, 3), 99)];

    let stats = get_stats(&ids);
    assert_eq!(stats, vec![((1, 1), 1), ((1, 2), 1), ((2, 3), 1)]);

    let pair = min_id_pair(&merges, &ids);
    assert!(
        pair.is_some(),
        "there should be at least one merge-able pair"
    );
    let pair = pair.unwrap();

    let idx = merges
        .iter()
        .find(|&&(p, _)| p == pair)
        .map(|&(_, id)| id)
        .expect("we should find 98");
    assert_eq!(idx, 98);
}

#[test]
fn replace_top_pair() {
    let ids = [1, 2, 3, 1, 2, 1, 1, 2];

    // extract the top-pair
    let stats = get_stats(&ids);
    let top_pair = get_top_pair(&stats);
    let top_pair = top_pair.expect("there should be a top-pair in sequence of length > 1");
    assert_eq!(top_pair, ((1, 2), 3));

    // replace top-pair with a new token
    assert_eq!(merge(&ids, top_pair.0, 4), vec![4, 3, 4, 1, 4]);
}

#[test]
fn merges() {
    let empty: [u32; 0] = [];
    assert_eq!(merge(&empty, (1, 2), 3), Vec::<u32>::new());
    assert_eq!(merge(&[1, 2, 2, 3], (1, 2), 4), vec![4, 2, 3]);
    assert_eq!(merge(&[1, 2, 2, 2, 3], (2, 2), 4), vec![1, 4, 2, 3])
}

#[test]
fn counts() {
    let empty: [u32; 0] = [];
    assert_eq!(get_stats(&empty), Vec::<((u32, u32), usize)>::new());
    assert_eq!(
        get_stats(&[1, 2, 2, 2, 3]),
        vec![((1, 2), 1), ((2, 2), 2), ((2, 3), 1)],
    );
}
