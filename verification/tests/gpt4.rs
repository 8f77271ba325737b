use minibpe::gpt4::{invert_mapping, Gpt4Tokenizer};

fn identity_map() -> Vec<(u8, u8)> {
    let mut res = Vec::new();
    for i in 0..255 {
        res.push((i, i));
    }
    res
}

fn swap(map: &mut Vec<(u8, u8)>, a: u8, b: u8) {
    for entry in map.iter_mut() {
        if entry.0 == a {
            entry.1 = b;
        } else if entry.0 == b {
            entry.1 = a;
        }
    }
}

#[test]
fn shuffle_encode_decode() {
    let mut byte_shuffle = identity_map();
    // switch code points for a,b and c,d
    swap(&mut byte_shuffle, 97, 98);
    swap(&mut byte_shuffle, 99, 100);

    // create a tokenizer that does not do anything but flip two bytes
    let dummy_tok = Gpt4Tokenizer::from_merges_and_shuffles(&Vec::new(), &byte_shuffle);

    assert_eq!(dummy_tok.decode(&vec![98, 97, 100, 99, 101]), "abcde");
    assert_eq!(dummy_tok.encode("abcde"), vec![98, 97, 100, 99, 101]);
}

#[test]
fn create_inverse_mapping() {
    assert_eq!(
        invert_mapping(&vec![(1, 2), (3, 4), (5, 6)]),
        vec![(2, 1), (4, 3), (6, 5)],
    );
}
