use minibpe::regex::tokenizer_with_presplit;

// GPT4_SPLIT_PATTERN = r"""'(?i:[sdmt]|ll|ve|re)|[^\r\n\p{L}\p{N}]?+\p{L}+|\p{N}{1,3}| ?[^\s\p{L}\p{N}]++[\r\n]*|\s*[\r\n]|\s+(?!\S)|\s+"""
const GPT4_SPLIT_PATTERN: &str = r"'(?i:[sdmt]|ll|ve|re)|[^\r\n\p{L}\p{N}]?+\p{L}+|\p{N}{1,3}| ?[^\s\p{L}\p{N}]++[\r\n]*|\s*[\r\n]|\s+(?!\S)|\s+";

#[test]
fn regex_it_works() {
    let tok = tokenizer_with_presplit("foo bar'nt! fo.", 256 + 5, GPT4_SPLIT_PATTERN).unwrap();
    assert_eq!(tok.encode("fo").len(), 1);
}

#[test]
fn gpt4_split_pattern() {
    let re = fancy_regex::Regex::new(GPT4_SPLIT_PATTERN).unwrap();
    assert_eq!(
        re.find_iter("foo bar'nt!")
            .map(|m| m.unwrap().as_str())
            .collect::<Vec<_>>(),
        vec!["foo", " bar", "'nt", "!"],
    );
}
