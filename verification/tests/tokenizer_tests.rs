use vec101::tokenizer::TrieTokenizer;

#[test]
fn components_test_trie_tokenizer() {
    let mut tokenizer = TrieTokenizer::new(0);
    tokenizer.add_token(b"Hello", 1);
    tokenizer.add_token(b"World", 2);
    tokenizer.add_token(b" ", 3);

    let encoded = tokenizer.encode("Hello World");
    assert_eq!(encoded, vec![1, 3, 2]);

    let decoded = tokenizer.decode(&encoded);
    assert_eq!(decoded, "Hello World");

    // Test unknown token
    let encoded_unk = tokenizer.encode("XYZ");
    assert_eq!(encoded_unk, vec![0, 0, 0]); // 3 bytes, 3 unk tokens
}

#[test]
fn test_empty_tokenizer() {
    let tokenizer = TrieTokenizer::new(0);
    assert_eq!(tokenizer.encode("test"), vec![0, 0, 0, 0]);
}

#[test]
fn tokenizer_prefers_longest_match() {
    let mut t = TrieTokenizer::new(9);
    t.add_token(b"a", 1);
    t.add_token(b"ab", 2);
    t.add_token(b"abc", 3);
    assert_eq!(t.encode("abcab"), vec![3, 2]);
    assert_eq!(t.encode("abd"), vec![2, 9]);
    assert_eq!(t.encode(""), Vec::<u32>::new());
}

#[test]
fn tokenizer_falls_back_to_shorter_word() {
    let mut t = TrieTokenizer::new(0);
    t.add_token(b"ab", 5);
    t.add_token(b"abcd", 6);
    // "abc" has no word of length 3; the longest word starting at 0 is "ab".
    assert_eq!(t.encode("abcx"), vec![5, 0, 0]);
}

#[test]
fn tokenizer_roundtrip_when_covered() {
    let mut t = TrieTokenizer::new(0);
    for (i, w) in ["the", " ", "cat", "sat", "on", "mat", "t", "h", "e"].iter().enumerate() {
        t.add_token(w.as_bytes(), (i + 1) as u32);
    }
    let text = "the cat sat on the mat";
    let ids = t.encode(text);
    assert_eq!(t.decode(&ids), text);
}

#[test]
fn tokenizer_vocab_size_and_readd() {
    let mut t = TrieTokenizer::new(0);
    assert_eq!(t.vocab_size, 0);
    t.add_token(b"x", 7);
    assert_eq!(t.vocab_size, 8);
    t.add_token(b"y", 3);
    assert_eq!(t.vocab_size, 8);
    // Adding a word again gives it the new id.
    t.add_token(b"x", 4);
    assert_eq!(t.encode("xy"), vec![4, 3]);
    assert_eq!(t.unk_token, 0);
}

#[test]
fn tokenizer_decode_skips_unknown_ids_and_replaces_invalid_utf8() {
    let mut t = TrieTokenizer::new(0);
    t.add_token(b"ok", 1);
    t.add_token(&[0xff], 2);
    assert_eq!(t.decode(&[1, 42, 1]), "okok");
    assert_eq!(t.decode(&[2]), "\u{fffd}");
}

#[test]
fn test_trie_tokenizer() {
    let mut tokenizer = TrieTokenizer::new(0);
    tokenizer.add_token(b"Hello", 1);
    tokenizer.add_token(b"World", 2);
    tokenizer.add_token(b" ", 3);

    let encoded = tokenizer.encode("Hello World");
    assert_eq!(encoded, vec![1, 3, 2]);

    let decoded = tokenizer.decode(&encoded);
    assert_eq!(decoded, "Hello World");

    let encoded_unk = tokenizer.encode("XYZ");
    assert_eq!(encoded_unk, vec![0, 0, 0]);
}

#[test]
fn added_text_encodes_to_its_id_and_back() {
    let mut t = TrieTokenizer::new(7);
    t.add_token(b"ab", 3);
    t.add_token("héllo wörld".as_bytes(), 41);
    assert_eq!(t.encode("héllo wörld"), vec![41]);
    assert_eq!(t.decode(&[41]), "héllo wörld");
    assert_eq!(t.decode(&[3]), "ab");
    assert_eq!(t.get_vocab_size(), 42);
    assert_eq!(t.get_unk_token(), 7);
    t.add_token(b"x", 5);
    assert_eq!(t.get_vocab_size(), 42);
}
