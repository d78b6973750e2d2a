use bencode::sha1_str_as_str;

#[test]
fn sha1_returns_example() {
    let result = sha1_str_as_str("The quick brown fox jumps over the lazy dog");

    assert_eq!("2fd4e1c67a2d28fced849ee1bb76e7391b93eb12", result);
}

#[test]
fn sha1_returns_example2() {
    let result = sha1_str_as_str("The quick brown fox jumps over the lazy cog");

    assert_eq!("de9f2c7fd25e1b3afad3e85a0bd17d9b100db4b3", result);
}

#[test]
fn sha1_returns_example3() {
    let result = sha1_str_as_str("");

    assert_eq!("da39a3ee5e6b4b0d3255bfef95601890afd80709", result);
}

#[test]
fn sha1_handles_block_boundaries() {
    let mut sha = bencode::Sha1::new();
    sha.update_str("aaaaaaaaaaaaaaaaaaaaaaaaaaaaaaaa");
    sha.update_str("aaaaaaaaaaaaaaaaaaaaaaaaaaaaaaaaa");
    let result = sha.hex_digest();

    assert_eq!("11655326c708d70319be2610e8a57d9a5b959d3b", result);
}
