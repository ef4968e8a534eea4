use tunnel_reactor::{derive_secret, secret_of_digest, to_hex, Server, SECRET_LEN};

#[test]
fn derive_secret_is_the_front_of_the_digest() {
    let secret = derive_secret("abc");
    assert_eq!(
        secret,
        vec![
            0xba, 0x78, 0x16, 0xbf, 0x8f, 0x01, 0xcf, 0xea, 0x41, 0x41, 0x40, 0xde, 0x5d, 0xae,
            0x22, 0x23
        ]
    );
}

#[test]
fn derive_secret_of_the_empty_seed() {
    let secret = derive_secret("");
    assert_eq!(to_hex(&secret), "e3b0c44298fc1c149afbf4c8996fb924");
}

#[test]
fn derive_secret_has_sixteen_bytes() {
    assert_eq!(SECRET_LEN, 16);
    assert_eq!(derive_secret("same-seed").len(), 16);
    assert_eq!(derive_secret("a much longer seed than sixteen bytes, to be sure").len(), 16);
}

#[test]
fn derive_secret_is_deterministic() {
    let first = derive_secret("same-seed");
    let second = derive_secret("same-seed");
    assert_eq!(first, second);
    assert_eq!(to_hex(&first), to_hex(&second));
    assert_eq!(Server::new("same-seed").secret(), Server::new("same-seed").secret());
}

#[test]
fn derive_secret_differs_for_distinct_seeds() {
    let corpus = ["seed-a", "seed-b", "", "seed", "Seed-a", "seed-a ", "seed-\u{e9}"];
    for (i, a) in corpus.iter().enumerate() {
        for (j, b) in corpus.iter().enumerate() {
            if i != j {
                assert_ne!(derive_secret(a), derive_secret(b));
                assert_ne!(Server::new(a).secret(), Server::new(b).secret());
            }
        }
    }
}

#[test]
fn derive_secret_reads_the_seed_as_utf8() {
    // "é" is the two bytes c3 a9.
    let secret = derive_secret("\u{e9}");
    assert_ne!(secret, derive_secret("e"));
    assert_eq!(secret.len(), 16);
}

#[test]
fn to_hex_writes_two_lowercase_digits_for_each_byte() {
    assert_eq!(to_hex(&vec![0x00, 0x0f, 0xa0, 0xff]), "000fa0ff");
    assert_eq!(to_hex(&vec![0x12, 0xab, 0xcd, 0xef]), "12abcdef");
    assert_eq!(to_hex(&vec![0x09, 0x0a]), "090a");
}

#[test]
fn to_hex_of_nothing_is_empty() {
    assert_eq!(to_hex(&Vec::new()), "");
}

#[test]
fn server_secret_is_the_hex_of_the_derived_secret() {
    let server = Server::new("abc");
    assert_eq!(server.secret(), "ba7816bf8f01cfea414140de5dae2223");
    assert_eq!(server.secret_bytes(), &derive_secret("abc"));
    assert_eq!(server.secret().len(), 32);
}

#[test]
fn server_with_secret_shows_the_bytes_it_was_given() {
    let server = Server::with_secret(vec![0xde, 0xad, 0xbe, 0xef], 4);
    assert_eq!(server.secret(), "deadbeef");
}

#[test]
fn secret_of_digest_keeps_the_first_sixteen_bytes() {
    let digest: Vec<u8> = (1..=32).collect();
    assert_eq!(secret_of_digest(digest), (1..=16).collect::<Vec<u8>>());
}

#[test]
fn secret_of_digest_keeps_a_short_digest_whole() {
    assert_eq!(secret_of_digest(vec![9, 8, 7]), vec![9, 8, 7]);
    assert_eq!(secret_of_digest((1..=16).collect()), (1..=16).collect::<Vec<u8>>());
    assert_eq!(secret_of_digest(Vec::new()), Vec::<u8>::new());
}
