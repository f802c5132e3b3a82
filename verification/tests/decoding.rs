use lwe::keys::secret::Secret;
use lwe::Error;

fn make_secret(key: [i32; 16], modulo: i32) -> Secret {
    let mut bytes = Vec::new();
    for k in key.iter() {
        bytes.extend_from_slice(&k.to_le_bytes());
    }
    let add = modulo / 1114111;
    bytes.extend_from_slice(&modulo.to_le_bytes());
    bytes.extend_from_slice(&add.to_le_bytes());
    bytes.extend_from_slice(&16i32.to_le_bytes());
    let s = Secret::from_bytes(bytes).unwrap();
    assert!(s.well_formed());
    s
}

fn chunk_bytes(words: [i32; 17]) -> Vec<u8> {
    let mut out = Vec::new();
    for w in words.iter() {
        out.extend_from_slice(&w.to_le_bytes());
    }
    out
}

#[test]
fn invalid_chunk_length_is_rejected() {
    let secret = Secret::new();
    // 70 bytes is not a whole number of 68-byte chunks
    assert!(matches!(
        secret.decrypt_bytes(&vec![0u8; 70]),
        Err(Error::InvalidLength)
    ));
    // nor is a whole number of words that does not fill chunks of 17
    assert!(matches!(
        secret.decrypt_bytes(&vec![0u8; 64]),
        Err(Error::InvalidLength)
    ));
    // a single truncated word
    assert!(matches!(
        secret.decrypt_bytes(&vec![0u8; 3]),
        Err(Error::InvalidLength)
    ));
}

#[test]
fn invalid_length_reported_through_base64_path() {
    let secret = Secret::new();
    // "AAAA" is valid base64 for three zero bytes: too short for a chunk
    assert!(matches!(secret.decrypt("AAAA"), Err(Error::InvalidLength)));
    // text that is not base64 at all fails earlier, as a transport error
    assert!(matches!(
        secret.decrypt("!! not base64 !!"),
        Err(Error::InvalidBase64)
    ));
}

#[test]
fn known_chunk_decodes_exactly() {
    // with a zero secret vector the decoded value is round(last / add)
    let modulo = 33423330; // add = 30
    let secret = make_secret([0; 16], modulo);
    assert_eq!(secret.add, 30);
    let mut words = [0i32; 17];
    words[16] = 65 * 30 + 3; // noise below add/2 rounds away
    let out = secret.decrypt_bytes(&chunk_bytes(words)).unwrap();
    assert_eq!(out, "A");
    // rounding is to nearest: 14 of 30 rounds down, 15 rounds up
    words[16] = 66 * 30 - 15;
    let out = secret.decrypt_bytes(&chunk_bytes(words)).unwrap();
    assert_eq!(out, "B");
}

#[test]
fn surrogate_scalar_is_rejected() {
    // a chunk decoding to 0xD800, a surrogate, is not a character
    let modulo = 33423330; // add = 30
    let secret = make_secret([0; 16], modulo);
    let mut words = [0i32; 17];
    words[16] = 0xD800 * 30;
    assert!(matches!(
        secret.decrypt_bytes(&chunk_bytes(words)),
        Err(Error::InvalidChar)
    ));
}

#[test]
fn decryption_uses_the_secret_vector() {
    // a nonzero secret must cancel the masking words: if the dot product
    // were ignored the decoded value would differ
    let modulo = 33423330; // add = 30
    let secret = make_secret([1, 0, 0, 0, 0, 0, 0, 0, 0, 0, 0, 0, 0, 0, 0, 0], modulo);
    let mut words = [0i32; 17];
    words[0] = 1200; // contributes 1200 to the inner product
    words[16] = 1200 + 72 * 30; // folded character 72 ('H') on top of it
    let out = secret.decrypt_bytes(&chunk_bytes(words)).unwrap();
    assert_eq!(out, "H");
}

#[test]
fn empty_bytes_decrypt_to_empty_string() {
    let secret = Secret::new();
    assert_eq!(secret.decrypt_bytes(&Vec::new()).unwrap(), String::new());
}
