use lwe::keys::public::Public;
use lwe::keys::secret::Secret;
use lwe::Error;

fn make_secret_bytes(key: [i32; 16], modulo: i32, add: i32, dim: i32) -> Vec<u8> {
    let mut out = Vec::new();
    for k in key.iter() {
        out.extend_from_slice(&k.to_le_bytes());
    }
    out.extend_from_slice(&modulo.to_le_bytes());
    out.extend_from_slice(&add.to_le_bytes());
    out.extend_from_slice(&dim.to_le_bytes());
    out
}

#[test]
fn secret_bytes_round_trip() {
    let secret = Secret::new();
    let bytes = secret.to_bytes();
    assert_eq!(bytes.len(), 76);
    let back = Secret::from_bytes(bytes).unwrap();
    assert_eq!(back.key, secret.key);
    assert_eq!(back.modulo, secret.modulo);
    assert_eq!(back.add, secret.add);
    assert_eq!(back.dim, secret.dim);
}

#[test]
fn public_bytes_round_trip() {
    let secret = Secret::new();
    let public = secret.generate_public_key();
    let bytes = public.to_bytes();
    assert_eq!(bytes.len(), 11572);
    let back = Public::from_bytes(bytes).unwrap();
    assert_eq!(back.key, public.key);
    assert_eq!(back.modulo, public.modulo);
    assert_eq!(back.add, public.add);
    assert_eq!(back.dim, public.dim);
}

#[test]
fn secret_b64_round_trip() {
    let secret = Secret::new();
    let text = secret.to_b64();
    // 76 bytes of layout make 104 characters of padded base64; an encoder
    // that handed its input back unchanged could not meet this
    assert_eq!(text.len(), 104);
    let back = Secret::from_b64(text).unwrap();
    assert_eq!(back.key, secret.key);
    assert_eq!(back.modulo, secret.modulo);
    assert_eq!(back.add, secret.add);
    assert_eq!(back.dim, secret.dim);
}

#[test]
fn public_b64_round_trip() {
    let secret = Secret::new();
    let public = secret.generate_public_key();
    let back = Public::from_b64(public.to_b64()).unwrap();
    assert_eq!(back.key, public.key);
    assert_eq!(back.modulo, public.modulo);
}

#[test]
fn negative_entries_survive_serialization() {
    let bytes = make_secret_bytes(
        [-1, -4096, 4095, 0, 1, -2, 3, -4, 5, -6, 7, -8, 9, -10, 11, -12],
        11120640,
        9,
        16,
    );
    let s = Secret::from_bytes(bytes.clone()).unwrap();
    assert_eq!(s.key[0], -1);
    assert_eq!(s.key[1], -4096);
    assert_eq!(s.key[2], 4095);
    assert_eq!(s.modulo, 11120640);
    assert_eq!(s.add, 9);
    assert_eq!(s.dim, 16);
    assert_eq!(s.to_bytes(), bytes);
}

#[test]
fn wrong_length_is_rejected() {
    assert!(matches!(Secret::from_bytes(vec![0u8; 75]), Err(Error::InvalidLength)));
    assert!(matches!(Secret::from_bytes(vec![0u8; 77]), Err(Error::InvalidLength)));
    assert!(matches!(Secret::from_bytes(Vec::new()), Err(Error::InvalidLength)));
    assert!(matches!(Public::from_bytes(vec![0u8; 76]), Err(Error::InvalidLength)));
    assert!(matches!(Public::from_bytes(vec![0u8; 11571]), Err(Error::InvalidLength)));
}

#[test]
fn bad_base64_is_rejected() {
    assert!(matches!(
        Secret::from_b64("not base64 at all!!".to_string()),
        Err(Error::InvalidBase64)
    ));
    assert!(matches!(
        Public::from_b64("@@@@".to_string()),
        Err(Error::InvalidBase64)
    ));
}
