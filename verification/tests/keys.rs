use lwe::keys::modulus;
use lwe::keys::public::Public;
use lwe::keys::secret::Secret;

#[test]
fn test_decryption() {
    let secret = Secret::new();
    let public = secret.generate_public_key();

    let message = "Hello World".to_string();

    let encrypted = public.encrypt(&message);
    let decrypted = secret.decrypt(&encrypted).unwrap();

    assert_eq!(decrypted, message);
}

#[test]
fn test_decryption_utf8() {
    let secret = Secret::new();
    let public = secret.generate_public_key();

    let message = "こんにちは世界".to_string();

    let encrypted = public.encrypt(&message);
    let decrypted = secret.decrypt(&encrypted).unwrap();

    assert_eq!(decrypted, message);
}

#[test]
fn secret_creation() {
    let secret = Secret::new();
    assert_eq!(secret.key.len(), 16);

    let mod_range = 11120640..111206400;
    assert!(mod_range.contains(&secret.modulo));

    let key_range = -32768..32768;
    for num in secret.key.iter() {
        assert!(key_range.contains(num));
    }
}

#[test]
fn decrypt_empty_message() {
    let secret = Secret::new();
    let encrypted = String::new();
    let decrypted = secret.decrypt(&encrypted).unwrap();
    assert_eq!(decrypted, String::new());
}

#[test]
fn test_secret_pub() {
    let _ = Secret::new();
}

#[test]
fn test_public_pub() {
    let secret = Secret::new();
    let _ = secret.generate_public_key();
}

#[test]
fn modulus_canonical_range() {
    assert_eq!(modulus(7, 3), 1);
    assert_eq!(modulus(-5, 3), 1);
    assert_eq!(modulus(-3, 3), 0);
    assert_eq!(modulus(-1, 11120640), 11120639);
    assert_eq!(modulus(0, 97), 0);
    assert_eq!(modulus(i32::MIN, 1073741823), 1073741821);
}

#[test]
fn repeated_round_trips() {
    let secret = Secret::new();
    let public = secret.generate_public_key();
    let message = "mixed: ascii, ünïcödé, 絵文字 \u{1F980}!".to_string();
    for _ in 0..50 {
        let encrypted = public.encrypt(&message);
        let decrypted = secret.decrypt(&encrypted).unwrap();
        assert_eq!(decrypted, message);
    }
}

#[test]
fn many_round_trip_trials() {
    // fresh keys every trial; zero failures expected across the sample
    for _ in 0..200 {
        let secret = Secret::new();
        let public = secret.generate_public_key();
        let message = "trial κείμενο 試行";
        let encrypted = public.encrypt(message);
        let decrypted = secret.decrypt(&encrypted).unwrap();
        assert_eq!(decrypted, message);
    }
}

#[test]
fn public_key_shape_inherited() {
    let secret = Secret::new();
    let public = secret.generate_public_key();
    assert_eq!(public.key.len(), 2890);
    assert_eq!(public.modulo, secret.modulo);
    assert_eq!(public.add, secret.add);
    assert_eq!(public.dim, secret.dim);
    assert!(public.well_formed());
}

#[test]
fn derivation_is_randomized() {
    let secret = Secret::new();
    let p1 = secret.generate_public_key();
    let p2 = secret.generate_public_key();
    assert_ne!(p1.key, p2.key);
}

#[test]
fn well_formed_detects_bad_fields() {
    let secret = Secret::new();
    assert!(secret.well_formed());
    let mut bytes = secret.to_bytes();
    // corrupt the dimension word at the end of the layout
    bytes[72] = 99;
    let broken = Secret::from_bytes(bytes).unwrap();
    assert!(!broken.well_formed());
}

#[test]
fn ciphertext_words_are_reduced() {
    // the 17th word of every chunk is folded under the modulus
    let secret = Secret::new();
    let public = secret.generate_public_key();
    let bytes = public.encrypt_bytes("reduction");
    for chunk in bytes.chunks(68) {
        let last = i32::from_le_bytes([chunk[64], chunk[65], chunk[66], chunk[67]]);
        assert!(0 <= last && last < public.modulo);
    }
}

#[test]
fn ciphertext_order_matches_input() {
    // chunk i decrypts, on its own, to character i of the message
    let secret = Secret::new();
    let public = secret.generate_public_key();
    let message = "abcdef";
    let bytes = public.encrypt_bytes(message);
    assert_eq!(bytes.len(), 68 * message.chars().count());
    for (i, c) in message.chars().enumerate() {
        let chunk = bytes[68 * i..68 * (i + 1)].to_vec();
        let single = secret.decrypt_bytes(&chunk).unwrap();
        assert_eq!(single, c.to_string());
    }
}
