use fist::encrypt::{decrypt, encrypt, pad_key, CipherError, BUFFER_SIZE, IV, KEY_LENGTH};

fn letters(n: usize) -> String {
    (0..n).map(|i| (b'a' + (i % 26) as u8) as char).collect()
}

#[test]
fn pad_key_repeats_short_secret() {
    assert_eq!(pad_key("abc"), b"abcabcabcabcabca".to_vec());
    assert_eq!(pad_key("1q2w#E$R"), b"1q2w#E$R1q2w#E$R".to_vec());
    assert_eq!(pad_key("x"), vec![b'x'; KEY_LENGTH]);
}

#[test]
fn pad_key_cuts_long_secret() {
    assert_eq!(pad_key("0123456789abcdefXYZ"), b"0123456789abcdef".to_vec());
}

#[test]
fn encrypt_known_value() {
    assert_eq!(encrypt("hello", "secret"), Ok("r9/niiTsxVaAZxvNVizLwQ==".to_string()));
}

#[test]
fn encrypt_empty_data_gives_empty_text() {
    assert_eq!(encrypt("", "secret"), Ok(String::new()));
}

#[test]
fn encrypt_depends_on_key() {
    let a = encrypt("hello", "secret").unwrap();
    let b = encrypt("hello", "other").unwrap();
    assert_ne!(a, b);
    assert_eq!(a, encrypt("hello", "secretsecretsecr-ignored").unwrap());
}

#[test]
fn encrypt_long_data_is_whole_ciphertext() {
    let data = letters(5000);
    let text = encrypt(&data, "1q2w#E$R").unwrap();
    assert_eq!(text.len(), 6680);
    assert!(text.ends_with("nmtayXVOntobeiLJmlzpRdRfJfJ5C2ck0gSipDNpkSD8wofR+RONVFqyIPsu6w=="));
}

#[test]
fn decrypt_runs_the_encrypting_direction_with_fixed_secret() {
    assert_eq!(decrypt("hello"), Ok("NnXcXfwvd8LjHA6HNWEZZg==".to_string()));
    assert_eq!(decrypt("hello"), encrypt("hello", "1q2w#E$R"));
    assert_eq!(
        decrypt("0123456789abcdef"),
        Ok("jz1L2jlbR4lq/RBpdQkSL5vXMK0jAehGGe89qjLXn9A=".to_string())
    );
}

#[test]
fn decrypt_restarts_cipher_after_full_buffer() {
    let data = letters(5000);
    let text = decrypt(&data).unwrap();
    assert_eq!(text.len(), 6656);
    assert!(text.starts_with("sXD2wCzrh4CzB8F9mF3J9wkdAwEL4P/JQlEEVW9JiC+VQYsWNe95kDJawMrRbB3D"));
    assert!(text.ends_with("LTZosIRI+INQ7WbhQ4eIZzRV+CEmfVvLu0AN84saGHyQaC0sy3ajHlMFpf1ra1dc"));
    let first = encrypt(&data[..BUFFER_SIZE], "1q2w#E$R").unwrap();
    assert_eq!(text[..5460], first[..5460]);
}

#[test]
fn decrypt_of_a_full_buffer_loses_its_padding_block() {
    let data = letters(4096);
    let text = decrypt(&data).unwrap();
    assert_eq!(text.len(), 5464);
    assert!(text.ends_with("y0ocNFthyK0qhfKy9xYdfRNMQ8oI2d/1oiMSyw=="));
}

#[test]
fn constants_are_those_of_the_service() {
    assert_eq!(IV, [29, 153, 21, 5, 126, 118, 184, 57, 99, 160, 45, 169, 178, 57, 246, 186]);
    assert_eq!(KEY_LENGTH, 16);
    assert_eq!(BUFFER_SIZE, 4096);
    assert_ne!(CipherError::InvalidLength, CipherError::InvalidPadding);
}
