use crypto_lib::encryption::{decrypt, encrypt_and_prepend_iv, encrypt_with_iv};
use rand::RngCore;

#[test]
fn encrypt_then_decrypt_restores_random_data() {
    let mut rng = rand::rng();
    for i in 1..(1 << 10) {
        let mut data = vec![0u8; i];
        rng.fill_bytes(&mut data);
        let plaintext = data.clone();
        let mut key = vec![0u8; 16];
        rng.fill_bytes(&mut key);
        let ct = encrypt_and_prepend_iv(&mut data, &key);
        let dec_ct = decrypt(&ct, &key);
        assert_eq!(plaintext, dec_ct);
    }
}

#[test]
fn encryption_with_fixed_iv_prepends_it_and_changes_the_body() {
    let key = [0x2Bu8; 16];
    let iv = [0x01u8; 16];
    let data = b"some plaintext bytes".to_vec();
    let ct = encrypt_with_iv(&data, &key, &iv);
    assert_eq!(&ct[..16], &iv);
    assert_eq!(ct.len(), 16 + data.len());
    assert_ne!(&ct[16..], data.as_slice());
    assert_eq!(decrypt(&ct, &key), data);
}

#[test]
fn encrypt_in_place_leaves_ciphertext_body_in_buffer() {
    let key = [7u8; 16];
    let mut data = vec![0x42u8; 100];
    let ct = encrypt_and_prepend_iv(&mut data, &key);
    assert_eq!(&ct[16..], data.as_slice());
    assert_eq!(decrypt(&ct, &key), vec![0x42u8; 100]);
}
