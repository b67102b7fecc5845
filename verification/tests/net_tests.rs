use cloud_p2p::net::{Net, NetError};

fn zero_key_net() -> Net {
    Net::new(1, vec![0u8; 32])
}

#[test]
fn encrypt_then_decrypt_gives_plaintext() {
    let net = zero_key_net();
    let plain = b"plaintext message".to_vec();
    let sealed = net.encrypt(&plain).unwrap();
    assert_eq!(sealed.len(), 12 + plain.len() + 16);
    assert_ne!(&sealed[12..12 + plain.len()], &plain[..]);
    assert_eq!(net.decrypt(&sealed).unwrap(), plain);
}

#[test]
fn encrypt_uses_fresh_nonces() {
    let net = zero_key_net();
    let a = net.encrypt(b"same").unwrap();
    let b = net.encrypt(b"same").unwrap();
    assert_ne!(a[..12], b[..12]);
    assert_eq!(net.decrypt(&a).unwrap(), b"same".to_vec());
    assert_eq!(net.decrypt(&b).unwrap(), b"same".to_vec());
}

#[test]
fn encrypt_empty_plaintext() {
    let net = zero_key_net();
    let sealed = net.encrypt(&[]).unwrap();
    assert_eq!(sealed.len(), 28);
    assert_eq!(net.decrypt(&sealed).unwrap(), Vec::<u8>::new());
}

#[test]
fn decrypt_too_short() {
    let net = zero_key_net();
    assert_eq!(net.decrypt(&[1u8; 11]), Err(NetError::CiphertextTooShort));
    assert_eq!(net.decrypt(&[]), Err(NetError::CiphertextTooShort));
}

#[test]
fn decrypt_nonce_only_fails_authentication() {
    let net = zero_key_net();
    assert_eq!(net.decrypt(&[0u8; 12]), Err(NetError::Cipher));
}

#[test]
fn decrypt_tampered_frame_fails() {
    let net = zero_key_net();
    let mut sealed = net.encrypt(b"image bytes").unwrap();
    let last = sealed.len() - 1;
    sealed[last] ^= 0x01;
    assert_eq!(net.decrypt(&sealed), Err(NetError::Cipher));
}

#[test]
fn decrypt_with_other_key_fails() {
    let net = zero_key_net();
    let other = Net::new(2, vec![7u8; 32]);
    let sealed = net.encrypt(b"secret").unwrap();
    assert_eq!(other.decrypt(&sealed), Err(NetError::Cipher));
}

#[test]
fn net_keeps_its_node_id() {
    assert_eq!(Net::new(9, vec![0u8; 32]).me(), 9);
}

#[test]
fn decrypt_shorter_than_nonce_and_tag() {
    let net = zero_key_net();
    assert_eq!(net.decrypt(&[0u8; 27]), Err(NetError::Cipher));
}

#[test]
fn seal_puts_nonce_first_and_opens() {
    let net = zero_key_net();
    let nonce = [7u8; 12];
    let sealed = net.seal(&nonce, b"abc").unwrap();
    assert_eq!(&sealed[..12], &nonce[..]);
    assert_eq!(sealed.len(), 12 + 3 + 16);
    assert_ne!(&sealed[12..15], b"abc");
    assert_eq!(net.seal(&nonce, b"abc").unwrap(), sealed);
    assert_eq!(net.decrypt(&sealed).unwrap(), b"abc".to_vec());
}
