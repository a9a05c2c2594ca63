use crypto::keys::x25519;
use crypto::signatures::ed25519;
use streams::id::{
    key_exchange_for, verify_signature, Identifier, IdentifierError, KeyExchange, VerifyError, TAG_DID, TAG_ED25519, TAG_PSKID,
};

#[test]
fn ed25519_identifier_round_trips() {
    let id = Identifier::from_ed25519(vec![5; 32]);
    let mut bytes = id.encode();
    assert_eq!(bytes.len(), 33);
    assert_eq!(bytes[0], TAG_ED25519);
    bytes.extend_from_slice(&[9, 9]);
    let (back, n) = Identifier::decode(&bytes).unwrap();
    assert!(back == id);
    assert_eq!(n, 33);
}

#[test]
fn pskid_identifier_round_trips() {
    let id = Identifier::from_pskid(vec![0xAB; 32]);
    let bytes = id.encode();
    assert_eq!(bytes[0], TAG_PSKID);
    let (back, n) = Identifier::decode(&bytes).unwrap();
    assert!(back == id);
    assert!(back.is_psk());
    assert_eq!(n, 33);
}

#[test]
fn did_identifier_is_length_prefixed() {
    let id = Identifier::Did(vec![1, 2, 3]);
    let bytes = id.encode();
    assert_eq!(bytes, vec![TAG_DID, 3, 1, 2, 3]);
    assert_eq!(id.encoded_len(), 5);
    let (back, n) = Identifier::decode(&bytes).unwrap();
    assert!(back == id);
    assert_eq!(n, 5);
}

#[test]
fn unknown_tag_is_refused() {
    assert_eq!(Identifier::decode(&[3, 0, 0]).err(), Some(IdentifierError::UnknownTag(3)));
}

#[test]
fn truncated_identifier_is_refused() {
    assert_eq!(Identifier::decode(&[]).err(), Some(IdentifierError::Truncated));
    assert_eq!(Identifier::decode(&[0; 20]).err(), Some(IdentifierError::Truncated));
    assert_eq!(Identifier::decode(&[2, 4, 1]).err(), Some(IdentifierError::Truncated));
}

#[test]
fn default_identifier_is_the_zero_ed25519_key() {
    let id = Identifier::default();
    assert!(id.is_ed25519());
    assert_eq!(id.as_bytes(), &[0u8; 32][..]);
}

#[test]
fn hex_text_is_lowercase_two_digits_per_byte() {
    let mut key = vec![0u8; 32];
    key[0] = 0x0f;
    key[1] = 0xa0;
    let id = Identifier::from_ed25519(key);
    let text = id.to_hex();
    assert_eq!(text.len(), 64);
    assert!(text.starts_with("0fa000"));
}

#[test]
fn key_exchange_key_is_the_x25519_conversion() {
    let pk = ed25519::SecretKey::from_bytes(&[3u8; 32]).public_key();
    let expected = x25519::PublicKey::try_from(&pk).unwrap().to_bytes().to_vec();
    let id = Identifier::from_ed25519(pk.to_bytes().to_vec());
    let got = id.ke_pk().unwrap();
    assert_eq!(got, expected);
    assert_ne!(got, pk.to_bytes().to_vec());
}

#[test]
fn psk_identifier_has_no_key_exchange_key() {
    assert!(Identifier::from_pskid(vec![1; 32]).ke_pk().is_none());
}

#[test]
fn pskid_recipient_gets_the_psk_exchange() {
    match key_exchange_for(&Identifier::from_pskid(vec![1; 32]), &[4; 32]) {
        Ok(KeyExchange::Psk(k)) => assert_eq!(k, vec![4; 32]),
        _ => panic!("expected a pre-shared key exchange"),
    }
    match key_exchange_for(&Identifier::from_ed25519(vec![1; 32]), &[5; 32]) {
        Ok(KeyExchange::X25519(k)) => assert_eq!(k, vec![5; 32]),
        _ => panic!("expected an X25519 exchange"),
    }
    assert!(matches!(key_exchange_for(&Identifier::from_pskid(vec![1; 32]), &[4; 31]), Err(IdentifierError::BadKeyLength)));
}

#[test]
fn announcement_body_carries_the_key_exchange_key() {
    let pk = ed25519::SecretKey::from_bytes(&[7u8; 32]).public_key();
    let id = Identifier::from_ed25519(pk.to_bytes().to_vec());
    let body = streams::announce::ContentWrap::new(&id, 3).unwrap();
    assert_eq!(body.ke_pk, x25519::PublicKey::try_from(&pk).unwrap().to_bytes().to_vec());
    assert_eq!(body.flags, 3);
    assert!(body.author_id == id);
    assert!(streams::announce::ContentWrap::new(&Identifier::from_pskid(vec![1; 32]), 0).is_none());
    let empty = streams::announce::ContentUnwrap::new(id.clone());
    assert_eq!(empty.ke_pk, vec![0; 32]);
    assert_eq!(empty.flags, 0);
}

#[test]
fn ed25519_signature_is_checked() {
    let sk = ed25519::SecretKey::from_bytes(&[9u8; 32]);
    let id = Identifier::from_ed25519(sk.public_key().to_bytes().to_vec());
    let hash = vec![7u8; 64];
    let sig = sk.sign(&hash).to_bytes().to_vec();
    assert_eq!(verify_signature(0, &id, &hash, &sig), Ok(()));
    assert_eq!(verify_signature(0, &id, &vec![8u8; 64], &sig), Err(VerifyError::Invalid));
    assert_eq!(verify_signature(1, &id, &hash, &sig), Err(VerifyError::UnknownTag(1)));
    assert_eq!(
        verify_signature(0, &Identifier::from_pskid(vec![1; 32]), &hash, &sig),
        Err(VerifyError::WrongIdentifierKind)
    );
}
