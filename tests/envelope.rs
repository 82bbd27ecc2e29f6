use protobuf::{CodedInputStream, CodedOutputStream};
use synapsis::neurotransmitter::{AsymmetricKey, SerializedStuff};
use synapsis::{decrypt, deserialize_data, encrypt, generate_key, generate_shared, serialize_data};

fn stuff(content: &[u8]) -> SerializedStuff {
    let mut s = SerializedStuff::new();
    s.set_content(content.to_vec());
    s
}

#[test]
fn lib_test_encryption_e2e() {
    // Clients 1 and 2 generate two keys.
    let key_dump_1 = generate_key();
    let key_dump_2 = generate_key();

    // They decode asymmetric keys on their side
    let key1 = AsymmetricKey::parse_from_bytes(key_dump_1.as_slice()).unwrap();
    let key2 = AsymmetricKey::parse_from_bytes(key_dump_2.as_slice()).unwrap();

    // They share public keys (as SerializedStuff) and generate shared (session) keys
    let shared1 = generate_shared(
        key_dump_1.as_slice(),
        key2.get_public_key().write_to_bytes().unwrap().as_slice(),
    )
    .unwrap();
    let shared2 = generate_shared(
        key_dump_2.as_slice(),
        key1.get_public_key().write_to_bytes().unwrap().as_slice(),
    )
    .unwrap();

    assert_eq!(shared1, shared2, "Shared keys differ");

    // And finally they encrypt/decrypt (notice the different keys).
    let message = serialize_data("memkek".as_bytes()).unwrap();
    let encrypted = encrypt(shared1.as_slice(), message.as_slice()).unwrap();
    let decrypted = decrypt(shared2.as_slice(), encrypted.as_slice()).unwrap();

    assert_eq!(message, decrypted, "Cryptography is not correct");
}

#[test]
fn two_identities_agree_on_a_32_byte_secret() {
    let a = generate_key();
    let b = generate_key();
    let a_pub = AsymmetricKey::parse_from_bytes(&a).unwrap().get_public_key().write_to_bytes().unwrap();
    let b_pub = AsymmetricKey::parse_from_bytes(&b).unwrap().get_public_key().write_to_bytes().unwrap();
    let s1 = generate_shared(&a, &b_pub).unwrap();
    let s2 = generate_shared(&b, &a_pub).unwrap();
    assert_eq!(s1, s2);
    assert_eq!(deserialize_data(&s1).unwrap().len(), 32);
    let plain = serialize_data(b"hello from one side").unwrap();
    let enc = encrypt(&s1, &plain).unwrap();
    assert_eq!(decrypt(&s2, &enc).unwrap(), plain);
}

#[test]
fn blob_wire_form_is_tag_length_content() {
    assert_eq!(
        serialize_data(b"memkek").unwrap(),
        vec![0x0A, 6, b'm', b'e', b'm', b'k', b'e', b'k']
    );
    assert_eq!(serialize_data(&[]).unwrap(), Vec::<u8>::new());
    let long = vec![0xABu8; 300];
    let enc = serialize_data(&long).unwrap();
    assert_eq!(&enc[..3], &[0x0A, 0xAC, 0x02]);
    assert_eq!(enc.len(), 303);
    assert_eq!(deserialize_data(&enc).unwrap(), long);
}

#[test]
fn blob_round_trips() {
    for n in [0usize, 1, 31, 32, 127, 128, 129, 1000] {
        let data: Vec<u8> = (0..n).map(|i| (i % 251) as u8).collect();
        let enc = serialize_data(&data).unwrap();
        assert_eq!(deserialize_data(&enc).unwrap(), data);
    }
}

#[test]
fn blob_decoding_skips_unknown_fields_and_takes_the_last_content() {
    // field 2 varint, field 3 fixed64, field 4 fixed32, field 5 bytes, then content twice
    let mut wire = vec![0x10, 0x96, 0x01];
    wire.extend([0x19, 1, 2, 3, 4, 5, 6, 7, 8]);
    wire.extend([0x25, 1, 2, 3, 4]);
    wire.extend([0x2A, 2, 9, 9]);
    wire.extend([0x0A, 1, b'x']);
    wire.extend([0x0A, 2, b'o', b'k']);
    assert_eq!(deserialize_data(&wire).unwrap(), b"ok".to_vec());
    assert_eq!(deserialize_data(&[0x10, 0x01]).unwrap(), Vec::<u8>::new());
}

#[test]
fn blob_decoding_refuses_malformed_input() {
    assert_eq!(deserialize_data(&[0x0A, 5, 1, 2]), None); // length past the end
    assert_eq!(deserialize_data(&[0x08, 1]), None); // content not length-delimited
    assert_eq!(deserialize_data(&[0x02, 0]), None); // field number zero
    assert_eq!(deserialize_data(&[0x0B]), None); // group never closed
    assert_eq!(deserialize_data(&[0x0C]), None); // lone group end
    assert_eq!(deserialize_data(&[0x1B, 0x23, 0x24, 0x1C]), None); // nested group
    assert_eq!(deserialize_data(&[0x0A]), None); // missing length
    assert_eq!(deserialize_data(&[0x80; 11]), None); // varint too long
}

#[test]
fn blob_matches_the_protobuf_runtime() {
    let mut wire = Vec::new();
    {
        let mut os = CodedOutputStream::vec(&mut wire);
        os.write_bytes(1, &vec![7u8; 200]).unwrap();
        os.flush().unwrap();
    }
    assert_eq!(serialize_data(&vec![7u8; 200]).unwrap(), wire);
    let ours = serialize_data(b"interop").unwrap();
    let mut is = CodedInputStream::from_bytes(&ours);
    let (field, _) = is.read_tag_unpack().unwrap();
    assert_eq!(field, 1);
    assert_eq!(is.read_bytes().unwrap(), b"interop".to_vec());
    assert!(is.eof().unwrap());
}

#[test]
fn key_record_round_trips() {
    let mut k = AsymmetricKey::new();
    k.set_secret(stuff(&[1u8; 32]));
    k.set_public_key(stuff(&[2u8; 32]));
    let wire = k.write_to_bytes().unwrap();
    assert_eq!(wire.len(), 72);
    assert_eq!(&wire[..4], &[0x0A, 34, 0x0A, 32]);
    assert_eq!(&wire[36..40], &[0x12, 34, 0x0A, 32]);
    let back = AsymmetricKey::parse_from_bytes(&wire).unwrap();
    assert_eq!(back, k);
    assert!(back.has_secret() && back.has_public_key());
}

#[test]
fn key_record_fields_can_be_absent() {
    let mut k = AsymmetricKey::new();
    assert!(!k.has_secret());
    assert_eq!(k.get_secret().get_content(), &[] as &[u8]);
    assert_eq!(k.write_to_bytes().unwrap(), Vec::<u8>::new());
    k.set_public_key(stuff(b"pk"));
    let wire = k.write_to_bytes().unwrap();
    assert_eq!(wire, vec![0x12, 4, 0x0A, 2, b'p', b'k']);
    let back = AsymmetricKey::parse_from_bytes(&wire).unwrap();
    assert!(!back.has_secret());
    assert_eq!(back.get_public_key().get_content(), b"pk");
}

#[test]
fn key_record_merges_a_repeated_field() {
    // secret given twice: the second nested record holds only an unknown field
    let wire = vec![0x0A, 3, 0x0A, 1, b's', 0x0A, 2, 0x10, 0x05];
    let k = AsymmetricKey::parse_from_bytes(&wire).unwrap();
    assert_eq!(k.get_secret().get_content(), b"s");
}

#[test]
fn key_record_accessors() {
    let mut k = AsymmetricKey::new();
    k.set_secret(stuff(b"abc"));
    assert_eq!(k.take_secret().get_content(), b"abc");
    assert!(!k.has_secret());
    k.set_public_key(stuff(b"xyz"));
    k.clear_public_key();
    assert!(!k.has_public_key());
    assert_eq!(k.take_public_key().get_content(), &[] as &[u8]);
    k.set_secret(stuff(b"q"));
    k.clear_secret();
    assert_eq!(k.get_secret().get_content(), &[] as &[u8]);
}

#[test]
fn blob_accessors() {
    let mut s = stuff(b"abc");
    assert_eq!(s.get_content(), b"abc");
    assert_eq!(s.take_content(), b"abc".to_vec());
    assert_eq!(s.get_content(), &[] as &[u8]);
    s.set_content(vec![1, 2]);
    s.clear_content();
    assert_eq!(s.get_content(), &[] as &[u8]);
    assert_eq!(SerializedStuff::parse_from_bytes(&[0x0A, 1, 5]).unwrap().get_content(), &[5]);
}

#[test]
fn shared_secret_refuses_malformed_inputs() {
    let key = generate_key();
    let peer = AsymmetricKey::parse_from_bytes(&generate_key()).unwrap().get_public_key().write_to_bytes().unwrap();
    assert!(generate_shared(&key, &serialize_data(&[9u8; 31]).unwrap()).is_none());
    assert!(generate_shared(&[0x0A, 9], &peer).is_none());
    assert!(generate_shared(&key, &[0x0A, 40]).is_none());
    // a record without a secret
    assert!(generate_shared(&[], &peer).is_none());
    assert!(generate_shared(&key, &peer).is_some());
}

#[test]
fn encrypt_and_decrypt_refuse_bad_inputs() {
    let key = serialize_data(&[4u8; 32]).unwrap();
    let short_key = serialize_data(&[4u8; 16]).unwrap();
    let plain = serialize_data(b"memkek").unwrap();
    assert!(encrypt(&short_key, &plain).is_none());
    assert!(encrypt(&[0x0A], &plain).is_none());
    assert!(encrypt(&key, &[0x0A, 3]).is_none());
    let misaligned = serialize_data(&[1u8; 20]).unwrap();
    assert!(decrypt(&key, &misaligned).is_none());
    assert!(decrypt(&short_key, &encrypt(&key, &plain).unwrap()).is_none());
}

#[test]
fn encrypting_memkek_gives_one_block() {
    let key = serialize_data(&[4u8; 32]).unwrap();
    let plain = serialize_data(b"memkek").unwrap();
    let enc = encrypt(&key, &plain).unwrap();
    assert_eq!(deserialize_data(&enc).unwrap().len(), 16);
    assert_eq!(decrypt(&key, &enc).unwrap(), plain);
    // empty plaintext: one whole block of padding
    let empty = serialize_data(&[]).unwrap();
    let enc = encrypt(&key, &empty).unwrap();
    assert_eq!(deserialize_data(&enc).unwrap().len(), 16);
    assert_eq!(decrypt(&key, &enc).unwrap(), empty);
}

#[test]
fn blob_content_can_be_changed_in_place() {
    let mut s = stuff(b"ab");
    s.mut_content().push(b'c');
    assert_eq!(s.get_content(), b"abc");
}

#[test]
fn unknown_group_fields_are_skipped() {
    assert_eq!(SerializedStuff::parse_from_bytes(&[0x1B, 0x1C]).unwrap().get_content(), &[] as &[u8]);
    // a group holding a content-numbered field, a varint and bytes, then the real content
    let wire = vec![0x1B, 0x0A, 1, b'z', 0x10, 0x05, 0x1C, 0x0A, 1, b'y'];
    assert_eq!(deserialize_data(&wire).unwrap(), b"y".to_vec());
    let mut key = vec![0x1B, 0x08, 0x01, 0x1C];
    key.extend([0x0A, 3, 0x0A, 1, b's']);
    let k = AsymmetricKey::parse_from_bytes(&key).unwrap();
    assert_eq!(k.get_secret().get_content(), b"s");
    assert!(!k.has_public_key());
}

#[test]
fn a_group_under_a_known_field_number_is_refused() {
    assert_eq!(deserialize_data(&[0x0B, 0x0C]), None);
    assert!(AsymmetricKey::parse_from_bytes(&[0x13, 0x14]).is_none());
}

#[test]
fn groups_match_the_protobuf_runtime() {
    let wire = [0x1B, 0x10, 0x05, 0x1C, 0x0A, 2, b'o', b'k'];
    let mut is = CodedInputStream::from_bytes(&wire);
    let (field, wire_type) = is.read_tag_unpack().unwrap();
    assert_eq!(field, 3);
    let mut unknown = protobuf::UnknownFields::new();
    protobuf::rt::read_unknown_or_skip_group(field, wire_type, &mut is, &mut unknown).unwrap();
    let (field, _) = is.read_tag_unpack().unwrap();
    assert_eq!(field, 1);
    assert_eq!(is.read_bytes().unwrap(), b"ok".to_vec());
    assert_eq!(deserialize_data(&wire).unwrap(), b"ok".to_vec());
}
