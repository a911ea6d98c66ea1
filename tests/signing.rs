use token_ring::id::WorkStationId;
use token_ring::packet::PacketHeader;
use token_ring::serialize::Serializable;
use token_ring::signature::{generate_keypair, Signed};

fn create_stub() -> Signed<PacketHeader> {
    let keypair = generate_keypair();
    let val = PacketHeader::new(WorkStationId::new("Test".to_owned()));
    Signed::new(&keypair, val).unwrap()
}

#[test]
fn sign() {
    let signed_stub = create_stub();
    assert!(signed_stub.verify());
}

#[test]
fn verify() {
    let signed_stub = create_stub();
    let mut buf = vec![];
    signed_stub.write(&mut buf).unwrap();

    let deserialized_stub = Signed::<PacketHeader>::read(buf.as_slice(), 0).unwrap().0;
    assert!(deserialized_stub.verify());
}

#[test]
fn signed_envelope_round_trips() {
    let signed = create_stub();
    let mut buf = vec![];
    signed.write(&mut buf).unwrap();
    assert_eq!(buf.len(), 32 + 64 + 2 + 6);
    let keypair_public = &buf[..32];
    assert_eq!(keypair_public.len(), 32);
    let (back, p) = Signed::<PacketHeader>::read(&buf, 0).unwrap();
    assert_eq!(back, signed);
    assert_eq!(p, buf.len());
    assert_eq!(back.val.source.as_str(), "test");
}

#[test]
fn flipping_any_signed_bit_fails_verification() {
    let signed = create_stub();
    let mut buf = vec![];
    signed.write(&mut buf).unwrap();
    // the signed bytes: the 2-byte length prefix is followed by the value's encoding
    for i in 98..buf.len() {
        for bit in 0..8 {
            let mut tampered = buf.clone();
            tampered[i] ^= 1 << bit;
            match Signed::<PacketHeader>::read(&tampered, 0) {
                Ok((s, _)) => assert!(!s.verify()),
                Err(_) => {}
            }
        }
    }
}

#[test]
fn corrupted_signature_fails_verification() {
    let signed = create_stub();
    let mut buf = vec![];
    signed.write(&mut buf).unwrap();
    buf[40] ^= 0x01;
    let (s, _) = Signed::<PacketHeader>::read(&buf, 0).unwrap();
    assert!(!s.verify());
}

#[test]
fn distinct_keypairs_differ() {
    let a = generate_keypair();
    let b = generate_keypair();
    assert_eq!(a.public_key().len(), 32);
    assert_ne!(a.public_key(), b.public_key());
}
