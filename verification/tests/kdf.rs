use hmac::Mac;
use veracrypt::kdf::{derive_key, HEADER_ITERATIONS};

fn hex(text: &str) -> Vec<u8> {
    let digits: Vec<u8> = text
        .bytes()
        .map(|c| match c {
            b'0'..=b'9' => c - b'0',
            b'a'..=b'f' => c - b'a' + 10,
            _ => panic!("not a hex digit"),
        })
        .collect();
    digits.chunks(2).map(|pair| pair[0] * 16 + pair[1]).collect()
}

#[test]
fn header_iterations_is_half_a_million() {
    assert_eq!(HEADER_ITERATIONS, 500_000);
}

#[test]
fn derive_key_one_iteration() {
    let key = derive_key(b"password", b"salt", 1);
    assert_eq!(
        key.to_vec(),
        hex("867f70cf1ade02cff3752599a3a53dc4af34c7a669815ae5d513554e1c8cf252c02d470a285a0501bad999bfe943c08f050235d7d68b1da55e63f73b60a57fce")
    );
}

#[test]
fn derive_key_two_iterations() {
    let key = derive_key(b"password", b"salt", 2);
    assert_eq!(
        key.to_vec(),
        hex("e1d9c16aa681708a45f5c7c4e215ceb66e011a2e9f0040713f18aefdb866d53cf76cab2868a39b9f7840edce4fef5a82be67335c77a6068e04112754f27ccf4e")
    );
}

#[test]
fn derive_key_many_iterations() {
    let key = derive_key(b"password", b"salt", 4096);
    assert_eq!(
        key.to_vec(),
        hex("d197b1b33db0143e018b12f3d1d1479e6cdebdcc97c5c0f87f6902e072f457b5143f30602641b3d55cd335988cb36b84376060ecd532e039b742a239434af2d5")
    );
}

#[test]
fn derive_key_with_one_round_is_one_hmac() {
    let mut mac = hmac::Hmac::<sha2::Sha512>::new_from_slice(b"password1234")
        .expect("a key of any length");
    mac.update(&[7u8; 64]);
    mac.update(&1u32.to_be_bytes());
    let block = mac.finalize().into_bytes();
    assert_eq!(derive_key(b"password1234", &[7u8; 64], 1).to_vec(), block.to_vec());
}

#[test]
fn derive_key_is_deterministic() {
    let first = derive_key(b"password1234", &[7u8; 64], 1000);
    let second = derive_key(b"password1234", &[7u8; 64], 1000);
    assert_eq!(first, second);
}

#[test]
fn derive_key_depends_on_every_argument() {
    let base = derive_key(b"password1234", &[7u8; 64], 1000);
    assert_ne!(base, derive_key(b"password12345", &[7u8; 64], 1000));
    assert_ne!(base, derive_key(b"password1234", &[8u8; 64], 1000));
    assert_ne!(base, derive_key(b"password1234", &[7u8; 64], 1001));
    assert_ne!(base, [0u8; 64]);
}

#[test]
fn derive_key_takes_an_empty_password_and_salt() {
    let key = derive_key(b"", b"", 1);
    assert_ne!(key, [0u8; 64]);
    assert_eq!(key, derive_key(b"", b"", 1));
}
