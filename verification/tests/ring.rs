use crypto_writer::aead::{Cipher, SecretKey, NONCE_LEN, TAG_LEN};
use crypto_writer::outcome::{Call, Failure, Step};
use crypto_writer::ring_writer::{RingCryptoWriter, RingGoal, RingOp, RingTask, BUF_SIZE};
use crypto_writer::stream::open_stream;
use ring::error::Unspecified;

type RingStep = Step<RingOp, &'static str>;

fn work(writer: &RingCryptoWriter, task: RingTask, out: &mut Vec<u8>) {
    match task {
        RingTask::WriteNonce => out.extend_from_slice(writer.nonce().unwrap()),
        RingTask::WriteData => out.extend_from_slice(writer.data()),
        RingTask::WriteTag => out.extend_from_slice(writer.tag()),
        _ => {}
    }
}

fn run(writer: &mut RingCryptoWriter, step: RingStep, data: &[u8], out: &mut Vec<u8>) -> RingStep {
    let mut step = step;
    while let Step::Perform(op) = step {
        work(writer, op.task, out);
        step = writer.resume(op, Ok(()), data);
    }
    step
}

fn done(step: RingStep) -> u64 {
    match step {
        Step::Done(n) => n,
        other => panic!("{:?}", other),
    }
}

fn write_all(writer: &mut RingCryptoWriter, data: &[u8], out: &mut Vec<u8>) {
    let mut rest = data;
    while !rest.is_empty() {
        let step = writer.write(rest);
        let n = done(run(writer, step, rest, out));
        assert!(n > 0);
        rest = &rest[n as usize..];
    }
}

fn finish(writer: &mut RingCryptoWriter, out: &mut Vec<u8>) {
    let step = writer.finish();
    assert_eq!(done(run(writer, step, &[], out)), 0);
}

fn key(cipher: Cipher, byte: u8) -> SecretKey {
    SecretKey::new(vec![byte; cipher.key_len()])
}

fn pattern(len: usize) -> Vec<u8> {
    (0..len).map(|i| (i * 31 % 251) as u8).collect()
}

const CIPHERS: [Cipher; 3] = [Cipher::Aes128Gcm, Cipher::Aes256Gcm, Cipher::ChaCha20Poly1305];

#[test]
fn keys_have_the_length_of_their_cipher() {
    assert_eq!(Cipher::Aes128Gcm.key_len(), 16);
    assert_eq!(Cipher::Aes256Gcm.key_len(), 32);
    assert_eq!(Cipher::ChaCha20Poly1305.key_len(), 32);
    assert!(SecretKey::new(vec![1; 16]).suits(Cipher::Aes128Gcm));
    assert!(!SecretKey::new(vec![1; 16]).suits(Cipher::Aes256Gcm));
    assert!(!SecretKey::new(vec![]).suits(Cipher::ChaCha20Poly1305));
}

#[test]
fn lengths_are_those_of_the_ciphers() {
    assert_eq!(NONCE_LEN, ring::aead::NONCE_LEN);
    assert_eq!(TAG_LEN, ring::aead::MAX_TAG_LEN);
    assert_eq!(Cipher::Aes128Gcm.key_len(), ring::aead::AES_128_GCM.key_len());
    assert_eq!(Cipher::Aes256Gcm.key_len(), ring::aead::AES_256_GCM.key_len());
    assert_eq!(Cipher::ChaCha20Poly1305.key_len(), ring::aead::CHACHA20_POLY1305.key_len());
}

#[test]
fn what_was_written_is_read_back() {
    for cipher in CIPHERS {
        for len in [0, 1, 100, BUF_SIZE - 1, BUF_SIZE, BUF_SIZE + 1, 2 * BUF_SIZE + 7] {
            let data = pattern(len);
            let mut out = Vec::new();
            let mut writer = RingCryptoWriter::new(cipher, key(cipher, 7));
            write_all(&mut writer, &data, &mut out);
            finish(&mut writer, &mut out);
            let blocks = (len + BUF_SIZE - 1) / BUF_SIZE;
            assert_eq!(out.len(), len + blocks * (NONCE_LEN + TAG_LEN));
            assert_eq!(open_stream(cipher, &key(cipher, 7), &out), Some(data));
        }
    }
}

#[test]
fn sealed_bytes_are_those_of_the_cipher() {
    let mut writer = RingCryptoWriter::new(Cipher::Aes128Gcm, key(Cipher::Aes128Gcm, 0));
    let mut out = Vec::new();
    write_all(&mut writer, &[0; 16], &mut out);
    let step = writer.seal_with(RingGoal::Finish, &vec![0; NONCE_LEN]);
    assert_eq!(done(run(&mut writer, step, &[], &mut out)), 0);
    let mut expected = vec![0; NONCE_LEN];
    expected.extend_from_slice(&[
        0x03, 0x88, 0xda, 0xce, 0x60, 0xb6, 0xa3, 0x92, 0xf3, 0x28, 0xc2, 0xb9, 0x71, 0xb2, 0xfe,
        0x78,
    ]);
    expected.extend_from_slice(&[
        0xab, 0x6e, 0x47, 0xd4, 0x2c, 0xec, 0x13, 0xbd, 0xf5, 0x3a, 0x67, 0xb2, 0x12, 0x57, 0xbd,
        0xdf,
    ]);
    assert_eq!(out, expected);
}

#[test]
fn sealed_bytes_depend_on_the_cipher_and_the_key() {
    let mut writer = RingCryptoWriter::new(Cipher::Aes256Gcm, key(Cipher::Aes256Gcm, 0));
    let mut out = Vec::new();
    write_all(&mut writer, &[0; 16], &mut out);
    let step = writer.seal_with(RingGoal::Finish, &vec![0; NONCE_LEN]);
    assert_eq!(done(run(&mut writer, step, &[], &mut out)), 0);
    assert_eq!(
        out[NONCE_LEN..],
        [
            0xce, 0xa7, 0x40, 0x3d, 0x4d, 0x60, 0x6b, 0x6e, 0x07, 0x4e, 0xc5, 0xd3, 0xba, 0xf3,
            0x9d, 0x18, 0xd0, 0xd1, 0xc8, 0xa7, 0x99, 0x99, 0x6b, 0xf0, 0x26, 0x5b, 0x98, 0xb5,
            0xd4, 0x8a, 0xb9, 0x19
        ]
    );
}

#[test]
fn nonces_are_drawn_anew() {
    let cipher = Cipher::ChaCha20Poly1305;
    let mut nonces: Vec<Vec<u8>> = Vec::new();
    let mut writer = RingCryptoWriter::new(cipher, key(cipher, 1));
    assert!(writer.nonce().is_none());
    let mut out = Vec::new();
    for _ in 0..3 {
        write_all(&mut writer, &pattern(BUF_SIZE), &mut out);
        let step = writer.flush();
        assert_eq!(done(run(&mut writer, step, &[], &mut out)), 0);
        let nonce = writer.nonce().unwrap().clone();
        assert_eq!(nonce.len(), NONCE_LEN);
        assert_ne!(nonce, vec![0; NONCE_LEN]);
        assert!(!nonces.contains(&nonce));
        nonces.push(nonce);
    }
}

#[test]
fn write_takes_what_fits() {
    let cipher = Cipher::Aes256Gcm;
    let mut writer = RingCryptoWriter::new(cipher, key(cipher, 1));
    let mut out = Vec::new();
    let data = pattern(BUF_SIZE + 10);
    let step: RingStep = writer.write(&data);
    assert_eq!(done(step), BUF_SIZE as u64);
    assert_eq!(writer.data()[..], data[..BUF_SIZE]);
    let step = writer.write(&data[BUF_SIZE..]);
    assert!(matches!(
        step,
        Step::Perform(RingOp { goal: RingGoal::Write, task: RingTask::WriteNonce })
    ));
    assert_eq!(done(run(&mut writer, step, &data[BUF_SIZE..], &mut out)), 10);
    assert_eq!(out.len(), BUF_SIZE + NONCE_LEN + TAG_LEN);
    assert_eq!(writer.data()[..], data[BUF_SIZE..]);
}

#[test]
fn flush_sends_only_full_blocks() {
    let cipher = Cipher::Aes256Gcm;
    let mut writer = RingCryptoWriter::new(cipher, key(cipher, 1));
    let mut out = Vec::new();
    let step = writer.flush();
    assert_eq!(done(run(&mut writer, step, &[], &mut out)), 0);
    write_all(&mut writer, b"abc", &mut out);
    let step = writer.flush();
    assert_eq!(done(run(&mut writer, step, &[], &mut out)), 0);
    assert!(out.is_empty());
    assert_eq!(writer.data()[..], b"abc"[..]);
    write_all(&mut writer, &pattern(BUF_SIZE - 3), &mut out);
    assert!(out.is_empty());
    let step = writer.flush();
    assert_eq!(done(run(&mut writer, step, &[], &mut out)), 0);
    assert_eq!(out.len(), BUF_SIZE + NONCE_LEN + TAG_LEN);
    assert!(writer.data().is_empty());
}

#[test]
fn finish_flushes_and_hands_back() {
    let cipher = Cipher::Aes128Gcm;
    let mut writer = RingCryptoWriter::new(cipher, key(cipher, 1));
    let mut out = Vec::new();
    write_all(&mut writer, b"abc", &mut out);
    let mut step: RingStep = writer.finish();
    let mut tasks = Vec::new();
    while let Step::Perform(op) = step {
        assert_eq!(op.goal, RingGoal::Finish);
        tasks.push(op.task);
        step = writer.resume(op, Ok(()), &[]);
    }
    assert_eq!(done(step), 0);
    assert_eq!(
        tasks,
        vec![
            RingTask::WriteNonce,
            RingTask::WriteData,
            RingTask::WriteTag,
            RingTask::FlushOut,
            RingTask::TakeOut,
        ]
    );
}

#[test]
fn finished_writer_refuses() {
    let cipher = Cipher::Aes128Gcm;
    let mut writer = RingCryptoWriter::new(cipher, key(cipher, 1));
    finish(&mut writer, &mut Vec::new());
    let step: RingStep = writer.write(b"abc");
    assert!(matches!(step, Step::Failed(Failure::AlreadyFinished(Call::Write))));
    let step: RingStep = writer.flush();
    assert!(matches!(step, Step::Failed(Failure::AlreadyFinished(Call::Flush))));
    let step: RingStep = writer.finish();
    assert!(matches!(step, Step::Failed(Failure::AlreadyFinished(Call::Finish))));
    assert!(writer.data().is_empty());
}

#[test]
fn refusal_of_the_cipher_is_a_failure() {
    let cipher = Cipher::Aes128Gcm;
    let mut writer = RingCryptoWriter::new(cipher, key(cipher, 1));
    write_all(&mut writer, b"abc", &mut Vec::new());
    let step: RingStep = writer.settle(RingGoal::Finish, Err(Unspecified));
    assert!(matches!(step, Step::Failed(Failure::Sealing)));
    let step: RingStep = writer.seal_with(RingGoal::Finish, &vec![0; NONCE_LEN - 1]);
    assert!(matches!(step, Step::Failed(Failure::Sealing)));
    assert_eq!(writer.data()[..], b"abc"[..]);
}

#[test]
fn failed_output_ends_the_operation() {
    let cipher = Cipher::Aes128Gcm;
    let mut writer = RingCryptoWriter::new(cipher, key(cipher, 1));
    write_all(&mut writer, b"abc", &mut Vec::new());
    let step: RingStep = writer.finish();
    let step = match step {
        Step::Perform(op) => writer.resume(op, Ok(()), &[]),
        other => other,
    };
    let step = match step {
        Step::Perform(op) => {
            assert_eq!(op.task, RingTask::WriteData);
            writer.resume(op, Err("full disk"), &[])
        }
        other => other,
    };
    assert!(matches!(step, Step::Failed(Failure::Outside("full disk"))));
    assert_eq!(writer.data().len(), 3);
    assert_ne!(writer.data()[..], b"abc"[..]);
}

#[test]
fn streams_that_cannot_be_opened() {
    let cipher = Cipher::ChaCha20Poly1305;
    let mut out = Vec::new();
    let mut writer = RingCryptoWriter::new(cipher, key(cipher, 1));
    write_all(&mut writer, b"some bytes", &mut out);
    finish(&mut writer, &mut out);
    assert_eq!(open_stream(cipher, &key(cipher, 2), &out), None);
    assert_eq!(open_stream(Cipher::Aes256Gcm, &key(cipher, 1), &out), None);
    assert_eq!(open_stream(cipher, &key(cipher, 1), &out[..out.len() - 1].to_vec()), None);
    assert_eq!(open_stream(cipher, &key(cipher, 1), &out[..20].to_vec()), None);
    let mut bent = out.clone();
    bent[NONCE_LEN] ^= 1;
    assert_eq!(open_stream(cipher, &key(cipher, 1), &bent), None);
    assert_eq!(open_stream(cipher, &key(cipher, 1), &Vec::new()), Some(Vec::new()));
}
