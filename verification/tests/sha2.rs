use tape_machine::bytes::{be_byte_of_u64, be_bytes_of_u32, u32_of_be_bytes};
use tape_machine::fingerprint::table_digest;
use tape_machine::sha2::Sha256;

fn hex(bytes: &[u8]) -> String {
    bytes.iter().map(|b| format!("{:02x}", b)).collect()
}

fn digest(msg: &[u8]) -> String {
    let mut h = Sha256::new();
    h.update(msg);
    hex(&h.finalize())
}

#[test]
fn empty_message() {
    let expected = "e3b0c44298fc1c149afbf4c8996fb92427ae41e4649b934ca495991b7852b855";
    assert_eq!(hex(&Sha256::new().finalize()), expected);
    assert_eq!(digest(b""), expected);
}

#[test]
fn one_block_message() {
    assert_eq!(
        digest(b"abc"),
        "ba7816bf8f01cfea414140de5dae2223b00361a396177a9cb410ff61f20015ad"
    );
}

#[test]
fn two_block_message() {
    assert_eq!(
        digest(b"abcdbcdecdefdefgefghfghighijhijkijkljklmklmnlmnomnopnopq"),
        "248d6a61d20638b8e5c026930c3e6039a33ce45964ff2167f6ecedd419db06c1"
    );
}

#[test]
fn lengths_around_the_block_boundaries() {
    let cases = [
        (55, "9f4390f8d30c2dd92ec9f095b65e2b9ae9b0a925a5258e241c9f1e910f734318"),
        (56, "b35439a4ac6f0948b6d6f9e3c6af0f5f590ce20f1bde7090ef7970686ec6738a"),
        (63, "7d3e74a05d7db15bce4ad9ec0658ea98e3f06eeecf16b4c6fff2da457ddc2f34"),
        (64, "ffe054fe7ae0cb6dc65c3af9b61d5209f439851db43d0ba5997337df154668eb"),
        (119, "31eba51c313a5c08226adf18d4a359cfdfd8d2e816b13f4af952f7ea6584dcfb"),
        (120, "2f3d335432c70b580af0e8e1b3674a7c020d683aa5f73aaaedfdc55af904c21c"),
    ];
    for (len, expected) in cases {
        assert_eq!(digest(&vec![b'a'; len]), expected);
    }
}

#[test]
fn many_blocks() {
    let msg: Vec<u8> = (0..1024).map(|i| (i % 256) as u8).collect();
    assert_eq!(
        digest(&msg),
        "785b0751fc2c53dc14a4ce3d800e69ef9ce1009eb327ccf458afe09c242c26c9"
    );
}

#[test]
fn digest_does_not_depend_on_the_cuts() {
    let msg: Vec<u8> = (0..200).map(|i| (i * 7 % 256) as u8).collect();
    let whole = digest(&msg);
    for size in [1usize, 3, 63, 64, 65, 199] {
        let mut h = Sha256::new();
        for part in msg.chunks(size) {
            h.update(part);
            h.update(b"");
        }
        assert_eq!(hex(&h.finalize()), whole);
    }
}

#[test]
fn digest_of_the_shuffle_table() {
    assert_eq!(
        hex(&table_digest()),
        "f39b9815311cbbcd8acdbaeb43ea35a83033d80f123be99566cade0ab4026eda"
    );
}

#[test]
fn big_endian_bytes() {
    assert_eq!(be_bytes_of_u32(0x0102_a3f4), [0x01, 0x02, 0xa3, 0xf4]);
    assert_eq!(u32_of_be_bytes(0x01, 0x02, 0xa3, 0xf4), 0x0102_a3f4);
    let x: u64 = 0x8877_6655_4433_2211;
    let bytes: Vec<u8> = (0..8).map(|i| be_byte_of_u64(x, i)).collect();
    assert_eq!(bytes, vec![0x88, 0x77, 0x66, 0x55, 0x44, 0x33, 0x22, 0x11]);
}

#[test]
fn stale_buffer_bytes_have_no_say() {
    let mut h = Sha256::new();
    h.update(&[b'x'; 64]);
    h.update(b"abc");
    assert_eq!(
        hex(&h.finalize()),
        "807c698cfcd22932fdead5a6b38b7664e58299d19b6ba086969e11ae8cc7823a"
    );
}
