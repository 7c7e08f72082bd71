use psffs::codec::percent_decode;
use psffs::codec::percent_encode;

fn enc(s: &str) -> Vec<u8> {
    percent_encode(&s.as_bytes().to_vec())
}

fn dec(s: &str) -> Vec<u8> {
    percent_decode(&s.as_bytes().to_vec())
}

#[test]
fn encode_keeps_the_exception_set() {
    assert_eq!(enc("AZaz09_/\\.#`{}"), b"AZaz09_/\\.#`{}".to_vec());
}

#[test]
fn encode_escapes_space_and_percent() {
    assert_eq!(enc("vacation photos"), b"vacation%20photos".to_vec());
    assert_eq!(enc("100%"), b"100%25".to_vec());
}

#[test]
fn encode_escapes_non_ascii_bytes() {
    let input: Vec<u8> = vec![0xFF, 0x00, b'a'];
    assert_eq!(percent_encode(&input), b"%FF%00a".to_vec());
}

#[test]
fn decode_unescapes_hex_pairs() {
    assert_eq!(dec("a%20b"), b"a b".to_vec());
    assert_eq!(dec("%2Fx"), b"/x".to_vec());
    assert_eq!(dec("%2fx"), b"/x".to_vec());
}

#[test]
fn decode_leaves_malformed_escapes() {
    assert_eq!(dec("%2"), b"%2".to_vec());
    assert_eq!(dec("%zz"), b"%zz".to_vec());
    assert_eq!(dec("abc%"), b"abc%".to_vec());
}

#[test]
fn decode_undoes_encode() {
    let names = [
        "plain",
        "with space",
        "q?a=b&c=d",
        "100% sure",
        "mixed/slash\\back",
        "ünïcode name",
    ];
    for name in names {
        let encoded = percent_encode(&name.as_bytes().to_vec());
        assert_eq!(percent_decode(&encoded), name.as_bytes().to_vec());
    }
}

#[test]
fn codec_agrees_with_the_reference_implementation() {
    let inputs = ["a b", "x&y=z", "name.ext", "päth/tö", "#tag`{}", "100% sure"];
    for input in inputs {
        // The reference decoder undoes this crate's encoder.
        let ours = String::from_utf8(enc(input)).unwrap();
        let back = percent_encoding::percent_decode_str(&ours)
            .decode_utf8()
            .unwrap();
        assert_eq!(back, input);
        // This crate's decoder undoes the reference encoder.
        let theirs = percent_encoding::utf8_percent_encode(
            input,
            &percent_encoding::NON_ALPHANUMERIC,
        )
        .to_string();
        assert_eq!(dec(&theirs), input.as_bytes().to_vec());
    }
}
