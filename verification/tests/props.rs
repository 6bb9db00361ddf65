use b64_ct::decode::lut_align64::LutAlign64;
use b64_ct::encode::lut_align64::LutAlign64 as ScalarEnc;
use b64_ct::encode::wide::Wide as WideEnc;
use b64_ct::encode::Simple as SimpleUnp;
use b64_ct::decode::wide::Wide;
use b64_ct::decode::{decode64, Simple};
use b64_ct::encode::encode64;
use b64_ct::{CharacterSet, Config, FromBase64, FromBase64Error, Newline, ToBase64};

fn cfg(
    char_set: CharacterSet,
    newline: Newline,
    pad: bool,
    line_length: Option<usize>,
) -> Config {
    Config {
        char_set,
        newline,
        pad,
        line_length,
    }
}

fn all_configs() -> Vec<Config> {
    let mut v = Vec::new();
    for &cs in &[CharacterSet::Standard, CharacterSet::UrlSafe] {
        for &nl in &[Newline::LF, Newline::CRLF] {
            for &pad in &[false, true] {
                for &ll in &[None, Some(1), Some(4), Some(5), Some(64), Some(76)] {
                    v.push(cfg(cs, nl, pad, ll));
                }
            }
        }
    }
    v
}

#[test]
fn round_trip_all_configs() {
    let samples: Vec<Vec<u8>> = vec![
        vec![],
        b"f".to_vec(),
        b"fo".to_vec(),
        b"foo".to_vec(),
        b"foobar".to_vec(),
        (0u8..=255).collect(),
        vec![0xff; 100],
    ];
    for input in &samples {
        for config in all_configs() {
            let encoded = input.to_base64(config);
            let decoded = encoded.from_base64().unwrap();
            assert_eq!(&decoded, input);
        }
    }
}

#[test]
fn round_trip_random() {
    for len in 0..200usize {
        let input: Vec<u8> = (0..len).map(|_| rand::random::<u8>()).collect();
        for config in [
            Config::standard(),
            Config::url_safe(),
            Config::mime(),
            cfg(CharacterSet::Standard, Newline::LF, true, Some(3)),
        ] {
            let encoded = input.to_base64(config);
            assert_eq!(encoded.from_base64().unwrap(), input);
        }
    }
}

#[test]
fn whitespace_invariance_concrete() {
    let base = "Zm9vYmFy";
    let expected = b"foobar".to_vec();
    for i in 0..=base.len() {
        for ws in ["\u{20}", "\t", "\r", "\n", "\u{c}"] {
            let mut s = String::new();
            s.push_str(&base[..i]);
            s.push_str(ws);
            s.push_str(&base[i..]);
            assert_eq!(s.from_base64().unwrap(), expected);
        }
    }
}

#[test]
fn whitespace_everywhere() {
    let spread: String = "Zm9vYg==".chars().flat_map(|c| [c, ' ']).collect();
    assert_eq!(spread.from_base64().unwrap(), b"foob");
}

#[test]
fn alphabet_equivalence() {
    assert_eq!(
        "-_8".from_base64().unwrap(),
        "+/8=".from_base64().unwrap()
    );
}

#[test]
fn per_byte_classification() {
    const LUT_STANDARD: &[u8; 64] =
        b"ABCDEFGHIJKLMNOPQRSTUVWXYZabcdefghijklmnopqrstuvwxyz0123456789+/";
    let mut set = vec![Err(()); 256];
    for (i, &b) in LUT_STANDARD.iter().enumerate() {
        set[b as usize] = Ok(Some(i as u8));
    }
    set[b'-' as usize] = Ok(Some(62));
    set[b'_' as usize] = Ok(Some(63));
    set[b' ' as usize] = Ok(None);
    set[b'\n' as usize] = Ok(None);
    set[b'\t' as usize] = Ok(None);
    set[b'\r' as usize] = Ok(None);
    set[0x0c] = Ok(None);

    for (i, &expected) in set.iter().enumerate() {
        let input = [i as u8, i as u8];
        let output = match input.from_base64().as_ref().map(|v| &v[..]) {
            Ok(&[]) => Ok(None),
            Ok(&[v]) => Ok(Some(v >> 2)),
            Ok(_) => panic!("Result is more than 1 byte long"),
            Err(_) => Err(()),
        };
        assert_eq!(output, expected, "byte {}", i);
    }
}

#[test]
fn error_variants() {
    assert!(matches!(
        "A".from_base64().unwrap_err(),
        FromBase64Error::InvalidLength
    ));
    assert!(matches!(
        "Zm8==".from_base64().unwrap_err(),
        FromBase64Error::InvalidTrailer
    ));
    assert!(matches!(
        "Zm$=".from_base64().unwrap_err(),
        FromBase64Error::InvalidCharacter(2)
    ));
    "Zg==$".from_base64().unwrap_err();
    "Z===".from_base64().unwrap_err();
}

#[test]
fn line_wrapping_exact() {
    let c = cfg(CharacterSet::Standard, Newline::CRLF, true, Some(4));
    assert_eq!(b"foobar".to_base64(c), "Zm9v\r\nYmFy");
    let lf = cfg(CharacterSet::Standard, Newline::LF, true, Some(4));
    assert_eq!(b"foobar".to_base64(lf), "Zm9v\nYmFy");
    // wrapping runs through the padding as well
    let one = cfg(CharacterSet::Standard, Newline::CRLF, true, Some(1));
    assert_eq!(b"f".to_base64(one), "Z\r\ng\r\n=\r\n=");
    assert_eq!(b"fo".to_base64(one), "Z\r\nm\r\n8\r\n=");
    assert_eq!(b"foob".to_base64(cfg(CharacterSet::Standard, Newline::CRLF, true, Some(5))), "Zm9vY\r\ng==");
    assert_eq!(b"foob".to_base64(cfg(CharacterSet::Standard, Newline::CRLF, true, Some(6))), "Zm9vYg\r\n==");
    assert_eq!(b"foob".to_base64(cfg(CharacterSet::Standard, Newline::CRLF, true, Some(7))), "Zm9vYg=\r\n=");
    assert_eq!(b"foob".to_base64(cfg(CharacterSet::Standard, Newline::CRLF, true, Some(8))), "Zm9vYg==");
    assert_eq!(
        b"foobfoo".to_base64(cfg(CharacterSet::Standard, Newline::CRLF, true, Some(3))),
        "Zm9\r\nvYm\r\nZvb\r\nw=="
    );
}

#[test]
fn encode_without_padding() {
    let c = cfg(CharacterSet::Standard, Newline::CRLF, false, None);
    assert_eq!(b"f".to_base64(c), "Zg");
    assert_eq!(b"fo".to_base64(c), "Zm8");
}

#[test]
fn url_safe_alphabet() {
    assert_eq!([251u8, 255].to_base64(Config::url_safe()), "-_8");
    let std_pad = cfg(CharacterSet::Standard, Newline::CRLF, true, None);
    assert_eq!([251u8, 255].to_base64(std_pad), "+/8=");
}

#[test]
fn literal_scenarios() {
    assert_eq!("Zg==".from_base64().unwrap(), b"f");
    assert_eq!("Zm9vYg==".from_base64().unwrap(), b"foob");
    let std_pad = cfg(CharacterSet::Standard, Newline::CRLF, true, None);
    assert_eq!(b"f".to_base64(std_pad), "Zg==");
    assert!(matches!(
        "Zm$=".from_base64().unwrap_err(),
        FromBase64Error::InvalidCharacter(_)
    ));
    "Z===".from_base64().unwrap_err();
}

#[test]
fn decoder_pairs_agree() {
    for len in 0..150usize {
        let mut input: Vec<u8> = (0..len)
            .map(|_| {
                const LUT: &[u8; 64] =
                    b"ABCDEFGHIJKLMNOPQRSTUVWXYZabcdefghijklmnopqrstuvwxyz0123456789+/";
                LUT[(rand::random::<u8>() & 0x3f) as usize]
            })
            .collect();
        if len % 7 == 0 && len > 0 {
            let at = len / 2;
            input[at] = b' ';
        }
        let a = decode64(&input, LutAlign64, Simple);
        let b = decode64(&input, Wide, Wide);
        let c = decode64(&input, LutAlign64, Wide);
        let d = decode64(&input, Wide, Simple);
        assert_eq!(a, b);
        assert_eq!(a, c);
        assert_eq!(a, d);
    }
}

#[test]
fn decoder_pairs_agree_on_errors() {
    for input in ["Zm$=", "Z===", "A", "Zg==$", "====", "Zm8=="] {
        let a = decode64(input.as_bytes(), LutAlign64, Simple);
        let b = decode64(input.as_bytes(), Wide, Wide);
        assert_eq!(a, b);
        assert!(a.is_err());
    }
}

#[test]
fn encoder_pairs_agree() {
    for len in 0..150usize {
        let input: Vec<u8> = (0..len).map(|_| rand::random::<u8>()).collect();
        for config in [Config::standard(), Config::url_safe(), Config::mime()] {
            let a = encode64(&input, config, ScalarEnc, SimpleUnp);
            let b = encode64(&input, config, WideEnc, WideEnc);
            let c = encode64(&input, config, ScalarEnc, WideEnc);
            let d = encode64(&input, config, WideEnc, SimpleUnp);
            assert_eq!(a, b);
            assert_eq!(a, c);
            assert_eq!(a, d);
        }
    }
}

#[test]
fn whitespace_in_trailer() {
    assert_eq!("Zm9vYg  =  =  ".from_base64().unwrap(), b"foob");
    assert_eq!("Zm9vYg==\r\n".from_base64().unwrap(), b"foob");
    assert_eq!("Zm9v\r\nYmFy".from_base64().unwrap(), b"foobar");
}
