use explode::decoder::{decode, decode_with_buffer};
use explode::{explode, explode_with_buffer, Error, Explode};

// A token of a compressed stream: a literal byte, or a back-reference with
// its length and its distance.
enum Token {
    Literal(u8),
    Copy(usize, usize),
}

// What a list of tokens stands for.
fn expand(tokens: &[Token]) -> Vec<u8> {
    let mut out = Vec::new();
    for token in tokens {
        match token {
            Token::Literal(byte) => out.push(*byte),
            Token::Copy(len, dist) => {
                for _ in 0..*len {
                    out.push(out[out.len() - dist]);
                }
            }
        }
    }
    out
}

// A stream that fills the window and goes on, with back-references to the
// far end of the window, to the last byte, and across the place where the
// window began to forget.
fn window_tokens() -> Vec<Token> {
    vec![
        Token::Literal(48),
        Token::Literal(49),
        Token::Literal(50),
        Token::Literal(51),
        Token::Literal(52),
        Token::Literal(53),
        Token::Literal(54),
        Token::Literal(55),
        Token::Literal(56),
        Token::Literal(57),
        Token::Literal(58),
        Token::Literal(59),
        Token::Literal(60),
        Token::Literal(61),
        Token::Literal(62),
        Token::Literal(63),
        Token::Copy(16, 16),
        Token::Copy(32, 32),
        Token::Copy(64, 64),
        Token::Copy(128, 128),
        Token::Copy(256, 256),
        Token::Copy(512, 512),
        Token::Copy(518, 1024),
        Token::Copy(518, 1542),
        Token::Copy(518, 2060),
        Token::Copy(518, 2578),
        Token::Copy(518, 3096),
        Token::Copy(518, 3614),
        Token::Copy(518, 4096),
        Token::Copy(518, 4096),
        Token::Literal(238),
        Token::Copy(9, 1),
        Token::Copy(2, 256),
        Token::Copy(300, 4095),
        Token::Literal(7),
        Token::Copy(40, 2),
        Token::Copy(518, 3000),
        Token::Copy(100, 4096),
        Token::Copy(2, 1),
        Token::Copy(3, 4096),
    ]
}

// The tokens of `window_tokens`, compressed with coded literals.
fn window_stream() -> Vec<u8> {
    vec![
        0x01, 0x06, 0xb8, 0x12, 0x1c, 0x6c, 0x2c, 0x4c, 0x18, 0x18, 0xe8, 0xd0, 0xa1, 0x01, 0x23, 0x90,
        0x40, 0x03, 0x0b, 0xc4, 0x23, 0xfc, 0x84, 0xf1, 0x2f, 0x84, 0xff, 0x83, 0x78, 0xff, 0x81, 0xf8,
        0xfc, 0x07, 0xe0, 0xfb, 0x7f, 0x80, 0xbf, 0xfe, 0x07, 0xf8, 0xf3, 0x8b, 0x00, 0x7f, 0xfa, 0x12,
        0xe0, 0x8f, 0x8f, 0x02, 0xfc, 0xe1, 0xaf, 0x00, 0x7f, 0xf0, 0x2e, 0xc0, 0x1f, 0xe0, 0x0f, 0xf0,
        0x07, 0xf8, 0x01, 0x45, 0x3a, 0xb0, 0x00, 0x07, 0x90, 0x00, 0xf8, 0xc0, 0x33, 0x04, 0x0e, 0x02,
        0xfc, 0x91, 0x77, 0x90, 0x03, 0xf8, 0x77, 0x0e, 0xf0, 0x07, 0xfc, 0x03,
    ]
}

// Compressed streams with what they decompress to.
fn examples() -> Vec<(Vec<u8>, Vec<u8>)> {
    vec![
        (
            vec![
                0x00, 0x04, 0x82, 0x24, 0x25, 0x8f, 0x80, 0x7f,
            ],
            b"AIAIAIAIAIAIA".to_vec(),
        ),
        (
            vec![
                0x01, 0x04, 0x0a, 0xc5, 0xf6, 0x20, 0x93, 0x2d, 0x06, 0x82, 0x67, 0x6a, 0x3a, 0xbc, 0xe1, 0x69,
                0x3a, 0x78, 0x0f, 0x42, 0x32, 0x99, 0xa4, 0x7a, 0x1d, 0x82, 0xad, 0xf9, 0x69, 0x37, 0x1d, 0x90,
                0x82, 0xf3, 0x74, 0x9d, 0x8a, 0xd7, 0x37, 0xc8, 0xc2, 0x5e, 0xec, 0x1d, 0xaa, 0x63, 0x19, 0xf8,
                0xdb, 0x1a, 0xf4, 0xba, 0xc6, 0x76, 0xab, 0xa6, 0x6d, 0xaf, 0x29, 0x1e, 0x71, 0xc0, 0x3f,
            ],
            b"the quick brown fox jumps over the lazy dog. the quick brown fox jumps over the lazy dog again, and again the lazy dog sleeps.\n".to_vec(),
        ),
        (
            vec![
                0x00, 0x05, 0xe8, 0xa0, 0x29, 0x03, 0x22, 0x4e, 0x9d, 0x34, 0x63, 0xd6, 0x80, 0x10, 0x23, 0xe7,
                0xcd, 0x1d, 0x37, 0x20, 0xcc, 0xbc, 0xc1, 0x03, 0x42, 0x4d, 0x9d, 0x36, 0x70, 0xe6, 0x80, 0x78,
                0x63, 0xa7, 0x8c, 0x1c, 0x90, 0xd9, 0x63, 0x13, 0x46, 0x4f, 0x1e, 0x10, 0x64, 0xde, 0x9c, 0x71,
                0xe9, 0x5b, 0xf8, 0x9b, 0x01, 0x11, 0xe6, 0x4c, 0x98, 0x34, 0x6e, 0x58, 0xb6, 0xe5, 0x86, 0xac,
                0xae, 0x62, 0xef, 0xe6, 0xb0, 0x29, 0x53, 0xb6, 0xa6, 0x5c, 0x28, 0x04, 0xfc, 0x03,
            ],
            b"the quick brown fox jumps over the lazy dog. the quick brown fox jumps over the lazy dog again, and again the lazy dog sleeps.\n".to_vec(),
        ),
        (
            vec![
                0x01, 0x06, 0x0e, 0x53, 0x73, 0x18, 0x0e, 0x7d, 0x36, 0xbc, 0xc3, 0x8c, 0xfa, 0x12, 0xf0, 0x0f,
            ],
            b"abracadabra abracadabra abracadabra".to_vec(),
        ),
        (
            vec![
                0x00, 0x04, 0x01, 0xff,
            ],
            b"".to_vec(),
        ),
        (window_stream(), expand(&window_tokens())),
    ]
}

// Decompresses with the low-level interface, one input byte at a time, into
// a buffer of `size` bytes.
fn feed_bytewise(encoded: &[u8], size: usize) -> Result<Vec<u8>, Error> {
    let mut ex = Explode::new();
    let mut outbuf = vec![0u8; size];
    let mut exbuf = ex.with_buffer(&mut outbuf);
    let mut out = Vec::new();
    let mut i = 0;
    while i < encoded.len() && !exbuf.done() {
        match exbuf.feed(encoded[i]) {
            Ok(()) => {
                out.extend_from_slice(exbuf.get());
                exbuf.reset();
            }
            Err(Error::IncompleteInput) => {
                i += 1;
            }
            Err(e) => return Err(e),
        }
    }
    out.extend_from_slice(exbuf.get());
    if exbuf.done() {
        Ok(out)
    } else {
        Err(Error::IncompleteInput)
    }
}

#[test]
fn decode_simple() {
    for (encoded, decoded) in examples() {
        let ours = decode(&encoded).unwrap();
        assert_eq!(decoded, ours);
    }
}

#[test]
fn decode_small() {
    let mut buf = [0; 1];
    for (encoded, decoded) in examples() {
        let ours = decode_with_buffer(&encoded, &mut buf).unwrap();
        assert_eq!(decoded, ours);
    }
}

#[test]
fn explode_simple() {
    for (encoded, decoded) in examples() {
        let ours = explode(&encoded).unwrap();
        assert_eq!(decoded, ours);
    }
}

#[test]
fn explode_small() {
    let mut buf = [0; 1];
    for (encoded, decoded) in examples() {
        let ours = explode_with_buffer(&encoded, &mut buf).unwrap();
        assert_eq!(decoded, ours);
    }
}

#[test]
fn explode_incomplete() {
    for (encoded, _) in examples() {
        let ours = explode(&encoded[..encoded.len() - 1]);
        match ours {
            Err(Error::IncompleteInput) => (),
            _ => panic!("incorrectly parsed incomplete input"),
        }
    }
}

#[test]
fn explode_extra() {
    for (encoded, decoded) in examples() {
        let mut encodedplus: Vec<u8> = encoded.iter().cloned().collect();
        encodedplus.push(42);
        let ours = explode(&encodedplus).unwrap();
        assert_eq!(decoded, ours);
    }
}

#[test]
fn explode_documented_stream() {
    let bytes = vec![0x00, 0x04, 0x82, 0x24, 0x25, 0x8f, 0x80, 0x7f];
    let result = explode(&bytes).unwrap();
    assert_eq!(result, "AIAIAIAIAIAIA".as_bytes());
    let mut buf: [u8; 1] = [0; 1];
    let result = explode_with_buffer(&bytes, &mut buf).unwrap();
    assert_eq!(result, "AIAIAIAIAIAIA".as_bytes());
}

#[test]
fn explode_every_truncation_is_incomplete() {
    for (encoded, _) in examples() {
        for keep in 0..encoded.len() {
            match explode(&encoded[..keep]) {
                Err(Error::IncompleteInput) => (),
                _ => panic!("a truncated stream was not reported incomplete"),
            }
        }
    }
}

#[test]
fn explode_ignores_any_trailing_bytes() {
    for (encoded, decoded) in examples() {
        let mut longer = encoded.clone();
        for extra in [0u8, 0xff, 1, 0x80, 42, 7] {
            longer.push(extra);
            assert_eq!(decoded, explode(&longer).unwrap());
        }
    }
}

#[test]
fn explode_buffer_size_does_not_matter() {
    for (encoded, decoded) in examples() {
        for size in [1usize, 2, 3, 7, 64, 4095, 4096, 10000] {
            let mut buf = vec![0u8; size];
            assert_eq!(decoded, explode_with_buffer(&encoded, &mut buf).unwrap());
            assert_eq!(decoded, decode_with_buffer(&encoded, &mut buf).unwrap());
        }
    }
}

#[test]
fn explode_with_an_empty_buffer() {
    for (encoded, decoded) in examples() {
        let mut buf = [0u8; 0];
        assert_eq!(decoded, explode_with_buffer(&encoded, &mut buf).unwrap());
        assert_eq!(decoded, decode_with_buffer(&encoded, &mut buf).unwrap());
    }
    let mut buf = [0u8; 0];
    assert!(matches!(explode_with_buffer(&[0, 9], &mut buf), Err(Error::BadDictionary)));
}

#[test]
fn explode_bytewise_matches_whole() {
    for (encoded, decoded) in examples() {
        for size in [1usize, 5, 4096] {
            assert_eq!(decoded, feed_bytewise(&encoded, size).unwrap());
        }
        assert_eq!(explode(&encoded).unwrap(), feed_bytewise(&encoded, 16).unwrap());
    }
}

#[test]
fn explode_window_holds_4096_bytes() {
    let decoded = explode(&window_stream()).unwrap();
    assert_eq!(decoded.len(), 6144);
    assert_eq!(decoded, expand(&window_tokens()));
}

#[test]
fn explode_empty_input_is_incomplete() {
    assert!(matches!(explode(&[]), Err(Error::IncompleteInput)));
    assert!(matches!(explode(&[0]), Err(Error::IncompleteInput)));
    assert!(matches!(explode(&[1, 6]), Err(Error::IncompleteInput)));
}

#[test]
fn explode_bad_literal_flag() {
    assert!(matches!(explode(&[2, 4, 0x82, 0x24]), Err(Error::BadLiteralFlag)));
    assert!(matches!(explode(&[2]), Err(Error::BadLiteralFlag)));
    assert!(matches!(explode(&[255, 7]), Err(Error::BadLiteralFlag)));
    assert!(matches!(feed_bytewise(&[2, 4], 8), Err(Error::BadLiteralFlag)));
}

#[test]
fn explode_bad_dictionary() {
    assert!(matches!(explode(&[0, 7, 0x82]), Err(Error::BadDictionary)));
    assert!(matches!(explode(&[0, 3, 0x82]), Err(Error::BadDictionary)));
    assert!(matches!(explode(&[1, 0]), Err(Error::BadDictionary)));
    assert!(matches!(decode(&[1, 255]), Err(Error::BadDictionary)));
}

#[test]
fn explode_bad_distance() {
    // one literal, then three bytes from two bytes back
    let early = vec![0x00, 0x04, 0x82, 0x7e, 0x04, 0xfc, 0x03];
    assert!(matches!(explode(&early), Err(Error::BadDistance)));
    assert!(matches!(decode(&early), Err(Error::BadDistance)));
    // 3627 bytes, then five bytes from 4096 bytes back
    let late = vec![
        0x00, 0x06, 0x82, 0x02, 0xfc, 0x07, 0x02, 0xfc, 0x07, 0x02, 0xfc, 0x07, 0x02, 0xfc, 0x07, 0x02,
        0xfc, 0x07, 0x02, 0xfc, 0x07, 0x02, 0xfc, 0x07, 0x1a, 0xe0, 0x0f, 0xf8, 0x07,
    ];
    assert!(matches!(explode(&late), Err(Error::BadDistance)));
    let mut buf = [0; 1];
    assert!(matches!(explode_with_buffer(&late, &mut buf), Err(Error::BadDistance)));
}

#[test]
fn explode_handle_reports_progress() {
    let encoded = vec![0x00, 0x04, 0x82, 0x24, 0x25, 0x8f, 0x80, 0x7f];
    let mut ex = Explode::new();
    assert!(!ex.done());
    let mut outbuf = [0u8; 4];
    let mut exbuf = ex.with_buffer(&mut outbuf);
    assert_eq!(exbuf.len(), 0);
    let mut i = 0;
    loop {
        match exbuf.feed(encoded[i]) {
            Ok(()) => break,
            Err(Error::IncompleteInput) => i += 1,
            Err(_) => panic!("the stream is valid"),
        }
    }
    // the buffer is full before the stream ends
    assert_eq!(exbuf.len(), 4);
    assert_eq!(exbuf.get(), b"AIAI");
    assert!(!exbuf.done());
    // a different byte is not looked at until more input is asked for
    assert!(exbuf.feed(0xff).is_ok());
    assert_eq!(exbuf.get(), b"AIAI");
    exbuf.reset();
    assert_eq!(exbuf.len(), 0);
    assert!(exbuf.get().is_empty());
    assert!(exbuf.feed(0xff).is_ok());
    assert_eq!(exbuf.get(), b"AIAI");
    assert!(ex.done() == false);
}

#[test]
fn error_messages() {
    assert_eq!(Error::IncompleteInput.message(), "unexpected end of input");
    assert_eq!(Error::BadLiteralFlag.message(), "literal flag not zero or one");
    assert_eq!(Error::BadDictionary.message(), "dictionary size not in 4..=6");
    assert_eq!(Error::BadDistance.message(), "distance is too far back");
    let io = std::io::Error::new(std::io::ErrorKind::Other, "disk on fire");
    let error = Error::from(io);
    assert!(matches!(error, Error::IO(_)));
    assert_eq!(error.message(), "disk on fire");
}
