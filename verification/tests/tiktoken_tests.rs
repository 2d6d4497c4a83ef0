use base64::Engine;
use bpe_codec::codec::CoreBPE;
use bpe_codec::loader::load_bpe;

fn pattern() -> String {
    r"(?i:'s|'t|'re|'ve|'m|'ll|'d)|[^\r\n\p{L}\p{N}]?\p{L}+|\p{N}{1,3}| ?[^\s\p{L}\p{N}]+[\r\n]*|\s*[\r\n]+|\s+(?!\S)|\s+".to_string()
}

/// A compact vocabulary: all 256 single bytes, plus the multi-byte tokens of
/// the test texts, each with the rank the cl100k table assigns it.
fn build_vocab_blob() -> Vec<u8> {
    let eng = base64::engine::general_purpose::STANDARD;
    let mut s = String::new();
    for b in 0u32..256u32 {
        let by = [b as u8];
        let rank = match b as u8 {
            0x21 => 0u32,
            0x20 => 220u32,
            _ => 100000 + b,
        };
        s.push_str(&format!("{} {}\n", eng.encode(by), rank));
    }
    for (tok, rank) in [("Hello", 9906u32), (" World", 4435u32), ("hello", 15339u32)] {
        s.push_str(&format!("{} {}\n", eng.encode(tok.as_bytes()), rank));
    }
    s.into_bytes()
}

fn load_special_bpe() -> Vec<(String, u32)> {
    vec![
        ("<|endoftext|>".to_string(), 100257),
        ("<|fim_prefix|>".to_string(), 100258),
        ("<|fim_middle|>".to_string(), 100259),
        ("<|fim_suffix|>".to_string(), 100260),
        ("<|endofprompt|>".to_string(), 100276),
        ("<|im_start|>".to_string(), 100264),
        ("<|im_end|>".to_string(), 100265),
    ]
}

fn build_codec() -> Result<CoreBPE, String> {
    CoreBPE::new(load_bpe(&build_vocab_blob())?, load_special_bpe(), &pattern())
}

#[test]
fn test_encode_tt() -> Result<(), String> {
    let tokenizer = build_codec()?;

    let result1 = tokenizer.encode("Hello World!");
    let tokens1 = result1.iter().map(|x| *x as u32).collect::<Vec<_>>();
    println!("Tokens: {:?}", tokens1);
    assert_eq!(tokens1, &[9906, 4435, 0], "Tokens should be [9906, 4435, 0]");

    let result2 = tokenizer.encode("hello <|endoftext|>");
    let tokens2 = result2.iter().map(|x| *x as u32).collect::<Vec<_>>();
    println!("Tokens: {:?}", tokens2);
    assert_eq!(tokens2, &[15339, 220, 100257], "Tokens should be [15339, 220, 100257]");

    Ok(())
}

#[test]
fn test_decode_tt() -> Result<(), String> {
    let tokenizer = build_codec()?;

    let result1 = tokenizer.decode(&[9906, 4435, 0])?;
    let string1 = String::from_utf8_lossy(&result1);
    println!("String: {:?}", string1);
    assert_eq!(string1, "Hello World!", "String should be \"Hello World!\"");

    let result2 = tokenizer.decode(&[15339, 220, 100257])?;
    let string2 = String::from_utf8_lossy(&result2);
    println!("String: {:?}", string2);
    assert_eq!(string2, "hello <|endoftext|>", "String should be \"hello <|endoftext|>\"");

    Ok(())
}

#[test]
fn test_round_trip_no_specials() -> Result<(), String> {
    let tokenizer = build_codec()?;
    for text in ["Hello World!", "hello there, friend", "  spaces \t and\nnewlines\n", ""] {
        let tokens = tokenizer.encode(text);
        let back = tokenizer.decode(&tokens)?;
        assert_eq!(back, text.as_bytes(), "round trip must return the input text");
    }
    Ok(())
}

#[test]
fn test_encode_deterministic() -> Result<(), String> {
    let tokenizer = build_codec()?;
    let a = tokenizer.encode("hello <|endoftext|> Hello World!");
    let b = tokenizer.encode("hello <|endoftext|> Hello World!");
    assert_eq!(a, b, "repeated encodes must agree");
    Ok(())
}

#[test]
fn test_construction_missing_byte_fails() {
    // A vocabulary lacking one single-byte entry must be refused.
    let eng = base64::engine::general_purpose::STANDARD;
    let mut s = String::new();
    for b in 0u32..255u32 {
        let by = [b as u8];
        s.push_str(&format!("{} {}\n", eng.encode(by), 1000 + b));
    }
    let r = CoreBPE::new(
        load_bpe(s.as_bytes()).unwrap(),
        load_special_bpe(),
        &pattern(),
    );
    assert!(r.is_err(), "construction must fail without full byte coverage");
}

#[test]
fn test_construction_duplicate_rank_fails() {
    let eng = base64::engine::general_purpose::STANDARD;
    let mut s = String::new();
    for b in 0u32..256u32 {
        let by = [b as u8];
        s.push_str(&format!("{} {}\n", eng.encode(by), 1000 + b));
    }
    // Two distinct keys sharing one rank corrupt the decoder.
    s.push_str(&format!("{} {}\n", eng.encode("ab".as_bytes()), 1000));
    let r = CoreBPE::new(load_bpe(s.as_bytes()).unwrap(), load_special_bpe(), &pattern());
    assert!(r.is_err(), "construction must fail on a duplicate rank");
}

#[test]
fn test_construction_bad_pattern_fails() {
    let r = CoreBPE::new(load_bpe(&build_vocab_blob()).unwrap(), load_special_bpe(), "(unclosed");
    assert!(r.is_err(), "construction must fail on an invalid pattern");
}

#[test]
fn test_construction_empty_special_fails() {
    let r = CoreBPE::new(
        load_bpe(&build_vocab_blob()).unwrap(),
        vec![(String::new(), 7)],
        &pattern(),
    );
    assert!(r.is_err(), "construction must refuse an empty special literal");
}

#[test]
fn test_duplicate_key_last_wins() -> Result<(), String> {
    let eng = base64::engine::general_purpose::STANDARD;
    let mut s = String::from_utf8(build_vocab_blob()).unwrap();
    // A later record for the same bytes silently overwrites the earlier one.
    s.push_str(&format!("{} {}\n", eng.encode("Hello".as_bytes()), 424242));
    let tokenizer = CoreBPE::new(load_bpe(s.as_bytes())?, load_special_bpe(), &pattern())?;
    let tokens = tokenizer.encode("Hello World!");
    assert_eq!(tokens, &[424242, 4435, 0]);
    Ok(())
}

#[test]
fn test_decode_unknown_rank_fails() -> Result<(), String> {
    let tokenizer = build_codec()?;
    assert!(tokenizer.decode(&[9906, 999999]).is_err(), "an unknown rank is a decode error");
    Ok(())
}

#[test]
fn test_encode_with_unstable_mid_word() -> Result<(), String> {
    let tokenizer = build_codec()?;
    let text = "Hello Wor";
    let (stable, completions) = tokenizer.encode_with_unstable(text);
    assert!(!completions.is_empty(), "a text ending mid-word has completions");

    // The unstable bytes are what the full encoding holds beyond the stable
    // tokens.
    let full = tokenizer.decode(&tokenizer.encode(text))?;
    let stable_bytes = tokenizer.decode(&stable)?;
    assert!(full.starts_with(&stable_bytes));
    let unstable_bytes = &full[stable_bytes.len()..];
    assert!(!unstable_bytes.is_empty());

    // Every completion extends the unstable bytes.
    for c in &completions {
        let ext = tokenizer.decode(c)?;
        assert!(
            ext.starts_with(unstable_bytes),
            "completion must extend the unstable bytes"
        );
    }

    // " World" extends " Wor" as a single token.
    assert!(completions.iter().any(|c| c == &vec![4435u32]));
    Ok(())
}

#[test]
fn test_encode_with_unstable_after_special() -> Result<(), String> {
    let tokenizer = build_codec()?;
    let (stable, completions) = tokenizer.encode_with_unstable("hello <|endoftext|>");
    assert_eq!(stable, vec![15339, 220, 100257]);
    assert!(completions.is_empty(), "text ending on a special token has no unstable bytes");
    Ok(())
}

#[test]
fn test_encode_with_unstable_trailing_whitespace() -> Result<(), String> {
    let tokenizer = build_codec()?;
    let (stable, completions) = tokenizer.encode_with_unstable("Hello W  ");
    let stable_bytes = tokenizer.decode(&stable)?;
    assert!("Hello W  ".as_bytes().starts_with(&stable_bytes));
    // Both trailing spaces are unstable, and the completion splitting them
    // apart is offered.
    assert!(completions.iter().any(|c| c == &vec![220u32, 220u32]));
    for c in &completions {
        assert!(tokenizer.decode(c).is_ok());
    }
    Ok(())
}
