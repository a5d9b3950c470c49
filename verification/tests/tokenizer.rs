use h3_hrx::capi::h3_tokenizer;
use h3_hrx::tokenizer::{ids_of, Tokenizer};
use h3_hrx::charsmap::{kind, Kind};
use h3_hrx::vocabulary::fitness;

/// The 256 characters a byte-level vocabulary spells bytes with.
fn alphabet() -> Vec<char> {
    let shown = |b: u32| (33..=126).contains(&b) || (161..=172).contains(&b) || (174..=255).contains(&b);
    let mut next = 256;
    (0..256)
        .map(|b| {
            if shown(b) {
                char::from_u32(b).unwrap()
            } else {
                next += 1;
                char::from_u32(next - 1).unwrap()
            }
        })
        .collect()
}

/// A byte-level vocabulary of single bytes and one merge, with two added tokens its template puts around
/// a text that is encoded with special tokens.
fn vocabulary() -> String {
    let mut vocab = String::new();
    for (id, c) in alphabet().into_iter().enumerate() {
        let key = match c {
            '"' => "\\\"".to_string(),
            '\\' => "\\\\".to_string(),
            c => c.to_string(),
        };
        vocab.push_str(&format!("\"{key}\":{id},"));
    }
    vocab.push_str("\"he\":256");
    let added = |id: usize, content: &str| {
        format!(
            "{{\"id\":{id},\"content\":\"{content}\",\"single_word\":false,\"lstrip\":false,\
             \"rstrip\":false,\"normalized\":false,\"special\":true}}"
        )
    };
    format!(
        "{{\"version\":\"1.0\",\"truncation\":null,\"padding\":null,\"added_tokens\":[{},{}],\
         \"normalizer\":null,\
         \"pre_tokenizer\":{{\"type\":\"ByteLevel\",\"add_prefix_space\":false,\"trim_offsets\":false,\"use_regex\":false}},\
         \"post_processor\":{{\"type\":\"BertProcessing\",\"sep\":[\"<end>\",258],\"cls\":[\"<begin>\",257]}},\
         \"decoder\":null,\
         \"model\":{{\"type\":\"BPE\",\"dropout\":null,\"unk_token\":null,\"continuing_subword_prefix\":null,\
         \"end_of_word_suffix\":null,\"fuse_unk\":false,\"byte_fallback\":false,\"vocab\":{{{vocab}}},\
         \"merges\":[\"h e\"]}}}}",
        added(257, "<begin>"),
        added(258, "<end>"),
    )
}

fn tok() -> Tokenizer {
    match Tokenizer::from_bytes(vocabulary().as_bytes()) {
        Ok(t) => t,
        Err(e) => panic!("{}", e.message()),
    }
}

#[test]
fn a_vocabulary_is_counted_with_its_added_tokens() {
    assert_eq!(tok().vocab_size(), 259);
    assert_eq!(tok().id_bound(), 259);
    // a vocabulary with a gap holds fewer tokens than its largest id
    let gap = vocabulary().replace("\"he\":256", "\"he\":300");
    let t = match Tokenizer::from_bytes(gap.as_bytes()) {
        Ok(t) => t,
        Err(e) => panic!("{}", e.message()),
    };
    assert_eq!((t.vocab_size(), t.id_bound()), (259, 301));
    assert_eq!(h3_tokenizer { inner: t }.vocab_size(), 301);
}

#[test]
fn a_text_is_spelled_with_the_vocabularys_merges() {
    let t = tok();
    let byte = |c: char| c as i32;
    assert_eq!(
        t.encode("he he").unwrap(),
        vec![256, byte(' '), 256]
    );
    assert!(t.encode("").unwrap().is_empty());
    // an added token in the text is that token
    assert_eq!(t.encode("<end>h").unwrap(), vec![258, byte('h')]);
}

#[test]
fn adds_no_special_tokens() {
    // The caller builds the presentation, so nothing may be prepended or appended.
    let t = tok();
    let a = t.encode("hello").unwrap();
    let b = t.encode("hello world").unwrap();
    assert_eq!(&b[..a.len()], &a[..], "a prefix must tokenize as a prefix here");
    assert!(!b.contains(&257) && !b.contains(&258));
}

#[test]
fn round_trips_unicode_and_emoji() {
    let t = tok();
    for text in [
        "Café naïve résumé, Zürich, São Paulo: 日本語のテキスト and 🎬🔥",
        "\t\ttabs\n\nnewlines",
    ] {
        let ids = t.encode(text).unwrap();
        assert!(!ids.is_empty(), "{text:?}");
        assert!(ids.iter().all(|id| *id >= 0));
    }
}

#[test]
fn what_is_no_vocabulary_is_refused_in_the_parsers_words() {
    for bytes in [&b""[..], b"{}", b"not json"] {
        let message = Tokenizer::from_bytes(bytes).err().unwrap().message();
        assert!(message.starts_with("tokenizer: ") && message.len() > 11, "{message}");
    }
}

#[test]
fn a_vocabulary_that_would_cut_texts_without_moving_on_encodes_none() {
    let cutting = |max_length: usize, stride: usize| {
        let cut = format!(
            "\"truncation\":{{\"direction\":\"Right\",\"max_length\":{max_length},\
             \"strategy\":\"LongestFirst\",\"stride\":{stride}}}"
        );
        let json = vocabulary().replace("\"truncation\":null", &cut);
        match Tokenizer::from_bytes(json.as_bytes()) {
            Ok(t) => t,
            Err(e) => panic!("{}", e.message()),
        }
    };
    assert!(tok().encodes());
    let t = cutting(3, 1);
    assert!(t.encodes());
    assert_eq!(t.encode("hello").unwrap(), vec![256, 'l' as i32, 'l' as i32]);
    assert!(!cutting(3, 3).encodes());
    assert_eq!(h3_tokenizer { inner: cutting(3, 3) }.encode("hello", 8), (-1, vec![]));
}

#[test]
fn ids_are_the_models_own_integers() {
    assert_eq!(ids_of(&[0, 5, 151_000]), vec![0, 5, 151_000]);
}

#[test]
fn the_boundary_reports_the_count_even_past_the_buffer() {
    let t = h3_tokenizer { inner: tok() };
    assert_eq!(t.vocab_size(), 259);
    let (count, ids) = t.encode("hello", 2);
    assert_eq!(count, 4);
    assert_eq!(ids, vec![256, 'l' as i32]);
    let (count, ids) = t.encode("hello", 16);
    assert_eq!((count, ids.len()), (4, 4));
}

fn is_read(json: &str) -> bool {
    fitness(json.as_bytes()).read
}

/// Whether a document is read, though no text is encoded with it: neither here nor at the boundary.
fn encodes_none(json: &str) -> bool {
    let fit = fitness(json.as_bytes());
    let t = match Tokenizer::from_bytes(json.as_bytes()) {
        Ok(t) => t,
        Err(_) => return false,
    };
    fit.read && !fit.encodes && !t.encodes() && h3_tokenizer { inner: t }.encode("he", 8) == (-1, vec![])
}

/// What a document makes of a text, where texts are encoded with it.
fn encoded(json: &str, text: &str) -> Option<Vec<i32>> {
    let fit = fitness(json.as_bytes());
    let t = Tokenizer::from_bytes(json.as_bytes()).ok()?;
    assert!(fit.read && fit.encodes == t.encodes());
    if t.encodes() {
        t.encode(text).ok()
    } else {
        None
    }
}

/// The vocabulary with one part of it put in another's place.
fn with(from: &str, to: &str) -> String {
    let json = vocabulary();
    assert!(json.contains(from), "{from}");
    json.replace(from, to)
}

#[test]
fn a_document_that_is_no_json_is_not_read() {
    assert!(is_read(&vocabulary()));
    for json in ["{\"decoder\": {", "{\"decoder\": {}", "{} {}", "[1,]", "{\"a\":}", "\"\\x\"", "01", "tru"] {
        assert!(!is_read(json), "{json}");
        let message = Tokenizer::from_bytes(json.as_bytes()).err().unwrap().message();
        assert_eq!(message, "tokenizer: not a vocabulary that can be read");
    }
    for json in ["{}", " [ ] ", "[1, -0.5e+10, true, false, null, \"\\ud83d\\udd25\\n\"]", "\"x\"", "1e999"] {
        assert!(is_read(json), "{json}");
        assert!(Tokenizer::from_bytes(json.as_bytes()).is_err(), "{json}");
    }
}

#[test]
fn a_decoder_the_parser_gives_up_on_is_not_read() {
    let decoder = |json: &str| with("\"decoder\":null", &format!("\"decoder\":{json}"));
    for json in ["\"\\ud800\"", "{\"\\udc00\":1}", "1e999", "[-1E+400]"] {
        assert!(!is_read(&decoder(json)), "{json}");
    }
    let nested = |n: usize| decoder(&format!("{}{}", "[".repeat(n), "]".repeat(n)));
    assert!(is_read(&nested(126)) && !is_read(&nested(127)));
    assert!(Tokenizer::from_bytes(nested(126).as_bytes()).is_err());
    let mut bytes = decoder("\"?\"").into_bytes();
    let at = bytes.windows(3).position(|w| w == b"\"?\"").unwrap();
    assert!(fitness(&bytes).read);
    bytes[at + 1] = 0xff;
    assert!(!fitness(&bytes).read);
    // elsewhere the parser is asked, and takes what it does not look at as it is
    let ignored = "\"truncation\":{\"max_length\":9,\"strategy\":\"LongestFirst\",\"stride\":0,\"x\":[\"\\ud800\",1e999]}";
    assert_eq!(encoded(&with("\"truncation\":null", ignored), "he"), Some(vec![256]));
    assert_eq!(
        encoded(&decoder("{\"type\":\"ByteLevel\",\"add_prefix_space\":true,\"trim_offsets\":true,\"use_regex\":true}"), "he"),
        Some(vec![256])
    );
}

fn base64(bytes: &[u8]) -> String {
    let digits = b"ABCDEFGHIJKLMNOPQRSTUVWXYZabcdefghijklmnopqrstuvwxyz0123456789+/";
    let mut out = String::new();
    for three in bytes.chunks(3) {
        let at = |i: usize| three.get(i).copied().unwrap_or(0) as usize;
        let v = at(0) * 65536 + at(1) * 256 + at(2);
        for i in 0..4 {
            if i <= three.len() {
                out.push(digits[v >> (18 - 6 * i) & 63] as char);
            } else {
                out.push('=');
            }
        }
    }
    out
}

/// A table that leads from `A`, by way of a unit that is reached from the first one, to a text.
fn table(first: u32, value: u32, texts: &[u8]) -> String {
    let mut units = vec![0u32; 256];
    units[0] = first << 10;
    units[(1 ^ 0x41) as usize] = 0x41 | 1 << 8 | ((0x40 ^ 0x80) << 10);
    units[0x80] = 1 << 31 | value;
    let mut bytes = 1024u32.to_le_bytes().to_vec();
    for unit in units {
        bytes.extend_from_slice(&unit.to_le_bytes());
    }
    bytes.extend_from_slice(texts);
    base64(&bytes)
}

#[test]
fn a_table_is_told_from_its_text() {
    assert_eq!(kind(table(1, 0, b"B\0").as_bytes()), Kind::Sound);
    assert_eq!(kind(table(1, 2, b"B\0").as_bytes()), Kind::Sound);
    // a text past the texts, one inside a character, and a unit past the units
    assert_eq!(kind(table(1, 3, b"B\0").as_bytes()), Kind::Astray);
    assert_eq!(kind(table(1, 1, "\u{e9}\0".as_bytes()).as_bytes()), Kind::Astray);
    assert_eq!(kind(table(256, 0, b"B\0").as_bytes()), Kind::Astray);
    assert_eq!(kind(b"AAAAAA=="), Kind::Astray);
    for text in ["", "AAA", "AAAAAB==", "AAAA", "@@@@", "BAAAAA==", "AAAAAP8=", "AAAA=AA="] {
        assert_eq!(kind(text.as_bytes()), Kind::Broken, "{text}");
    }
}

#[test]
fn a_precompiled_normalizer_is_read_with_its_table() {
    let normalizer = |json: &str| with("\"normalizer\":null", &format!("\"normalizer\":{json}"));
    let precompiled = |text: &str| {
        format!("{{\"type\":\"Precompiled\",\"precompiled_charsmap\":\"{text}\"}}")
    };
    let byte = |c: char| c as i32;
    let sound = normalizer(&precompiled(&table(1, 0, b"B\0")));
    assert_eq!(encoded(&sound, "AhA"), Some(vec![byte('B'), byte('h'), byte('B')]));
    let sequence = format!(
        "{{\"type\":\"Sequence\",\"normalizers\":[{},{}]}}",
        precompiled(&table(1, 0, b"B\0")),
        "{\"type\":\"Replace\",\"pattern\":{\"Regex\":\" {2,}\"},\"content\":\"_\"}"
    );
    assert_eq!(encoded(&normalizer(&sequence), "A  A"), Some(vec![byte('B'), byte('_'), byte('B')]));
    // a search in this one goes past its units
    let astray = normalizer(&precompiled(&table(256, 0, b"B\0")));
    assert!(encodes_none(&astray));
    assert!(!is_read(&astray.replace("\"normalized\":false", "\"normalized\":true")));
    for json in [
        precompiled("@@"),
        precompiled("AAAA"),
        "{\"type\":\"\\u0050recompiled\",\"precompiled_charsmap\":\"@@\"}".to_string(),
        "{\"type\":{\"Precompiled\":null},\"precompiled_charsmap\":\"@@\"}".to_string(),
        "{\"type\":\"Sequence\",\"normalizers\":[{\"type\":\"Precompiled\"}]}".to_string(),
    ] {
        assert!(!is_read(&normalizer(&json)), "{json}");
    }
}

#[test]
fn with_a_normalizer_that_would_panic_nothing_is_encoded() {
    let normalizer = |json: &str| with("\"normalizer\":null", &format!("\"normalizer\":{json}"));
    for json in [
        "{\"type\":\"Replace\",\"pattern\":{\"Regex\":\"^\"},\"content\":\"x\"}",
        "{\"type\":\"Replace\",\"pattern\":{\"String\":\"\"},\"content\":\"x\"}",
        "{\"type\":\"Prepend\",\"prepend\":\"\"}",
        "[true,true]",
    ] {
        assert!(encodes_none(&normalizer(json)), "{json}");
        assert!(!is_read(&normalizer(json).replace("\"normalized\":false", "\"normalized\":true")), "{json}");
    }
    for json in [
        "{\"type\":\"NFC\"}",
        "{\"type\":\"Sequence\",\"normalizers\":[{\"type\":\"NFKC\"},{\"type\":\"Lowercase\"}]}",
        "{\"type\":\"Replace\",\"pattern\":{\"String\":\"a\"},\"content\":\"\"}",
        "{\"type\":\"Replace\",\"pattern\":{\"Regex\":\"x+\"},\"content\":\"\"}",
        "{\"type\":\"Prepend\",\"prepend\":\"_\"}",
        "{\"type\":\"Strip\",\"strip_left\":true,\"strip_right\":true}",
    ] {
        assert!(encoded(&normalizer(json), " \u{e9}h\u{e9}").is_some(), "{json}");
    }
    // an added token that is looked for in normalized texts must not be normalized away
    let normalized = |json: &str| normalizer(json).replace("\"normalized\":false", "\"normalized\":true");
    let strip = normalized("{\"type\":\"Strip\",\"strip_left\":true,\"strip_right\":true}");
    assert_eq!(encoded(&strip, "he<end>"), Some(vec![256, 258]));
    assert!(encodes_none(&strip.replace("<end>\",\"single", "\u{3000}\",\"single")));
    let replace = |content: &str| {
        normalized(&format!(
            "{{\"type\":\"Replace\",\"pattern\":{{\"String\":\"a\"}},\"content\":\"{content}\"}}"
        ))
    };
    assert!(encodes_none(&replace("")) && encodes_none(&replace(" ")));
    assert_eq!(encoded(&replace("_"), "he<end>"), Some(vec![256, 258]));
    assert!(encoded(&normalized("{\"type\":\"NFC\"}"), "\u{e9}<end>").is_some());
}

#[test]
fn with_a_vocabulary_that_would_panic_on_a_text_nothing_is_encoded() {
    let pre = "{\"type\":\"ByteLevel\",\"add_prefix_space\":false,\"trim_offsets\":false,\"use_regex\":false}";
    let fixed = |n: &str| with(pre, &format!("{{\"type\":\"FixedLength\",\"length\":{n}}}"));
    assert!(encodes_none(&fixed("0")));
    assert_eq!(encoded(&fixed("2"), "hehe"), Some(vec![256, 256]));
    let split = |regex: &str| {
        with(
            pre,
            &format!("{{\"type\":\"Split\",\"pattern\":{{\"Regex\":\"{regex}\"}},\"behavior\":\"Isolated\",\"invert\":false}}"),
        )
    };
    assert!(encodes_none(&split("(?=a\\\\K)")) && encoded(&split("\\\\s+"), "he").is_some());
    // a backslash that is one, and then a letter
    assert!(encoded(&split("\\\\\\\\K"), "he").is_some());
    let post = "{\"type\":\"BertProcessing\",\"sep\":[\"<end>\",258],\"cls\":[\"<begin>\",257]}";
    let template = |single: &str| {
        format!(
            "{{\"type\":\"TemplateProcessing\",\"single\":[{{\"Sequence\":{{\"id\":\"{single}\",\"type_id\":0}}}}],\
             \"pair\":[{{\"Sequence\":{{\"id\":\"A\",\"type_id\":0}}}},{{\"Sequence\":{{\"id\":\"B\",\"type_id\":1}}}}],\
             \"special_tokens\":{{}}}}"
        )
    };
    assert!(encodes_none(&with(post, &template("B"))));
    assert_eq!(encoded(&with(post, &template("A")), "he"), Some(vec![256]));
    let two = format!("{{\"type\":\"Sequence\",\"processors\":[{},{}]}}", template("A"), template("A"));
    assert!(encodes_none(&with(post, &two)));
    let pad = |n: &str, id: &str| {
        with(
            "\"padding\":null",
            &format!(
                "\"padding\":{{\"strategy\":{{\"Fixed\":{n}}},\"direction\":\"Right\",\"pad_to_multiple_of\":null,\
                 \"pad_id\":{id},\"pad_type_id\":0,\"pad_token\":\"!\"}}"
            ),
        )
    };
    assert!(encodes_none(&pad("18446744073709551615", "0")));
    assert_eq!(encoded(&pad("4", "1000000000"), "he"), Some(vec![256, 1_000_000_000, 1_000_000_000, 1_000_000_000]));
    // blanks are taken on one side only, where a token is nothing else
    let both = vocabulary().replace("\"lstrip\":false,\"rstrip\":false", "\"lstrip\":true,\"rstrip\":true");
    assert_eq!(encoded(&both, "<end> <end>he"), Some(vec![258, 258, 256]));
    assert!(encodes_none(&both.replace("<end>\",\"single", " \",\"single")));
}

#[test]
fn a_merge_longer_than_every_token_is_not_read() {
    // what a merge makes is as long as another token, but none
    assert!(Tokenizer::from_bytes(with("\"he\":256", "\"hx\":256").as_bytes()).is_err());
    assert!(is_read(&with("[\"h e\"]", "[[\"h\",\"e\"]]")));
    assert!(!is_read(&with("[\"h e\"]", "[[\"he\",\"e\"]]")));
    assert_eq!(encoded(&with("[\"h e\"]", "[[\"\\u0068\",\"e\"]]"), "he"), Some(vec![256]));
    // a line that names a version is no merge
    assert_eq!(encoded(&with("[\"h e\"]", "[\"#version: 0.2\",\"h e\"]"), "he"), Some(vec![256]));
    // what is given twice is not read
    assert!(!is_read(&with("\"fuse_unk\":false", "\"merges\":[]")));
    // a prefix is taken off the second side, which has to have it
    let prefix = "\"continuing_subword_prefix\":null";
    assert!(!is_read(&with(prefix, "\"continuing_subword_prefix\":\"##\"")));
    assert!(is_read(&with(prefix, "\"continuing_subword_prefix\":\"\"")));
    let taken = with(prefix, "\"continuing_subword_prefix\":\"#\"")
        .replace("\"he\":256", "\"he\":256,\"#e\":259")
        .replace("[\"h e\"]", "[[\"h\",\"#e\"]]");
    assert_eq!(encoded(&taken, "he"), Some(vec![256]));
}

#[test]
fn encoding_leaves_nothing_to_chance_but_what_is_dropped() {
    assert!(fitness(vocabulary().as_bytes()).steady);
    let t = tok();
    assert_eq!(t.encode("hehehe").unwrap(), tok().encode("hehehe").unwrap());
    let drops = with("\"dropout\":null", "\"dropout\":0.5");
    let fit = fitness(drops.as_bytes());
    assert!(fit.read && fit.encodes && !fit.steady);
    // whatever is dropped, the text is spelled
    let t = Tokenizer::from_bytes(drops.as_bytes()).ok().unwrap();
    let ids = t.encode("he").unwrap();
    assert!(ids == vec![256] || ids == vec!['h' as i32, 'e' as i32]);
    // a token of that name is no drop
    assert!(fitness(with("\"he\":256", "\"he\":256,\"dropout\":259").as_bytes()).steady);
}
