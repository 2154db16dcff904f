use gptube::config::{decode_config, encode_config, Config};

#[test]
fn write_then_read_round_trip() {
    let c = Config {
        api_key: String::from("sk-test-key"),
        sub_lang: String::from("en"),
        custom_prompt: String::from("Summarize this video"),
        allow_whisper: String::from("true"),
    };
    let text = encode_config(&c);
    let back = decode_config(&text).expect("decoding an encoded record must succeed");
    assert_eq!(back.api_key, "sk-test-key");
    assert_eq!(back.sub_lang, "en");
    assert_eq!(back.custom_prompt, "Summarize this video");
    assert_eq!(back.allow_whisper, "true");
}

#[test]
fn round_trip_with_escaped_characters() {
    let c = Config {
        api_key: String::from("a\"b\\c"),
        sub_lang: String::from("fr"),
        custom_prompt: String::from("line one\nline two\ttabbed\rreturned"),
        allow_whisper: String::from("false"),
    };
    let text = encode_config(&c);
    let back = decode_config(&text).expect("decoding an encoded record must succeed");
    assert_eq!(back.api_key, c.api_key);
    assert_eq!(back.sub_lang, c.sub_lang);
    assert_eq!(back.custom_prompt, c.custom_prompt);
    assert_eq!(back.allow_whisper, c.allow_whisper);
}

#[test]
fn encoded_record_has_expected_shape() {
    let c = Config {
        api_key: String::from("k"),
        sub_lang: String::from("en"),
        custom_prompt: String::from("p"),
        allow_whisper: String::from("true"),
    };
    let text = encode_config(&c);
    assert_eq!(
        text,
        "{\"api_key\":\"k\",\"sub_lang\":\"en\",\"custom_prompt\":\"p\",\"allow_whisper\":\"true\"}"
    );
}

#[test]
fn encoded_record_is_real_json() {
    let c = Config {
        api_key: String::from("a\"b\\c"),
        sub_lang: String::from("en"),
        custom_prompt: String::from("one\ntwo"),
        allow_whisper: String::from("true"),
    };
    let text = encode_config(&c);
    let v: serde_json::Value = serde_json::from_str(&text).expect("the record must parse as JSON");
    assert_eq!(v["api_key"].as_str(), Some("a\"b\\c"));
    assert_eq!(v["sub_lang"].as_str(), Some("en"));
    assert_eq!(v["custom_prompt"].as_str(), Some("one\ntwo"));
    assert_eq!(v["allow_whisper"].as_str(), Some("true"));
}

#[test]
fn handwritten_record_decodes() {
    let text = "{\"api_key\":\"sk\",\"sub_lang\":\"es\",\"custom_prompt\":\"Criticize this video\",\"allow_whisper\":\"false\"}";
    let c = decode_config(text).expect("a well-formed record must decode");
    assert_eq!(c.api_key, "sk");
    assert_eq!(c.sub_lang, "es");
    assert_eq!(c.custom_prompt, "Criticize this video");
    assert_eq!(c.allow_whisper, "false");
}

#[test]
fn malformed_records_are_rejected() {
    assert!(decode_config("").is_none());
    assert!(decode_config("not json at all").is_none());
    assert!(decode_config("{\"api_key\":\"k\"}").is_none());
    assert!(decode_config("{\"api_key\":\"k\",\"sub_lang\":\"en\",\"custom_prompt\":\"p\",\"allow_whisper\":\"true\"").is_none());
    assert!(decode_config("{\"api_key\":\"k\\x\",\"sub_lang\":\"en\",\"custom_prompt\":\"p\",\"allow_whisper\":\"true\"}").is_none());
}
