use algc_codec::codec::{encode_decode_long_string, Codec, CodecError, Triple};
use integer_encoding::{FixedInt, VarIntReader, VarIntWriter};
use rand::distributions::Alphanumeric;
use rand::Rng;
use std::io::{Read, Write};

fn triple(offset: u32, len: u32, char_value: char) -> Triple {
    Triple {
        offset,
        len,
        char_value,
    }
}

fn round_trip(input: &str, window: Option<usize>) -> String {
    let encoded = Codec::encode(input.to_string(), window);
    Codec::decode(encoded).unwrap()
}

#[test]
fn test_encode_decode_bytes() {
    let input_str = "aaabbbccc|$%678";
    let encode_triple: Vec<Vec<u8>> = Codec::encode(input_str.to_string(), None)
        .iter()
        .map(|t| t.to_bytes())
        .collect();
    println!("encode_triple = {:?}", encode_triple);
    let triples: Vec<Triple> = encode_triple
        .iter()
        .map(|bytes| Triple::from_bytes(bytes).unwrap())
        .collect();
    let decode_str = Codec::decode(triples).unwrap();
    println!(
        "input_string = {}, decode_string = {}",
        input_str, decode_str
    );
    assert_eq!(input_str, decode_str);
}

#[test]
fn test_encode_decode() {
    let input_str = "aaa";
    let encode_triple = Codec::encode(input_str.to_string(), None);
    println!("encode_triple={:?}", encode_triple);
    let decode_str = Codec::decode(encode_triple).unwrap();
    println!("decode_res = {}", decode_str);
    assert_eq!(decode_str, input_str);
}

#[test]
fn test_emoji() {
    let emoji_str = "\u{f0}\u{178}\u{2dc}\u{201c}\u{f0}\u{178}\u{2018}\u{152}\u{f0}\u{178}\u{bb}\u{f0}\u{178}\u{2018}\u{152}\u{f0}\u{178}\u{bb}\u{f0}\u{178}\u{2dc}\u{ad}\u{f0}\u{178}\u{2dc}\u{ad}\u{f0}\u{178}\u{2dc}\u{f0}\u{178}\u{2dc}\u{f0}\u{178}\u{2018}\u{152}\u{f0}\u{178}\u{bb}";
    println!("input_emoji={:?}", emoji_str);
    let encode_triple = Codec::encode(emoji_str.to_string(), None);
    let decode_emoji_str = Codec::decode(encode_triple).unwrap();
    println!("decode_emoji={:?}", decode_emoji_str);
    assert_eq!(emoji_str, decode_emoji_str);
}

#[test]
fn test_rand_string_encode_decode() {
    for _ in 0..1000 {
        let rand_str: String = rand::thread_rng()
            .sample_iter(&Alphanumeric)
            .take(13)
            .map(char::from)
            .collect();
        println!("random_str = {}", rand_str);
        let encode_triple = Codec::encode(rand_str.clone(), Some(4));
        let decode_str = Codec::decode(encode_triple).unwrap();
        println!("decode_str = {}", decode_str.clone());
        assert_eq!(rand_str, decode_str);
    }
}

#[test]
fn test_one_paragraph() {
    let paragraph = "We define a function in Rust by entering fn followed by a function\n        name and a set of parentheses. The curly brackets tell the compiler where the function body\n        begins and ends. We can call any function we\u{e2}\u{20ac}\u{2122}ve defined by entering its name followed by a\n        set of parentheses. Because another_function is defined in the program, it can be called\n        from inside the main function. Note that we defined another_function after the main\n        function in the source code; we could have defined it before as well. Rust doesnt\n        care where you define your functions, only that theyre defined somewhere.";
    let codec_triple = Codec::encode(paragraph.to_string(), Some(10));
    let decode_str = Codec::decode(codec_triple).unwrap();
    assert_eq!(paragraph.to_string(), decode_str);
}

#[test]
fn test_multi_encode_decode() {
    let raw_input_vec = vec![
        "a",
        "aaabbb",
        "ababcbababaa",
        "ababcbababacbaaa",
        "0123456789999",
        "ABCDEFGHIJKLMNOPQRSTUVWXYZ",
    ];
    for input in raw_input_vec {
        let input_str = input.to_string();
        let codec_triple = Codec::encode(input_str.clone(), Some(3));
        println!("code_triple = {:#?}", codec_triple);
        let decode_str = Codec::decode(codec_triple).unwrap();
        println!("decode_str = {}", decode_str.clone());
        assert_eq!(input_str, decode_str.as_str());
    }
}

#[test]
fn test_encode() {
    let expect_codec_triple = vec![
        triple(0, 0, 'a'),
        triple(0, 0, 'b'),
        triple(2, 2, 'c'),
        triple(4, 3, 'a'),
        triple(8, 2, 'a'),
    ];
    let codec_triple = Codec::encode("ababcbababaa".to_string(), None);
    for (pos, triple) in codec_triple.iter().enumerate() {
        assert_eq!(triple.clone(), expect_codec_triple[pos]);
    }
}

#[test]
fn test_decode() {
    let encode_vec = vec![
        (0, 0, 'a'),
        (0, 0, 'b'),
        (2, 2, 'c'),
        (4, 3, 'a'),
        (8, 2, 'a'),
    ];
    let triple_values: Vec<Triple> = encode_vec
        .iter()
        .map(|tuple| Triple {
            offset: tuple.0,
            len: tuple.1,
            char_value: tuple.2,
        })
        .collect();
    let raw_str = Codec::decode(triple_values).unwrap();
    println!("raw_str = {:?}", raw_str);
    assert_eq!("ababcbababaa", raw_str);
}

#[test]
fn test_triple_to_bytes() {
    let triple = Triple {
        offset: 0,
        len: 0,
        char_value: 'A',
    };

    let char_len = triple.char_value.len_utf8();
    let mut triple_bytes_buf = Vec::with_capacity(128);

    assert!(triple_bytes_buf.write_varint(triple.offset as u32).is_ok());
    assert!(triple_bytes_buf.write_varint(triple.len as u32).is_ok());
    let mut char_fixed_vec = vec![0; char_len];
    char_len.encode_fixed_vec();
    triple.char_value.encode_utf8(&mut char_fixed_vec);
    assert!(triple_bytes_buf.write_all(&char_fixed_vec).is_ok());

    let mut reader: &[u8] = triple_bytes_buf.as_ref();
    let offset = reader.read_varint::<u32>().unwrap();
    let len = reader.read_varint::<u32>().unwrap();

    let mut char_dest: Vec<u8> = vec![0; char_len];
    assert!(reader.read_to_end(&mut char_dest).is_ok());

    let utf8_decode = String::from_utf8(char_dest).expect("Found invalid UTF-8");

    let char_value = utf8_decode.chars().last().unwrap();
    println!("curr char = {:?}", char_value);

    let triple_de = Triple {
        offset,
        len,
        char_value,
    };
    assert_eq!(triple, triple_de);
}

#[test]
fn literal_scenario_single_char() {
    let encoded = Codec::encode("a".to_string(), None);
    assert_eq!(encoded, vec![triple(0, 0, 'a')]);
    assert_eq!(Codec::decode(encoded).unwrap(), "a");
}

#[test]
fn unseen_chars_are_literals() {
    let encoded = Codec::encode("xyz".to_string(), Some(5));
    assert_eq!(
        encoded,
        vec![triple(0, 0, 'x'), triple(0, 0, 'y'), triple(0, 0, 'z')]
    );
}

#[test]
fn empty_input_encodes_to_nothing() {
    let encoded = Codec::encode(String::new(), None);
    assert!(encoded.is_empty());
    assert_eq!(Codec::decode(encoded).unwrap(), "");
}

#[test]
fn run_of_three_encodes_and_decodes() {
    let encoded = Codec::encode("aaa".to_string(), None);
    assert_eq!(encoded, vec![triple(0, 0, 'a'), triple(1, 1, 'a')]);
    assert_eq!(Codec::decode(encoded).unwrap(), "aaa");
}

#[test]
fn last_char_matching_alone_is_literal() {
    let encoded = Codec::encode("aa".to_string(), None);
    assert_eq!(encoded, vec![triple(0, 0, 'a'), triple(0, 0, 'a')]);
}

#[test]
fn match_reaching_end_keeps_last_char_as_literal() {
    let encoded = Codec::encode("abab".to_string(), None);
    assert_eq!(
        encoded,
        vec![triple(0, 0, 'a'), triple(0, 0, 'b'), triple(2, 1, 'b')]
    );
}

#[test]
fn decode_replays_self_overlapping_copy() {
    let triples = vec![triple(0, 0, 'a'), triple(1, 3, 'b')];
    assert_eq!(Codec::decode(triples).unwrap(), "aaaab");
    let triples = vec![triple(0, 0, 'a'), triple(0, 0, 'b'), triple(2, 5, 'c')];
    assert_eq!(Codec::decode(triples).unwrap(), "abababac");
}

#[test]
fn decode_rejects_offset_beyond_output() {
    let triples = vec![triple(0, 0, 'a'), triple(2, 1, 'b')];
    assert_eq!(Codec::decode(triples), Err(CodecError::DecodeCorruption));
    let triples = vec![triple(1, 1, 'a')];
    assert_eq!(Codec::decode(triples), Err(CodecError::DecodeCorruption));
}

#[test]
fn decode_rejects_copy_with_zero_offset() {
    let triples = vec![triple(0, 0, 'a'), triple(0, 2, 'b')];
    assert_eq!(Codec::decode(triples), Err(CodecError::DecodeCorruption));
}

#[test]
fn decode_accepts_offset_with_empty_copy() {
    let triples = vec![triple(0, 0, 'a'), triple(1, 0, 'b')];
    assert_eq!(Codec::decode(triples).unwrap(), "ab");
}

#[test]
fn window_bounds_every_offset() {
    let text = "abcabcabcxyzxyzabcabcabcabcabcqqqqabc";
    for w in 1..8usize {
        let encoded = Codec::encode(text.to_string(), Some(w));
        for t in &encoded {
            assert!(t.offset as usize <= w);
        }
        assert_eq!(Codec::decode(encoded).unwrap(), text);
    }
}

#[test]
fn window_of_zero_gives_only_literals() {
    let encoded = Codec::encode("aaaa".to_string(), Some(0));
    assert_eq!(encoded, vec![triple(0, 0, 'a'); 4]);
}

#[test]
fn small_window_changes_the_encoding() {
    let encoded = Codec::encode("abcdabcd".to_string(), Some(3));
    assert_eq!(encoded.len(), 8);
    let encoded = Codec::encode("abcdabcd".to_string(), None);
    assert_eq!(
        encoded,
        vec![
            triple(0, 0, 'a'),
            triple(0, 0, 'b'),
            triple(0, 0, 'c'),
            triple(0, 0, 'd'),
            triple(4, 3, 'd'),
        ]
    );
}

#[test]
fn random_strings_round_trip_for_many_windows() {
    let mut rng = rand::thread_rng();
    for _ in 0..200 {
        let text: String = (&mut rng)
            .sample_iter(&Alphanumeric)
            .take(40)
            .map(char::from)
            .collect();
        for window in [None, Some(1), Some(2), Some(5), Some(17), Some(100)] {
            assert_eq!(round_trip(&text, window), text);
        }
    }
}

#[test]
fn multi_byte_characters_round_trip() {
    let text = "h\u{e9}llo w\u{f6}rld \u{1f600}\u{1f600}\u{1f600} e\u{301}e\u{301}";
    assert_eq!(round_trip(text, None), text);
    assert_eq!(round_trip(text, Some(2)), text);
}

#[test]
fn long_string_helper_round_trips() {
    let text = "the quick brown fox jumps over the lazy dog; the quick brown fox";
    assert_eq!(encode_decode_long_string(text.to_string(), 10), text);
    assert_eq!(encode_decode_long_string(text.to_string(), 1), text);
}

#[test]
fn from_value_is_literal() {
    let t = Triple::from_value('q');
    assert_eq!(t, triple(0, 0, 'q'));
    assert_eq!(t.no_traceback_return(), Some('q'));
    assert_eq!(triple(3, 2, 'q').no_traceback_return(), None);
    assert_eq!(triple(3, 0, 'q').no_traceback_return(), None);
}
