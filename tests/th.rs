use tokenizer::th;
use tokenizer::Tokenizer as _;

const DICT_FILE_WORDS: [&str; 12] = [
    "กรณ์",
    "กรรม",
    "กรรมกร",
    "กรรมการ",
    "การกระจัด",
    "การงาน",
    "การบูรณ์",
    "การบ้าน",
    "การละเล่น",
    "อาจารย์",
    "เอา",
    "เอาการเอางาน",
];

const SAMPLE: [&str; 7] = ["งาน", "งานบ้าน", "งานกลุ่ม", "งานเรือน", "การงาน", "การบ้าน", "งาช้าง"];

#[test]
fn test_unknown_word() {
    let tokenizer = th::Tokenizer::new(&DICT_FILE_WORDS);
    let input = "เอากรรมกรที่เอาการเอางาน";
    let tokens = tokenizer.tokenize(input);
    assert_eq!(tokens, &["เอา", "กรรมกร", "ที่", "เอาการเอางาน"]);
}

#[test]
fn test_th_en_word() {
    let tokenizer = th::Tokenizer::new(&DICT_FILE_WORDS);
    let tokens = tokenizer.tokenize("การบ้าน  easy มากๆ");
    assert_eq!(tokens, &["การบ้าน", "easy", "มากๆ"]);
}

#[test]
fn test_init_by_slice() {
    let tokenizer = th::Tokenizer::new(&DICT_FILE_WORDS);
    assert_eq!(vec!["การบ้าน", "กรรมกร"], tokenizer.tokenize("การบ้านกรรมกร"));
}

#[test]
fn known_word_segmentation() {
    let tokenizer = th::Tokenizer::new(&SAMPLE);
    assert_eq!(tokenizer.tokenize("การบ้านงานกลุ่ม"), vec!["การบ้าน", "งานกลุ่ม"]);
}

#[test]
fn unknown_prefix_with_small_dictionary() {
    let tokenizer = th::Tokenizer::new(&["กรรมกร", "เอา", "ที่", "เอาการเอางาน"]);
    assert_eq!(
        tokenizer.tokenize("เอากรรมกรที่เอาการเอางาน"),
        vec!["เอา", "กรรมกร", "ที่", "เอาการเอางาน"]
    );
}

#[test]
fn mixed_script_with_one_word() {
    let tokenizer = th::Tokenizer::new(&["การบ้าน"]);
    assert_eq!(tokenizer.tokenize("การบ้าน  easy มากๆ"), vec!["การบ้าน", "easy", "มากๆ"]);
}

#[test]
fn empty_dictionary_gives_whole_chunk() {
    let tokenizer = th::Tokenizer::new(&[]);
    assert_eq!(tokenizer.tokenize("xyz"), vec!["xyz"]);
}

#[test]
fn empty_and_blank_input() {
    let tokenizer = th::Tokenizer::new(&SAMPLE);
    assert!(tokenizer.tokenize("").is_empty());
    assert!(tokenizer.tokenize("   \t\n").is_empty());
    assert!(tokenizer.segment("").is_empty());
}

#[test]
fn triplet_permutations() {
    let tokenizer = th::Tokenizer::new(&SAMPLE);
    // Triples whose concatenation holds no other word across the joins.
    let triples = [
        ["งาน", "การบ้าน", "งานเรือน"],
        ["การบ้าน", "งานเรือน", "งาน"],
        ["งานเรือน", "งาน", "การบ้าน"],
        ["การงาน", "งาช้าง", "งานกลุ่ม"],
        ["งาช้าง", "งานกลุ่ม", "การงาน"],
        ["งานกลุ่ม", "การงาน", "งาช้าง"],
    ];
    for t in triples.iter() {
        let text: String = t.concat();
        assert_eq!(tokenizer.tokenize(&text), t.to_vec());
    }
}

#[test]
fn known_words_beat_an_unknown_tail() {
    // "ab" + "cd" leaves nothing unknown; "abc" leaves "d" unknown.
    let tokenizer = th::Tokenizer::new(&["ab", "cd", "abc"]);
    assert_eq!(tokenizer.tokenize("abcd"), vec!["ab", "cd"]);
    // Only "abc" begins the text, so "d" stays an unknown token.
    let tokenizer = th::Tokenizer::new(&["abc", "b"]);
    assert_eq!(tokenizer.tokenize("abcd"), vec!["abc", "d"]);
}

#[test]
fn fewest_tokens_among_known_words() {
    let tokenizer = th::Tokenizer::new(&["a", "b", "ab", "c"]);
    assert_eq!(tokenizer.tokenize("abc"), vec!["ab", "c"]);
}

#[test]
fn ties_take_the_earlier_boundary() {
    // "ab|cd" and "abc|d" both have two known tokens and no unknown bytes.
    let tokenizer = th::Tokenizer::new(&["ab", "cd", "abc", "d"]);
    assert_eq!(tokenizer.tokenize("abcd"), vec!["ab", "cd"]);
}

#[test]
fn unknown_span_stops_where_a_word_begins() {
    let tokenizer = th::Tokenizer::new(&["cd"]);
    assert_eq!(tokenizer.tokenize("xycdzz"), vec!["xy", "cd", "zz"]);
}

#[test]
fn unknown_bytes_count_bytes_not_characters() {
    // "z" + unknown "ก" + "xyw" has one unknown character of three bytes;
    // "zกx" + unknown "yw" has two unknown characters of one byte each.
    let tokenizer = th::Tokenizer::new(&["z", "zกx", "xyw"]);
    assert_eq!(tokenizer.tokenize("zกxyw"), vec!["zกx", "yw"]);
}

#[test]
fn same_input_same_tokens() {
    let tokenizer = th::Tokenizer::new(&SAMPLE);
    let a = tokenizer.tokenize("งานบ้านการงานงาช้าง");
    let b = tokenizer.tokenize("งานบ้านการงานงาช้าง");
    assert_eq!(a, b);
    assert_eq!(a, vec!["งานบ้าน", "การงาน", "งาช้าง"]);
}

#[test]
fn tokens_cover_the_chunk() {
    let tokenizer = th::Tokenizer::new(&SAMPLE);
    let text = "ยงานบ้านxxการงานzงา";
    let tokens = tokenizer.segment(text);
    assert_eq!(tokens.concat(), text);
    assert!(tokens.iter().all(|t| !t.is_empty()));
}

#[test]
fn space_tokenizer_splits_on_whitespace() {
    let tokens = tokenizer::en::Tokenizer.tokenize("  Mary   had\ta\u{2009}little  \n\t lamb");
    assert_eq!(tokens, vec!["Mary", "had", "a", "little", "lamb"]);
}

#[test]
fn tokens_join_to_text_without_whitespace() {
    let tokenizer = th::Tokenizer::new(&SAMPLE);
    let text = " งานบ้าน\tx การงานyy\u{3000}งาช้าง ";
    let tokens = tokenizer.tokenize(text);
    let joined: String = text.chars().filter(|c| !c.is_whitespace()).collect();
    assert_eq!(tokens.concat(), joined);
    assert!(tokens.iter().all(|t| !t.is_empty()));
}
