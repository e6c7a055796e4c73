use tokenizer::dict::chars_of;
use tokenizer::dict::terminals_prefix;
use tokenizer::dict::Dict;
use tokenizer::dict::Node;

fn shape(nodes: &Vec<Node>) -> Vec<(String, bool, usize)> {
    nodes
        .iter()
        .map(|n| (n.value().to_owned(), n.terminal(), n.childs().len()))
        .collect()
}

fn sample_dict() -> Dict {
    let mut dict = Dict::new();
    dict.add("งาน");
    dict.add("งานบ้าน");
    dict.add("งานกลุ่ม");
    dict.add("งานเรือน");
    dict.add("การงาน");
    dict.add("การบ้าน");
    dict.add("งาช้าง");
    dict
}

#[test]
fn test_add_dict() {
    let dict = sample_dict();
    let root = dict.root();
    assert_eq!(
        shape(root),
        vec![("การ".to_owned(), false, 2), ("งา".to_owned(), false, 2)]
    );
    assert_eq!(
        shape(root[0].childs()),
        vec![("งาน".to_owned(), true, 0), ("บ้าน".to_owned(), true, 0)]
    );
    assert_eq!(
        shape(root[1].childs()),
        vec![("ช้าง".to_owned(), true, 0), ("น".to_owned(), true, 3)]
    );
    assert_eq!(
        shape(root[1].childs()[1].childs()),
        vec![
            ("กลุ่ม".to_owned(), true, 0),
            ("บ้าน".to_owned(), true, 0),
            ("เรือน".to_owned(), true, 0),
        ]
    );
}

fn all_shapes(nodes: &Vec<Node>, out: &mut Vec<(usize, String, bool)>, depth: usize) {
    for n in nodes.iter() {
        out.push((depth, n.value().to_owned(), n.terminal()));
        all_shapes(n.childs(), out, depth + 1);
    }
}

fn check_sorted(nodes: &Vec<Node>) {
    for pair in nodes.windows(2) {
        let a = pair[0].value().chars().next().unwrap();
        let b = pair[1].value().chars().next().unwrap();
        assert!(a < b);
    }
    for n in nodes.iter() {
        assert!(!n.value().is_empty());
        check_sorted(n.childs());
    }
}

#[test]
fn siblings_sorted_by_first_char() {
    let dict = sample_dict();
    check_sorted(dict.root());
}

#[test]
fn readding_a_word_changes_nothing() {
    let mut dict = sample_dict();
    let mut before = Vec::new();
    all_shapes(dict.root(), &mut before, 0);
    dict.add("งานบ้าน");
    dict.add("งาน");
    let mut after = Vec::new();
    all_shapes(dict.root(), &mut after, 0);
    assert_eq!(before, after);
}

#[test]
fn empty_word_is_skipped() {
    let mut dict = Dict::new();
    dict.add("");
    assert_eq!(dict.root().len(), 0);
}

#[test]
fn sealed_dictionary_contains_added_words() {
    let words = ["งาน", "งานบ้าน", "งานกลุ่ม", "งานเรือน", "การงาน", "การบ้าน", "งาช้าง"];
    let mut dict = Dict::new();
    for w in words.iter() {
        dict.add(w);
    }
    let sealed = dict.seal();
    for w in words.iter() {
        assert!(sealed.contains(w));
    }
    assert!(!sealed.contains("การ"));
    assert!(!sealed.contains("งา"));
    assert!(!sealed.contains("บ้าน"));
    assert!(!sealed.contains(""));
}

#[test]
fn prefix_query_finds_whole_word() {
    let mut dict = Dict::new();
    dict.add("งาน");
    dict.add("งานบ้าน");
    dict.add("บ้าน");
    let sealed = dict.seal();
    let text = chars_of("งานบ้านบ้าน");
    let mut ends = Vec::new();
    terminals_prefix(sealed.root(), &text, 0, &mut ends);
    assert_eq!(ends, vec![3, 7]);
    ends.clear();
    terminals_prefix(sealed.root(), &text, 3, &mut ends);
    assert_eq!(ends, vec![7]);
    let mut kept = vec![99];
    terminals_prefix(sealed.root(), &text, 1, &mut kept);
    assert_eq!(kept, vec![99]);
}

#[test]
fn split_label_where_words_part() {
    let mut dict = Dict::new();
    dict.add("abcd");
    dict.add("abxy");
    dict.add("ab");
    let root = dict.root();
    assert_eq!(shape(root), vec![("ab".to_owned(), true, 2)]);
    assert_eq!(
        shape(root[0].childs()),
        vec![("cd".to_owned(), true, 0), ("xy".to_owned(), true, 0)]
    );
}

/// The words of the dictionary file that the tokenizer is usually built from.
const DICT_FILE_WORDS: [&str; 12] = [
    "กรณ์",
    "กรรม",
    "กรรมกร",
    "กรรมการ",
    "การกระจัด",
    "การงาน",
    "การบูรณ์",
    "การบ้าน",
    "การละเล่น",
    "อาจารย์",
    "เอา",
    "เอาการเอางาน",
];

fn expected_file_shape() -> Vec<(usize, String, bool)> {
    [
        (0, "ก", false),
        (1, "ร", false),
        (2, "ณ์", true),
        (2, "รม", true),
        (3, "ก", false),
        (4, "ร", true),
        (4, "าร", true),
        (1, "าร", false),
        (2, "กระจัด", true),
        (2, "งาน", true),
        (2, "บ", false),
        (3, "ูรณ์", true),
        (3, "้าน", true),
        (2, "ละเล่น", true),
        (0, "อาจารย์", true),
        (0, "เอา", true),
        (1, "การเอางาน", true),
    ]
    .iter()
    .map(|(d, v, t)| (*d, v.to_string(), *t))
    .collect()
}

fn sized_shapes(nodes: &Vec<tokenizer::dict::SizedNode>, out: &mut Vec<(usize, String, bool)>, depth: usize) {
    for n in nodes.iter() {
        out.push((depth, n.value().iter().collect(), n.terminal()));
        sized_shapes(n.childs(), out, depth + 1);
    }
}

#[test]
fn load_dict() {
    let mut dict = Dict::new();
    for w in DICT_FILE_WORDS.iter() {
        dict.add(w);
    }
    let mut got = Vec::new();
    all_shapes(dict.root(), &mut got, 0);
    assert_eq!(got, expected_file_shape());
}

#[test]
fn test_sized_dict() {
    let mut dict = Dict::new();
    for w in DICT_FILE_WORDS.iter() {
        dict.add(w);
    }
    let sealed = dict.seal();
    let mut got = Vec::new();
    sized_shapes(sealed.root(), &mut got, 0);
    assert_eq!(got, expected_file_shape());
}

#[test]
fn sealed_shape_ignores_insertion_order() {
    let mut dict = Dict::new();
    for w in DICT_FILE_WORDS.iter().rev() {
        dict.add(w);
    }
    let sealed = dict.seal();
    let mut got = Vec::new();
    sized_shapes(sealed.root(), &mut got, 0);
    assert_eq!(got, expected_file_shape());
}

#[test]
fn prefix_of_label_splits_it() {
    let mut dict = Dict::new();
    dict.add("งานบ้าน");
    dict.add("งาน");
    assert_eq!(shape(dict.root()), vec![("งาน".to_owned(), true, 1)]);
    assert_eq!(shape(dict.root()[0].childs()), vec![("บ้าน".to_owned(), true, 0)]);
}

#[test]
fn common_prefix_becomes_branch() {
    let mut dict = Dict::new();
    dict.add("งาน");
    dict.add("งาช้าง");
    assert_eq!(shape(dict.root()), vec![("งา".to_owned(), false, 2)]);
    assert_eq!(
        shape(dict.root()[0].childs()),
        vec![("ช้าง".to_owned(), true, 0), ("น".to_owned(), true, 0)]
    );
}
