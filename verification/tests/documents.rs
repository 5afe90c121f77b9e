//! Texts, documents and tokens.
use microgpt::dataset::{Dataset, N_EVAL_DOCS};
use microgpt::rng::Rng;
use microgpt::text::{parse_docs, trim, white_space};

fn strings(docs: &[&str]) -> Vec<String> {
    docs.iter().map(|d| d.to_string()).collect()
}

#[test]
fn a_text_has_a_document_per_line() {
    assert_eq!(parse_docs("emma\nolivia\nava\n"), strings(&["emma", "olivia", "ava"]));
    assert_eq!(parse_docs("emma\nolivia"), strings(&["emma", "olivia"]));
}

#[test]
fn lines_are_trimmed_and_empty_lines_dropped() {
    assert_eq!(
        parse_docs("\n  emma \t\r\n\n \u{3000} \nmary ann\r\n"),
        strings(&["emma", "mary ann"])
    );
    assert_eq!(parse_docs(""), Vec::<String>::new());
    assert_eq!(parse_docs("\n\r\n \n"), Vec::<String>::new());
}

#[test]
fn lines_end_where_the_standard_library_ends_them() {
    for text in ["a\nb", "a\r\nb\r", "a\rb\n\nc", "\u{85}x\u{2028}y\n\u{a0}z", " \n", "é\nß ñ\n"] {
        let expected: Vec<String> =
            text.lines().map(str::trim).filter(|l| !l.is_empty()).map(String::from).collect();
        assert_eq!(parse_docs(text), expected, "{text:?}");
    }
}

#[test]
fn white_space_is_that_of_unicode() {
    for x in 0..0x11_0000u32 {
        if let Some(c) = char::from_u32(x) {
            assert_eq!(white_space(c), c.is_whitespace(), "{x:x}");
        }
    }
}

#[test]
fn trim_keeps_what_is_inside() {
    let line: Vec<char> = " \t a  b \n".chars().collect();
    assert_eq!(trim(&line), "a  b");
    assert_eq!(trim(&[]), "");
    assert_eq!(trim(&[' ', ' ']), "");
}

#[test]
fn the_vocabulary_is_sorted_and_distinct() {
    let data = Dataset::new(strings(&["banana", "cab", "éa"]), 0);
    assert_eq!(data.uchars, vec!['a', 'b', 'c', 'n', 'é']);
    assert_eq!(data.bos, 5);
    assert_eq!(data.vocab_size(), 6);
}

#[test]
fn the_vocabulary_does_not_depend_on_the_order() {
    let a = Dataset::new(strings(&["zoe", "ada", "zed"]), 0);
    let b = Dataset::new(strings(&["zed", "zoe", "ada", "ada"]), 2);
    assert_eq!(a.uchars, b.uchars);
}

#[test]
fn tokens_stand_between_boundaries() {
    let data = Dataset::new(strings(&["abc"]), 0);
    let mut tokens = vec![9, 9, 9, 9, 9, 9, 9];
    data.tokenize("cab", &mut tokens);
    assert_eq!(tokens, vec![3, 2, 0, 1, 3]);
    data.tokenize("", &mut tokens);
    assert_eq!(tokens, vec![3, 3]);
    // the tokens between the boundaries decode to the document
    data.tokenize("bacca", &mut tokens);
    let text: String = tokens[1..tokens.len() - 1].iter().map(|t| data.uchars[*t]).collect();
    assert_eq!(text, "bacca");
}

#[test]
fn the_last_documents_are_held_out() {
    let docs = strings(&["a", "b", "c", "d", "e"]);
    let data = Dataset::new(docs.clone(), 2);
    assert_eq!(data.n_train, 3);
    assert_eq!(data.eval_docs(), &docs[3..]);
    assert_eq!(data.docs, docs);
    let data = Dataset::new(docs.clone(), 0);
    assert_eq!((data.n_train, data.eval_docs().len()), (5, 0));
}

#[test]
fn one_document_is_kept_for_training() {
    let docs = strings(&["a", "b", "c"]);
    let data = Dataset::new(docs.clone(), 3);
    assert_eq!((data.n_train, data.eval_docs().len()), (1, 2));
    let data = Dataset::new(docs, N_EVAL_DOCS);
    assert_eq!((data.n_train, data.eval_docs().len()), (1, 2));
    let data = Dataset::new(Vec::new(), 0);
    assert_eq!((data.n_train, data.bos, data.vocab_size()), (1, 0, 1));
}

#[test]
fn a_loaded_text_is_shuffled() {
    let text: String = (0..10).map(|i| format!(" {i}\n")).collect();
    let mut rng = Rng::new(42);
    let data = Dataset::from_text(&text, &mut rng);
    assert_eq!(data.docs, strings(&["7", "3", "8", "9", "5", "6", "4", "1", "0", "2"]));
    assert_eq!(data.n_train, 1);
    assert_eq!(
        rng.s,
        [0xa6a68565d871a6d8, 0xa23425f8f32d20b3, 0xaed207caddb3fe5b, 0xdf4d732aba2ff1aa]
    );
}

#[test]
fn a_thousand_documents_are_held_out() {
    let text: String = (0..1500).map(|i| format!("{i}\n")).collect();
    let data = Dataset::from_text(&text, &mut Rng::new(42));
    assert_eq!(data.docs.len(), 1500);
    assert_eq!(data.n_train, 500);
    assert_eq!(data.eval_docs().len(), N_EVAL_DOCS);
}
