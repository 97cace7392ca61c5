use rankfast::link::{build_hash, decode_answers, encode_answers, parse_hash};

fn bytes(items: &[&str]) -> Vec<Vec<u8>> {
    items.iter().map(|s| s.as_bytes().to_vec()).collect()
}

#[test]
fn answers_are_written_as_letters() {
    assert_eq!(encode_answers(&[true, true, false, false, true]), b"aabba".to_vec());
    assert_eq!(encode_answers(&[]), Vec::<u8>::new());
}

#[test]
fn letters_are_read_as_answers() {
    assert_eq!(decode_answers(b"aabba"), vec![true, true, false, false, true]);
    assert_eq!(decode_answers(b"a-b, A b!c"), vec![true, false, false]);
    assert_eq!(decode_answers(b""), Vec::<bool>::new());
}

#[test]
fn answers_survive_the_round_trip() {
    let mut answers = Vec::new();
    for i in 0..40u32 {
        answers.push(i % 3 == 0 || i % 7 == 2);
        assert_eq!(decode_answers(&encode_answers(&answers)), answers);
    }
}

#[test]
fn a_line_names_items_and_answers() {
    assert_eq!(
        parse_hash(b"#Pizza,Sushi,Tacos!aabba"),
        (bytes(&["Pizza", "Sushi", "Tacos"]), vec![true, true, false, false, true])
    );
    assert_eq!(
        parse_hash(b"Pizza,Sushi"),
        (bytes(&["Pizza", "Sushi"]), vec![])
    );
}

#[test]
fn an_empty_line_holds_nothing() {
    assert_eq!(parse_hash(b""), (vec![], vec![]));
    assert_eq!(parse_hash(b"#"), (vec![], vec![]));
}

#[test]
fn empty_items_and_strange_letters_are_passed_over() {
    assert_eq!(
        parse_hash(b"#,one,,two,!a?b!a"),
        (bytes(&["one", "two"]), vec![true, false, true])
    );
    assert_eq!(parse_hash(b"!ab"), (vec![], vec![true, false]));
    assert_eq!(parse_hash(b"##x"), (bytes(&["#x"]), vec![]));
}

#[test]
fn a_line_is_built_from_items_and_answers() {
    assert_eq!(
        build_hash(&bytes(&["Pizza", "Sushi", "Tacos"]), &[true, false]),
        b"Pizza,Sushi,Tacos!ab".to_vec()
    );
    assert_eq!(build_hash(&bytes(&["Pizza", "Sushi"]), &[]), b"Pizza,Sushi".to_vec());
    assert_eq!(build_hash(&[], &[]), Vec::<u8>::new());
    assert_eq!(build_hash(&[], &[false]), b"!b".to_vec());
}

#[test]
fn a_line_survives_the_round_trip() {
    let items = bytes(&["one", "t%2Cwo", "three%21", "4"]);
    let answers = vec![false, true, true, false];
    for n in 0..=items.len() {
        for k in 0..=answers.len() {
            let line = build_hash(&items[..n], &answers[..k]);
            assert_eq!(parse_hash(&line), (items[..n].to_vec(), answers[..k].to_vec()));
        }
    }
}
