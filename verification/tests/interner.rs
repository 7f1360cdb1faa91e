use npma::interner::Interner;

fn numbers(texts: &[&str]) -> (Vec<usize>, Vec<String>) {
    let mut found = Interner::new();
    let ids = texts.iter().map(|text| found.intern(&text.to_string())).collect();
    (ids, found.into_texts())
}

#[test]
fn interner_starts_empty() {
    assert_eq!(Interner::new().into_texts(), Vec::<String>::new());
}

#[test]
fn interner_numbers_texts_in_the_order_of_first_sight() {
    let (ids, texts) = numbers(&["b", "a", "b", "c", "a", "b", ""]);
    assert_eq!(ids, vec![0, 1, 0, 2, 1, 0, 3]);
    assert_eq!(texts, vec!["b", "a", "c", ""]);
}

#[test]
fn interner_tells_similar_texts_apart() {
    let (ids, texts) = numbers(&["ab", "ba", "a", "b", "ab ", "AB", "ab", "ba"]);
    assert_eq!(ids, vec![0, 1, 2, 3, 4, 5, 0, 1]);
    assert_eq!(texts, vec!["ab", "ba", "a", "b", "ab ", "AB"]);
}

#[test]
fn interner_holds_many_texts() {
    let mut found = Interner::new();
    for round in 0..3 {
        for n in 0..2000usize {
            let text = format!("/page/{}?session={}", n % 50, n);
            assert_eq!(found.intern(&text), n, "round {}", round);
        }
    }
    assert_eq!(found.into_texts().len(), 2000);
}
