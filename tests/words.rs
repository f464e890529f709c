use bst::entry::Word;
use bst::utils::{filter_word, split_words};
use bst::wordcount::count_words;
use std::cmp::Ordering;

#[test]
fn test_cmp() {
    let word1 = Word::new("apple".to_string());
    let word2 = Word::new("apples".to_string());
    assert_eq!(word1.cmp(&word2), Ordering::Less);
    assert_eq!(word2.cmp(&word1), Ordering::Greater);
    assert_eq!(word1.cmp(&word1), Ordering::Equal);

    let word3 = Word::new("pear".to_string());
    let mut word4 = word3.clone();
    word4.add();
    assert!(word3 == word4)
}

#[test]
fn compare_by_bytes() {
    let a = Word::new("Zebra".to_string());
    let b = Word::new("apple".to_string());
    assert_eq!(a.cmp(&b), Ordering::Less);
    let c = Word::new("".to_string());
    assert_eq!(c.cmp(&b), Ordering::Less);
    assert_eq!(c.cmp(&c), Ordering::Equal);
    let d = Word::new("abd".to_string());
    let e = Word::new("abc".to_string());
    assert_eq!(d.cmp(&e), Ordering::Greater);
}

#[test]
fn word_counts_and_renders() {
    let mut w = Word::new("pear".to_string());
    assert_eq!(w.count(), 1);
    assert_eq!(w.render(), "pear: 1");
    for _ in 0..11 {
        w.add();
    }
    assert_eq!(w.count(), 12);
    assert_eq!(w.render(), "pear: 12");
    assert_eq!(w.value, "pear");
}

#[test]
fn test_filter() {
    let mut context =
        "This is a sample text with some repeated words. Some words may appear more than once. Let's test the BST program."
            .to_string();
    for (index, word) in filter_word(&mut context).into_iter().enumerate() {
        println!("{}:{}", index, word);
    }
}

#[test]
fn filter_lowercases_and_splits() {
    let mut context = "Hello, World! it's BST-tree 42x".to_string();
    let words = filter_word(&mut context);
    assert_eq!(context, "hello, world! it's bst-tree 42x");
    assert_eq!(words, vec!["hello", "world", "it", "s", "bst", "tree", "x"]);
}

#[test]
fn split_edge_cases() {
    assert!(split_words("").is_empty());
    assert!(split_words("  ,;1 ").is_empty());
    assert_eq!(split_words("abc"), vec!["abc"]);
    assert_eq!(split_words("caf\u{e9}s ok"), vec!["caf", "s", "ok"]);
}

#[test]
fn counts_repeated_words() {
    let mut context = "The cat saw the other cat; THE end.".to_string();
    let words = filter_word(&mut context);
    let tree = count_words(&words);
    let walked: Vec<String> = tree.traverse(bst::entry::Order::In).iter().map(|w| w.render()).collect();
    assert_eq!(walked, vec!["cat: 2", "end: 1", "other: 1", "saw: 1", "the: 3"]);
    let the = tree.find(Word::new("the".to_string())).unwrap();
    assert_eq!(the.data.count(), 3);
}

#[test]
fn restored_word_keeps_its_count() {
    let w = Word::with_count("pear".to_string(), 7);
    assert_eq!(w.count(), 7);
    assert_eq!(w.render(), "pear: 7");
    assert!(w == Word::new("pear".to_string()));
}

#[test]
fn partial_order_follows_bytes() {
    let apple = Word::new("apple".to_string());
    let apples = Word::new("apples".to_string());
    let mut apple2 = Word::new("apple".to_string());
    apple2.add();
    assert_eq!(apple.partial_cmp(&apples), Some(Ordering::Less));
    assert_eq!(apples.partial_cmp(&apple), Some(Ordering::Greater));
    assert_eq!(apple.partial_cmp(&apple2), Some(Ordering::Equal));
    assert!(apple < apples);
    assert!(apples > apple);
    assert!(apple <= apple2);
}

#[test]
fn counted_tree_follows_first_occurrences() {
    let words: Vec<String> = ["the", "cat", "the", "zoo"].iter().map(|s| s.to_string()).collect();
    let tree = count_words(&words);
    let root = tree.root.as_ref().unwrap();
    assert_eq!(root.data.render(), "the: 2");
    assert_eq!(root.left.as_ref().unwrap().data.render(), "cat: 1");
    assert_eq!(root.right.as_ref().unwrap().data.render(), "zoo: 1");
}
