use lurlene::demo::DemoApp;
use lurlene::Index;

fn sample_index() -> Index {
    let mut index = Index::default();
    index.add("foo", "i love emacs");
    index.add("bar", "all love emacs");
    index
}

fn hits(list: &[(&str, u32)]) -> Vec<(String, u32)> {
    list.iter().map(|(n, f)| (String::from(*n), *f)).collect()
}

#[test]
fn test_search_and_add() {
    let index = sample_index();

    for key in ["emacs", "love"] {
        assert_eq!(
            index.search(key),
            vec![(String::from("foo"), 1u32), (String::from("bar"), 1u32)]
        );
    }
    for key in ["i", "all"] {
        assert_eq!(index.search(key).len(), 1);
    }
}

#[test]
fn ids_follow_add_order() {
    let mut index = Index::default();
    index.add("a", "one");
    index.add("b", "");
    index.add("a", "two words");
    let (count, docs, _) = index.to_parts();
    assert_eq!(count, 3);
    assert_eq!(
        docs,
        vec![(1, String::from("a")), (2, String::from("b")), (3, String::from("a"))]
    );
}

#[test]
fn unknown_term_gives_empty() {
    let empty = Index::default();
    assert_eq!(empty.search("anything"), vec![]);
    let index = sample_index();
    assert_eq!(index.search("vim"), vec![]);
    assert_eq!(index.search(""), vec![]);
    assert_eq!(index.search("love emacs"), vec![]);
}

#[test]
fn search_ignores_case() {
    let mut index = Index::default();
    index.add("editor", "Emacs");
    let expected = hits(&[("editor", 1)]);
    assert_eq!(index.search("Emacs"), expected);
    assert_eq!(index.search("emacs"), expected);
    assert_eq!(index.search("EMACS"), expected);
}

#[test]
fn lowercasing_is_unicode_aware() {
    let mut index = Index::default();
    index.add("umlauts", "ÄÖÜ");
    assert_eq!(index.search("äöü"), hits(&[("umlauts", 1)]));
    assert_eq!(index.search("ÄöÜ"), hits(&[("umlauts", 1)]));
}

#[test]
fn repeated_word_counts() {
    let mut index = Index::default();
    index.add("d", "x x x");
    assert_eq!(index.search("x"), hits(&[("d", 3)]));
}

#[test]
fn mixed_case_occurrences_count_together() {
    let mut index = Index::default();
    index.add("d", "Rust rust RUST go");
    assert_eq!(index.search("rust"), hits(&[("d", 3)]));
    assert_eq!(index.search("go"), hits(&[("d", 1)]));
}

#[test]
fn ranking_is_ascending_in_frequency() {
    let mut index = Index::default();
    index.add("a", "w w w");
    index.add("b", "w");
    index.add("c", "w w");
    index.add("d", "w");
    assert_eq!(
        index.search("w"),
        hits(&[("b", 1), ("d", 1), ("c", 2), ("a", 3)])
    );
}

#[test]
fn demo_entries_rank_in_id_order_on_ties() {
    let mut app = DemoApp::default();
    app.add_entries();
    assert_eq!(
        app.index.search("t4"),
        hits(&[("d1", 1), ("d3", 1), ("d4", 1)])
    );
    assert_eq!(
        app.index.search("t3"),
        hits(&[("d1", 1), ("d2", 1), ("d3", 1), ("d5", 1)])
    );
    assert_eq!(app.index.search("t1"), hits(&[("d1", 1), ("d5", 1)]));
    assert_eq!(app.index.to_parts().0, 5);
}

#[test]
fn independent_counts_per_document() {
    let index = sample_index();
    assert_eq!(index.search("emacs"), hits(&[("foo", 1), ("bar", 1)]));
    assert_eq!(index.search("love"), hits(&[("foo", 1), ("bar", 1)]));
    assert_eq!(index.search("i"), hits(&[("foo", 1)]));
    assert_eq!(index.search("all"), hits(&[("bar", 1)]));
}

#[test]
fn whitespace_runs_only_separate() {
    let mut index = Index::default();
    index.add("d", "  a\t\tb \n a  ");
    assert_eq!(index.search("a"), hits(&[("d", 2)]));
    assert_eq!(index.search("b"), hits(&[("d", 1)]));
    assert_eq!(index.search(" a"), vec![]);
    let (_, _, terms) = index.to_parts();
    assert_eq!(terms.len(), 2);
}

#[test]
fn punctuation_stays_in_the_word() {
    let mut index = Index::default();
    index.add("d", "hello, world");
    assert_eq!(index.search("hello,"), hits(&[("d", 1)]));
    assert_eq!(index.search("hello"), vec![]);
}

#[test]
fn empty_content_adds_a_document_without_terms() {
    let mut index = Index::default();
    index.add("blank", "");
    index.add("spaces", "   ");
    let (count, docs, terms) = index.to_parts();
    assert_eq!(count, 2);
    assert_eq!(docs.len(), 2);
    assert!(terms.is_empty());
}

#[test]
fn parts_round_trip() {
    let mut app = DemoApp::default();
    app.add_entries();
    let index = app.index;
    let (count, docs, terms) = index.to_parts();
    let back = Index::from_parts(count, &docs, &terms).unwrap();
    assert_eq!(back.to_parts(), (count, docs, terms));
    for key in ["t1", "t2", "t3", "t4", "t5"] {
        assert_eq!(back.search(key), index.search(key));
    }
}

#[test]
fn parts_of_an_index() {
    let index = sample_index();
    let (count, docs, mut terms) = index.to_parts();
    assert_eq!(count, 2);
    assert_eq!(docs, vec![(1, String::from("foo")), (2, String::from("bar"))]);
    terms.sort();
    assert_eq!(
        terms,
        vec![
            (String::from("all"), vec![(2, 1)]),
            (String::from("emacs"), vec![(1, 1), (2, 1)]),
            (String::from("i"), vec![(1, 1)]),
            (String::from("love"), vec![(1, 1), (2, 1)]),
        ]
    );
}

#[test]
fn from_parts_accepts_reordered_terms() {
    let docs = vec![(1, String::from("x")), (2, String::from("y"))];
    let terms = vec![
        (String::from("b"), vec![(2, 4)]),
        (String::from("a"), vec![(1, 2), (2, 1)]),
    ];
    let index = Index::from_parts(2, &docs, &terms).unwrap();
    assert_eq!(index.search("a"), hits(&[("y", 1), ("x", 2)]));
    assert_eq!(index.search("B"), hits(&[("y", 4)]));
}

#[test]
fn from_parts_rejects_what_does_not_fit() {
    let docs = vec![(1, String::from("x")), (2, String::from("y"))];
    let ok = vec![(String::from("a"), vec![(1, 1)])];
    assert!(Index::from_parts(2, &docs, &ok).is_some());
    // document count differs from the counter
    assert!(Index::from_parts(3, &docs, &ok).is_none());
    // ids out of place
    let swapped = vec![(2, String::from("y")), (1, String::from("x"))];
    assert!(Index::from_parts(2, &swapped, &ok).is_none());
    // a term twice
    let twice = vec![(String::from("a"), vec![(1, 1)]), (String::from("a"), vec![(2, 1)])];
    assert!(Index::from_parts(2, &docs, &twice).is_none());
    // a zero count
    let zero = vec![(String::from("a"), vec![(1, 0)])];
    assert!(Index::from_parts(2, &docs, &zero).is_none());
    // an id past the counter
    let past = vec![(String::from("a"), vec![(3, 1)])];
    assert!(Index::from_parts(2, &docs, &past).is_none());
    // ids not ascending
    let unordered = vec![(String::from("a"), vec![(2, 1), (1, 1)])];
    assert!(Index::from_parts(2, &docs, &unordered).is_none());
    // an empty table
    let bare = vec![(String::from("a"), vec![])];
    assert!(Index::from_parts(2, &docs, &bare).is_none());
}

#[test]
fn names_need_not_be_unique() {
    let mut index = Index::default();
    index.add("same", "k");
    index.add("same", "k k");
    assert_eq!(index.search("k"), hits(&[("same", 1), ("same", 2)]));
}

#[test]
fn through_parts_keeps_contents() {
    let index = sample_index();
    let back = index.through_parts();
    for key in ["i", "love", "emacs", "all", "none"] {
        assert_eq!(back.search(key), index.search(key));
    }
    assert_eq!(back.to_parts().0, 2);
    assert_eq!(back.to_parts().1, index.to_parts().1);
}
