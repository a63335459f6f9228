use ah_search_rs::trie::{add_keyword_slot, create_prefix_tree, is_word_char, Match, RingBuffer, SearchOptions, TrieRoot};
use rand::distr::Alphanumeric;
use rand::Rng;
use unicode_normalization::UnicodeNormalization;

/// Make a sample tree for the dictionary {ab, abc, cd}
fn sample_tree_1() -> TrieRoot {
    create_prefix_tree(
        add_keyword_slot(vec![
            String::from("ab"),
            String::from("abc"),
            String::from("cd"),
        ]),
        None,
    )
    .unwrap()
}

/// Generate a random alphanumeric string of the given length (in bytes)
fn random_string(length: usize) -> String {
    let mut rng = rand::rng();
    (0..length)
        .map(|_| rng.sample(Alphanumeric) as char)
        .collect()
}

fn start(m: &Match) -> usize {
    m.char_range().0
}

fn end(m: &Match) -> usize {
    m.char_range().1
}

#[test]
fn test_search_simple() {
    let pref_tree = sample_tree_1();
    let sample = "123 a ab c d cd bc abc";

    let mut matches = pref_tree.find_text_matches(sample.to_string()).unwrap();
    matches.sort();
    // Expect 4 matches
    assert_eq!(matches.len(), 4);

    // Validate individual matches
    assert_eq!(matches[0].value(), "ab");
    assert_eq!(start(&matches[0]), 6);
    assert_eq!(end(&matches[0]) - start(&matches[0]), matches[0].value().len());

    assert_eq!(matches[1].value(), "cd");
    assert_eq!(start(&matches[1]), 13);
    assert_eq!(end(&matches[1]) - start(&matches[1]), matches[1].value().len());

    assert_eq!(matches[2].value(), "ab");
    assert_eq!(start(&matches[2]), 19);
    assert_eq!(end(&matches[2]) - start(&matches[2]), matches[2].value().len());

    assert_eq!(matches[3].value(), "abc");
    assert_eq!(start(&matches[3]), 19);
    assert_eq!(end(&matches[3]) - start(&matches[3]), matches[3].value().len());
}

#[test]
fn test_search_no_matches() {
    let pref_tree = sample_tree_1();
    let sample = "123 x, y aBcD wXyAb dc";
    let matches = pref_tree.find_text_matches(sample.to_string()).unwrap();
    assert!(matches.is_empty());
}

#[test]
fn test_search_random_string() {
    let haystack = random_string(8192);
    let haystack_chars: Vec<char> = haystack.chars().collect();

    let pt = create_prefix_tree(
        add_keyword_slot(vec![
            String::from("a"),
            String::from("b"),
            String::from("aB"),
            String::from("bcd"),
            String::from("abcd"),
            String::from("AbcdaB"),
            String::from("0"),
            String::from("0bcd"),
            String::from("a0b"),
        ]),
        None,
    )
    .unwrap();

    let mut matches = pt.find_text_matches(haystack).unwrap();
    matches.sort();
    assert!(matches.len() > 0);

    for m in &matches {
        let (start, end) = m.char_range();
        assert_eq!(end - start, m.value().len());

        let val_chars: Vec<char> = m.value().chars().collect();
        assert_eq!(&val_chars, &haystack_chars[start..end]);
    }
}

#[test]
fn test_search_keywords() {
    let dct = vec![
        (String::from("abc"), None),
        (String::from("ac"), Some(String::from("abc"))),
        (String::from("ABC"), Some(String::from("abc"))),
        (String::from("acq"), Some(String::from("abc"))),
    ];
    let pt = create_prefix_tree(dct, None).unwrap();
    let matches = pt.find_text_matches(String::from("abq dc ac ABCac pqracq")).unwrap();

    assert_eq!(matches.len(), 5);
    for m in matches {
        assert_eq!(m.keyword(), "abc")
    }

    let dct = vec![
        (String::from("abc"), None),
        (String::from("ab"), Some(String::from("ab"))),
        (String::from("ABC"), Some(String::from("abc"))),
        (String::from("acq"), Some(String::from("ab"))),
    ];
    let pt = create_prefix_tree(dct, None).unwrap();
    let matches = pt.find_text_matches(String::from("abq dc ac ABCac pqracq")).unwrap();
    assert_eq!(matches.len(), 3);

    assert_eq!(matches[0].value(), "ab");
    assert_eq!(matches[0].keyword(), "ab");

    assert_eq!(matches[1].value(), "ABC");
    assert_eq!(matches[1].keyword(), "abc");

    assert_eq!(matches[2].value(), "acq");
    assert_eq!(matches[2].keyword(), "ab");
}

#[test]
fn test_search_keywords_uncased() {
    let dct = vec![
        (String::from("abc"), Some(String::from("Abc"))),
        (String::from("ab"), Some(String::from("Ab"))),
        (String::from("DC"), Some(String::from("Abc"))),
        (String::from("acq"), Some(String::from("Ab"))),
    ];
    let pt = create_prefix_tree(
        dct,
        Some(SearchOptions {
            check_bounds: false,
            case_sensitive: false,
        }),
    )
    .unwrap();
    let matches = pt.find_text_matches(String::from("aBq dc ABCac pqracQ AbC")).unwrap();
    assert_eq!(matches.len(), 7);

    assert_eq!(matches[0].value(), "ab");
    assert_eq!(matches[0].keyword(), "Ab");

    assert_eq!(matches[1].value(), "dc");
    assert_eq!(matches[1].keyword(), "Abc");

    assert_eq!(matches[2].value(), "ab");
    assert_eq!(matches[2].keyword(), "Ab");

    assert_eq!(matches[3].value(), "abc");
    assert_eq!(matches[3].keyword(), "Abc");

    assert_eq!(matches[4].value(), "acq");
    assert_eq!(matches[4].keyword(), "Ab");

    assert_eq!(matches[5].value(), "ab");
    assert_eq!(matches[5].keyword(), "Ab");

    assert_eq!(matches[6].value(), "abc");
    assert_eq!(matches[6].keyword(), "Abc");
}

#[test]
fn test_search_bounded() {
    let dct = vec![
        (String::from("ab"), None),
        (String::from("abc"), Some("ab".to_string())),
        (String::from("bcd"), None),
        (String::from("def"), None),
    ];
    let pt = create_prefix_tree(
        dct,
        Some(SearchOptions {
            case_sensitive: true,
            check_bounds: true,
        }),
    )
    .unwrap();

    // No word bounds around patterns
    let matches = pt.find_text_matches("abp pabc bcdefg abhx cab".to_string()).unwrap();
    assert_eq!(matches.len(), 0);

    // Word bounds around patterns
    let mut matches = pt.find_text_matches("abc. -bcd- AB def".to_string()).unwrap();
    assert_eq!(matches.len(), 3);
    matches.sort();

    assert_eq!(matches[0].value(), "abc");
    assert_eq!(matches[1].value(), "bcd");
    assert_eq!(matches[2].value(), "def");
}

#[test]
fn test_search_bounded_diacritics() {
    let dct = vec![
        (String::from("abc"), Some("ab".to_string())),
        (String::from("ábc"), Some("ab-accent".to_string())),
        (String::from("xyzò"), Some("xyzo-accent".to_string())),
        (String::from("xyzo"), None),
    ];
    let pt = create_prefix_tree(
        dct,
        Some(SearchOptions {
            case_sensitive: true,
            check_bounds: true,
        }),
    )
    .unwrap();

    let hs = "abc-ábc: xyzo!xyzò äbc-".nfc().collect();
    let matches = pt.find_text_matches(hs).unwrap();
    assert_eq!(matches.len(), 4);

    assert_eq!(matches[0].keyword(), "ab");
    assert_eq!(matches[1].keyword(), "ab-accent");
    assert_eq!(matches[2].keyword(), "xyzo");
    assert_eq!(matches[3].keyword(), "xyzo-accent");
}

#[test]
fn test_search_bounded_case_insensitive() {
    let dct = vec![
        (String::from("abC"), Some("ab".to_string())),
        (String::from("áBC"), Some("ab-accent".to_string())),
        (String::from("xyzò"), Some("xyzo-accent".to_string())),
        (String::from("xyzo"), None),
        (String::from("yöyyi"), Some("Yoyyi".to_string())),
    ];
    let pt = create_prefix_tree(
        dct,
        Some(SearchOptions {
            case_sensitive: false,
            check_bounds: true,
        }),
    )
    .unwrap();
    let hs = "TEXT: ÁBC_3 Yöyyiaa, ABc, XYzò YÖyyi".nfc().collect();
    let matches = pt.find_text_matches(hs).unwrap();
    assert_eq!(matches.len(), 3);

    assert_eq!(matches[0].keyword(), "ab");
    assert_eq!(matches[1].keyword(), "xyzo-accent");
    assert_eq!(matches[2].keyword(), "Yoyyi");
}

fn tuples(ms: &[Match]) -> Vec<(usize, usize, String, String)> {
    ms.iter()
        .map(|m| (m.char_range().0, m.char_range().1, m.value().to_string(), m.keyword().to_string()))
        .collect()
}

#[test]
fn scenario_matches_in_end_order() {
    let pt = sample_tree_1();
    let ms = pt.find_text_matches("123 a ab c d cd bc abc".to_string()).unwrap();
    assert_eq!(
        tuples(&ms),
        vec![
            (6, 8, "ab".to_string(), "ab".to_string()),
            (13, 15, "cd".to_string(), "cd".to_string()),
            (19, 21, "ab".to_string(), "ab".to_string()),
            (19, 22, "abc".to_string(), "abc".to_string()),
        ]
    );
}

#[test]
fn scenario_overlapping_patterns() {
    let pt = create_prefix_tree(
        add_keyword_slot(vec![
            String::from("a"),
            String::from("abb"),
            String::from("bb"),
            String::from("bCd"),
            String::from("bCx"),
            String::from("Cxaabb"),
        ]),
        None,
    )
    .unwrap();
    let text = "This is a string with some nonsense to check: abbaaCxa bCdbCxbb";
    let ms = pt.find_text_matches(text.to_string()).unwrap();
    let got = tuples(&ms);
    let chars: Vec<char> = text.chars().collect();
    // every occurrence of every pattern, by end position, longest first
    let mut expected = Vec::new();
    for e in 1..=chars.len() {
        for p in ["Cxaabb", "abb", "bCd", "bCx", "bb", "a"] {
            let l = p.chars().count();
            if l <= e && chars[e - l..e].iter().collect::<String>() == p {
                expected.push((e - l, e, p.to_string(), p.to_string()));
            }
        }
    }
    expected.sort_by(|x, y| x.1.cmp(&y.1).then(y.2.chars().count().cmp(&x.2.chars().count())));
    assert_eq!(got, expected);
    assert!(got.contains(&(8, 9, "a".to_string(), "a".to_string())));
}

#[test]
fn scenario_bounded_exact_ranges() {
    let dct = vec![
        (String::from("ab"), None),
        (String::from("abc"), Some("ab".to_string())),
        (String::from("bcd"), None),
        (String::from("def"), None),
    ];
    let pt = create_prefix_tree(dct, Some(SearchOptions { case_sensitive: true, check_bounds: true })).unwrap();
    let ms = pt.find_text_matches("abc. -bcd- AB def".to_string()).unwrap();
    assert_eq!(
        tuples(&ms),
        vec![
            (0, 3, "abc".to_string(), "ab".to_string()),
            (6, 9, "bcd".to_string(), "bcd".to_string()),
            (14, 17, "def".to_string(), "def".to_string()),
        ]
    );
}

#[test]
fn bounded_matches_are_flanked_by_non_word_characters() {
    let dct = add_keyword_slot(vec![String::from("ab"), String::from("b_c"), String::from("c")]);
    let pt = create_prefix_tree(dct, Some(SearchOptions { case_sensitive: true, check_bounds: true })).unwrap();
    let text = "ab b_c xab c c1 _c (c) ab";
    let chars: Vec<char> = text.chars().collect();
    let ms = pt.find_text_matches(text.to_string()).unwrap();
    for m in &ms {
        let (s, e) = m.char_range();
        assert!(s == 0 || !is_word_char(chars[s - 1]));
        assert!(e == chars.len() || !is_word_char(chars[e]));
    }
    assert_eq!(
        tuples(&ms),
        vec![
            (0, 2, "ab".to_string(), "ab".to_string()),
            (3, 6, "b_c".to_string(), "b_c".to_string()),
            (11, 12, "c".to_string(), "c".to_string()),
            (20, 21, "c".to_string(), "c".to_string()),
            (23, 25, "ab".to_string(), "ab".to_string()),
        ]
    );
}

#[test]
fn case_insensitive_scan_matches_lowercased_text() {
    let dct = vec![
        (String::from("abc"), Some(String::from("Abc"))),
        (String::from("ab"), Some(String::from("Ab"))),
        (String::from("DC"), Some(String::from("Abc"))),
    ];
    let pt = create_prefix_tree(dct, Some(SearchOptions { case_sensitive: false, check_bounds: false })).unwrap();
    let text = "aBq dc ABCac pqracQ AbC";
    let a = pt.find_text_matches(text.to_string()).unwrap();
    let b = pt.find_text_matches(text.to_lowercase()).unwrap();
    assert_eq!(a, b);
    assert_eq!(a.len(), 6);
}

#[test]
fn scanning_twice_gives_the_same_matches() {
    let pt = sample_tree_1();
    let a = pt.find_text_matches("abcd cdab".to_string()).unwrap();
    let b = pt.find_text_matches("abcd cdab".to_string()).unwrap();
    assert_eq!(a, b);
}

#[test]
fn entry_order_does_not_change_matches() {
    let d1 = vec![
        (String::from("he"), None),
        (String::from("she"), Some(String::from("S"))),
        (String::from("hers"), None),
    ];
    let d2 = vec![
        (String::from("hers"), None),
        (String::from("he"), None),
        (String::from("she"), Some(String::from("S"))),
    ];
    let a = create_prefix_tree(d1, None).unwrap();
    let b = create_prefix_tree(d2, None).unwrap();
    let text = "ushers and she said hershey";
    assert_eq!(a.find_text_matches(text.to_string()).unwrap(), b.find_text_matches(text.to_string()).unwrap());
    assert_eq!(a.total_nodes(), b.total_nodes());
}

#[test]
fn positions_count_characters_not_bytes() {
    let pt = create_prefix_tree(add_keyword_slot(vec![String::from("ö")]), None).unwrap();
    let ms = pt.find_text_matches("ääö".to_string()).unwrap();
    assert_eq!(tuples(&ms), vec![(2, 3, "ö".to_string(), "ö".to_string())]);
}

#[test]
fn empty_text_has_no_matches() {
    let pt = sample_tree_1();
    assert!(pt.find_text_matches(String::new()).unwrap().is_empty());
}

#[test]
fn word_characters() {
    assert!(is_word_char('a'));
    assert!(is_word_char('Z'));
    assert!(is_word_char('7'));
    assert!(is_word_char('_'));
    assert!(is_word_char('é'));
    assert!(!is_word_char(' '));
    assert!(!is_word_char('-'));
    assert!(!is_word_char('.'));
}

#[test]
fn match_accessors() {
    let m = Match::new("abc", "kw", 7);
    assert_eq!(m.char_range(), (4, 7));
    assert_eq!(m.value(), "abc");
    assert_eq!(m.keyword(), "kw");
    let m = Match::new("äö", "x", 2);
    assert_eq!(m.char_range(), (0, 2));
}

#[test]
fn ring_buffer_keeps_the_last_items() {
    let mut buf: RingBuffer<char> = RingBuffer::new(3);
    assert_eq!(buf.len(), 0);
    for c in ['a', 'b'] {
        buf.push(c);
    }
    assert_eq!(buf.len(), 2);
    assert_eq!(buf.get_item(0), 'a');
    assert_eq!(buf.get_item(1), 'b');
    for c in ['c', 'd', 'e'] {
        buf.push(c);
    }
    assert_eq!(buf.len(), 3);
    assert_eq!(buf.get_item(0), 'c');
    assert_eq!(buf.get_item(1), 'd');
    assert_eq!(buf.get_item(2), 'e');
}
