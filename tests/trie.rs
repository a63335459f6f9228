use ah_search_rs::trie::{add_keyword_slot, create_prefix_tree, Link, SearchError, SearchOptions};

#[test]
fn test_initialization() {
    let dictionary = add_keyword_slot(vec![
        String::from("ab"),
        String::from("abc"),
        String::from("cd"),
    ]);
    let pt = create_prefix_tree(dictionary, None).unwrap();

    // Verify root node properties
    assert!(pt.root_node().fail_node().is_none());
    assert_eq!(pt.root_node().next_nodes().len(), 2);

    let mut root_chars: Vec<char> = pt
        .root_node()
        .next_nodes()
        .iter()
        .map(|Link(c, _)| *c)
        .collect();

    root_chars.sort();
    assert_eq!(root_chars[0], 'a');
    assert_eq!(root_chars[1], 'c');

    // Total nodes
    assert_eq!(pt.total_nodes(), pt.nodes_vec().len());
    assert_eq!(pt.total_nodes(), 6);

    // Count dictionary nodes
    let mut dct_vals = Vec::new();
    for node in pt.nodes_vec() {
        if let Some((value, _)) = node.value_keyword() {
            dct_vals.push(value.to_string());
        }
    }
    dct_vals.sort();
    assert_eq!(dct_vals.len(), 3);

    assert_eq!(&dct_vals[0], "ab");
    assert_eq!(&dct_vals[1], "abc");
    assert_eq!(&dct_vals[2], "cd");
}

#[test]
fn test_node_by_path() {
    let pt = create_prefix_tree(
        add_keyword_slot(vec![
            String::from("ab"),
            String::from("abc"),
            String::from("bcd"),
            String::from("cd"),
            String::from("cb"),
        ]),
        None,
    )
    .unwrap();

    // Check 'ab' node
    let ab_node = pt.get_node(pt.node_by_path("ab").unwrap()).unwrap();
    let ab_nxt = match ab_node.value_keyword() {
        None => panic!("Expected a dictionary node"),
        Some((value, _)) => {
            assert_eq!("ab", value);
            ab_node.next_nodes()
        }
    };
    assert_eq!(ab_nxt.len(), 1);
    let Link(c, _) = ab_nxt[0];
    assert_eq!(c, 'c');

    // Check 'c' node
    let c_node = pt.get_node(pt.node_by_path("c").unwrap()).unwrap();
    let c_nxt = match c_node.value_keyword() {
        None => c_node.next_nodes(),
        Some(_) => panic!("Expected intermediate node"),
    };
    assert_eq!(c_nxt.len(), 2);
    let mut chars: Vec<char> = c_nxt.iter().map(|Link(c, _)| *c).collect();
    chars.sort();
    assert_eq!(chars, ['b', 'd']);

    // Nonexistent nodes
    if pt.node_by_path("cdb").is_some() {
        panic!("Did not expect to find node!")
    }
    if pt.node_by_path("xyz").is_some() {
        panic!("Did not expect to find node!")
    }
    if pt.node_by_path("abd").is_some() {
        panic!("Did not expect to find node!")
    }
    if pt.node_by_path("").is_some() {
        panic!("Did not expect to find node!")
    }
}

#[test]
fn test_adj_links() {
    let pt = create_prefix_tree(
        add_keyword_slot(vec![
            String::from("ab"),
            String::from("abc"),
            String::from("bcd"),
            String::from("cd"),
        ]),
        None,
    )
    .unwrap();

    assert_eq!(pt.root_node().next_nodes().len(), 3);
    let ab_node = pt.node_by_path("ab").unwrap();
    let b_node = pt.node_by_path("b").unwrap();
    let c_node = pt.node_by_path("c").unwrap();
    let cd_node = pt.node_by_path("cd").unwrap();
    let bc_node = pt.node_by_path("bc").unwrap();
    let abc_node = pt.node_by_path("abc").unwrap();
    let bcd_node = pt.node_by_path("bcd").unwrap();

    // bc -> c
    if let Some(nid) = pt.get_node(bc_node).unwrap().fail_node() {
        assert_eq!(nid, c_node);
    } else {
        panic!("Expected an adjacent node!")
    }

    // bcd -> cd
    if let Some(nid) = pt.get_node(bcd_node).unwrap().fail_node() {
        assert_eq!(nid, cd_node);
    } else {
        panic!("Expected an adjacent node!")
    }

    // abc -> bc
    if let Some(nid) = pt.get_node(abc_node).unwrap().fail_node() {
        assert_eq!(nid, bc_node);
    } else {
        panic!("Expected an adjacent node!")
    }

    // ab -> b
    if let Some(nid) = pt.get_node(ab_node).unwrap().fail_node() {
        assert_eq!(nid, b_node);
    } else {
        panic!("Expected an adjacent node!")
    }

    // b -> root
    if let Some(nid) = pt.get_node(b_node).unwrap().fail_node() {
        assert_eq!(nid, pt.root_node_id());
    } else {
        panic!("Expected an adjacent node!")
    }

    // cd -> root
    if let Some(nid) = pt.get_node(cd_node).unwrap().fail_node() {
        assert_eq!(nid, pt.root_node_id());
    } else {
        panic!("Expected an adjacent node!")
    }
}

#[test]
fn test_adj_links_medium() {
    let pt = create_prefix_tree(
        add_keyword_slot(vec![
            String::from("a"),
            String::from("ab"),
            String::from("bab"),
            String::from("bca"),
            String::from("ca"),
            String::from("bc"),
        ]),
        None,
    )
    .unwrap();

    let a_node = pt.node_by_path("a").unwrap();
    let b_node = pt.node_by_path("b").unwrap();
    let c_node = pt.node_by_path("c").unwrap();

    let ab_node = pt.node_by_path("ab").unwrap();
    let ba_node = pt.node_by_path("ba").unwrap();
    let bc_node = pt.node_by_path("bc").unwrap();
    let ca_node = pt.node_by_path("ca").unwrap();
    let bca_node = pt.node_by_path("bca").unwrap();
    let bab_node = pt.node_by_path("bab").unwrap();

    // ba -> a
    if let Some(nid) = pt.get_node(ba_node).unwrap().fail_node() {
        assert_eq!(nid, a_node);
    } else {
        panic!("Expected an adjacent node!")
    }

    // ca -> a
    if let Some(nid) = pt.get_node(ca_node).unwrap().fail_node() {
        assert_eq!(nid, a_node);
    } else {
        panic!("Expected an adjacent node!")
    }

    // bc -> c
    if let Some(nid) = pt.get_node(bc_node).unwrap().fail_node() {
        assert_eq!(nid, c_node);
    } else {
        panic!("Expected an adjacent node!")
    }

    // ab -> b
    if let Some(nid) = pt.get_node(ab_node).unwrap().fail_node() {
        assert_eq!(nid, b_node);
    } else {
        panic!("Expected an adjacent node!")
    }

    // bca -> ca
    if let Some(nid) = pt.get_node(bca_node).unwrap().fail_node() {
        assert_eq!(nid, ca_node);
    } else {
        panic!("Expected an adjacent node!")
    }

    // bab -> ab
    if let Some(nid) = pt.get_node(bab_node).unwrap().fail_node() {
        assert_eq!(nid, ab_node);
    } else {
        panic!("Expected an adjacent node!")
    }
}

#[test]
#[should_panic]
fn test_initialization_empty_str() {
    let res = create_prefix_tree(
        add_keyword_slot(vec![String::from("abc"), String::from("")]),
        None,
    );
    res.unwrap();
}

#[test]
#[should_panic]
fn test_initialization_empty_dct() {
    let res = create_prefix_tree(Vec::new(), None);
    res.unwrap();
}

#[test]
#[should_panic]
fn test_initialization_duplicate() {
    let res = create_prefix_tree(
        add_keyword_slot(vec![
            String::from("abc"),
            String::from("xy"),
            String::from("abc"),
            String::from("opq"),
        ]),
        None,
    );
    res.unwrap();
}

#[test]
fn test_create_case_insensitive() {
    let pt = create_prefix_tree(
        add_keyword_slot(vec![
            String::from("abc"),
            String::from("xY"),
            String::from("Xyz"),
            String::from("AB"),
        ]),
        Some(SearchOptions {
            case_sensitive: false,
            check_bounds: false,
        }),
    )
    .unwrap();

    assert_eq!(pt.total_nodes(), 7);
    let mut total_dct = 0;
    for node in pt.nodes_vec() {
        if let Some((value, _)) = node.value_keyword() {
            total_dct += 1;
            assert_eq!(value, value.to_lowercase());
        }
    }
    assert_eq!(total_dct, 4);
}

#[test]
#[should_panic]
fn test_initialization_case_insensitive_duplicate() {
    let res = create_prefix_tree(
        add_keyword_slot(vec![
            String::from("abc"),
            String::from("xy"),
            String::from("aBc"),
        ]),
        Some(SearchOptions {
            case_sensitive: false,
            check_bounds: false,
        }),
    );
    res.unwrap();
}

#[test]
#[should_panic]
fn test_instantiate_keywords_duplicate() {
    let dct = vec![
        (String::from("abc"), Some(String::from("Abc"))),
        (String::from("ABC"), Some(String::from("Acd"))),
        (String::from("aBc"), Some(String::from("ABC"))),
        (String::from("abc"), Some(String::from("def"))),
    ];
    create_prefix_tree(dct, None).unwrap();
}

#[test]
#[should_panic]
fn test_instantiate_keywords_duplicate_case_insensitive() {
    let dct = vec![
        (String::from("abc"), Some(String::from("Abc"))),
        (String::from("def"), Some(String::from("Def"))),
        (String::from("gHI"), Some(String::from("Ghi"))),
        (String::from("ABC"), Some(String::from("Abc"))),
    ];
    create_prefix_tree(
        dct,
        Some(SearchOptions {
            case_sensitive: false,
            check_bounds: false,
        }),
    )
    .unwrap();
}

#[test]
fn test_dct_links_have_kw() {
    let pt = create_prefix_tree(
        add_keyword_slot(vec![
            String::from("ab"),
            String::from("abc"),
            String::from("bcd"),
            String::from("cd"),
            String::from("acdb"),
        ]),
        None,
    )
    .unwrap();

    let mut total_dct = 0;
    for node in pt.nodes_vec() {
        if let Some(nid) = node.fail_dct() {
            total_dct += 1;
            pt.get_node(nid).unwrap().value_keyword().unwrap();
        }
    }
    // Expect bcd -> cd, acd -> cd
    assert_eq!(total_dct, 2);
}

#[test]
fn test_dct_links_vals() {
    let pt = create_prefix_tree(
        add_keyword_slot(vec![
            String::from("ab"),
            String::from("abc"),
            String::from("bcd"),
            String::from("cd"),
            String::from("acdb"),
        ]),
        None,
    )
    .unwrap();

    let bcd_id = pt.node_by_path("bcd").unwrap();
    let bcd_node = pt.get_node(bcd_id).unwrap();

    let cd_id = pt.node_by_path("cd").unwrap();

    let acd_id = pt.node_by_path("acd").unwrap();
    let acd_node = pt.get_node(acd_id).unwrap();

    // Expect bcd -> cd, acd -> cd
    assert_eq!(bcd_node.fail_dct().unwrap(), cd_id);
    assert_eq!(acd_node.fail_dct().unwrap(), cd_id);
}

#[test]
fn errors_for_invalid_dictionaries() {
    assert!(matches!(create_prefix_tree(Vec::new(), None), Err(SearchError::InvalidDictionary)));
    assert!(matches!(
        create_prefix_tree(add_keyword_slot(vec![String::from("")]), None),
        Err(SearchError::InvalidDictionary)
    ));
    assert!(matches!(
        create_prefix_tree(add_keyword_slot(vec![String::from("x"), String::from("")]), None),
        Err(SearchError::InvalidDictionary)
    ));
    assert!(matches!(
        create_prefix_tree(add_keyword_slot(vec![String::from(""), String::from("")]), None),
        Err(SearchError::DuplicateNode)
    ));
    assert!(matches!(
        create_prefix_tree(add_keyword_slot(vec![String::from("ab"), String::from("ab")]), None),
        Err(SearchError::DuplicateNode)
    ));
}

#[test]
fn case_folding_makes_duplicates_only_when_insensitive() {
    let dct = add_keyword_slot(vec![String::from("Ab"), String::from("aB")]);
    assert!(create_prefix_tree(dct, None).is_ok());
    let dct = add_keyword_slot(vec![String::from("Ab"), String::from("aB")]);
    let res = create_prefix_tree(dct, Some(SearchOptions { case_sensitive: false, check_bounds: false }));
    assert!(matches!(res, Err(SearchError::DuplicateNode)));
}

#[test]
fn get_node_rejects_unknown_ids() {
    let pt = create_prefix_tree(add_keyword_slot(vec![String::from("ab")]), None).unwrap();
    assert_eq!(pt.total_nodes(), 3);
    assert!(pt.get_node(2).is_ok());
    assert!(matches!(pt.get_node(3), Err(SearchError::InvalidNodeId(3))));
}

#[test]
fn lookup_finds_every_pattern_with_its_keyword() {
    let dct = vec![
        (String::from("python"), None),
        (String::from("python3"), Some(String::from("python"))),
        (String::from("pylang"), Some(String::from("python"))),
        (String::from("ruby"), Some(String::from("Ruby"))),
    ];
    let pt = create_prefix_tree(dct, None).unwrap();
    for (pattern, kw) in [("python", "python"), ("python3", "python"), ("pylang", "python"), ("ruby", "Ruby")] {
        let node = pt.get_node(pt.node_by_path(pattern).unwrap()).unwrap();
        assert_eq!(node.value_keyword(), Some((pattern, kw)));
        assert_eq!(node.pattern_len(), pattern.chars().count());
    }
    // an intermediate node carries no value
    let py = pt.get_node(pt.node_by_path("py").unwrap()).unwrap();
    assert_eq!(py.value_keyword(), None);
    assert_eq!(pt.max_pattern_len(), 7);
}

#[test]
fn failure_links_are_longest_proper_suffixes() {
    let pt = create_prefix_tree(
        add_keyword_slot(vec![String::from("she"), String::from("he"), String::from("hers"), String::from("his")]),
        None,
    )
    .unwrap();
    let she = pt.node_by_path("she").unwrap();
    let he = pt.node_by_path("he").unwrap();
    let sh = pt.node_by_path("sh").unwrap();
    let h = pt.node_by_path("h").unwrap();
    assert_eq!(pt.get_node(she).unwrap().fail_node(), Some(he));
    assert_eq!(pt.get_node(sh).unwrap().fail_node(), Some(h));
    assert_eq!(pt.get_node(she).unwrap().fail_dct(), Some(he));
    assert_eq!(pt.get_node(he).unwrap().fail_dct(), None);
}

#[test]
fn patterns_are_normalized_to_nfc() {
    // "a" followed by a combining acute accent composes to U+00E1
    let dct = add_keyword_slot(vec![String::from("a\u{301}b")]);
    let pt = create_prefix_tree(dct, None).unwrap();
    assert!(pt.node_by_path("\u{e1}b").is_some());
    assert!(pt.node_by_path("a\u{301}b").is_none());
    let node = pt.get_node(pt.node_by_path("\u{e1}b").unwrap()).unwrap();
    assert_eq!(node.value_keyword(), Some(("\u{e1}b", "\u{e1}b")));
}

#[test]
fn edges_are_sorted_and_searchable_with_large_fanout() {
    let words: Vec<String> = "qwertyuiopasdfghjklzxcvbnm".chars().map(|c| c.to_string()).collect();
    let pt = create_prefix_tree(add_keyword_slot(words), None).unwrap();
    let chars: Vec<char> = pt.root_node().next_nodes().iter().map(|l| l.get_char()).collect();
    let mut sorted = chars.clone();
    sorted.sort();
    assert_eq!(chars, sorted);
    for c in 'a'..='z' {
        let id = pt.root_node().follow_link(c).unwrap();
        assert_eq!(pt.node_by_path(&c.to_string()), Some(id));
    }
    assert_eq!(pt.root_node().follow_link('0'), None);
}

#[test]
fn construction_is_deterministic() {
    let make = || {
        create_prefix_tree(
            add_keyword_slot(vec![String::from("ab"), String::from("abc"), String::from("cd")]),
            None,
        )
        .unwrap()
    };
    let a = make();
    let b = make();
    assert_eq!(a.total_nodes(), b.total_nodes());
    let text = "abcd xabc cdab";
    assert_eq!(
        a.find_text_matches(text.to_string()).unwrap(),
        b.find_text_matches(text.to_string()).unwrap()
    );
}
