//! Laws of the automaton, proved from the specifications of construction,
//! lookup and scanning.
use crate::trie::search::{
    folded_text, match_at, match_views, matches_ending, matches_upto, scan_spec, word_bounded, Match, MatchView,
};
use crate::trie::{
    build_error, effective_options, entry_key, entry_keyword, is_prefix, is_proper_suffix, keys_of, keywords_of,
    lemma_prefix_node, lemma_unique_path, lower_of, prefix_of_some, some_empty, SearchOptions, TrieView,
};
use vstd::prelude::*;

verus! {

/// What the scan reports of a match: it lies within the text read, spells
/// its value there, the value is a pattern with the reported keyword, and
/// it is word-bounded when bounds are checked.
pub open spec fn sound_match(v: TrieView, t: Seq<char>, m: MatchView) -> bool {
    &&& m.start <= m.end <= t.len()
    &&& m.end - m.start == m.value.len()
    &&& t.subrange(m.start as int, m.end as int) == m.value
    &&& v.has_pattern(m.value)
    &&& m.keyword == v.keyword_of(m.value)
    &&& (v.options.check_bounds ==> word_bounded(t, m.start as int, m.end as int))
}

proof fn lemma_ending_sound(v: TrieView, t: Seq<char>, e: int, hi: int)
    requires
        0 <= hi <= e <= t.len(),
    ensures
        forall|k: int|
            0 <= k < matches_ending(v, t, e, hi).len() ==> sound_match(v, t, #[trigger] matches_ending(v, t, e, hi)[k]),
    decreases hi,
{
    if hi > 0 {
        lemma_ending_sound(v, t, e, hi - 1);
        let here = match_at(v, t, e, hi);
        let rest = matches_ending(v, t, e, hi - 1);
        assert(matches_ending(v, t, e, hi) == here + rest);
        assert forall|k: int| 0 <= k < matches_ending(v, t, e, hi).len() implies sound_match(
            v,
            t,
            #[trigger] matches_ending(v, t, e, hi)[k],
        ) by {
            if k >= here.len() {
                assert(matches_ending(v, t, e, hi)[k] == rest[k - here.len()]);
            }
        }
    }
}

proof fn lemma_upto_sound(v: TrieView, t: Seq<char>, n: int)
    requires
        0 <= n <= t.len(),
    ensures
        forall|k: int| 0 <= k < matches_upto(v, t, n).len() ==> sound_match(v, t, #[trigger] matches_upto(v, t, n)[k]),
    decreases n,
{
    if n > 0 {
        lemma_upto_sound(v, t, n - 1);
        lemma_ending_sound(v, t, n, n);
        let a = matches_upto(v, t, n - 1);
        let b = matches_ending(v, t, n, n);
        assert(matches_upto(v, t, n) == a + b);
        assert forall|k: int| 0 <= k < matches_upto(v, t, n).len() implies sound_match(
            v,
            t,
            #[trigger] matches_upto(v, t, n)[k],
        ) by {
            if k < a.len() {
                assert(matches_upto(v, t, n)[k] == a[k]);
            } else {
                assert(matches_upto(v, t, n)[k] == b[k - a.len()]);
            }
        }
    }
}

/// Every reported match spells its value in the text as read: its
/// character range holds exactly the characters of its value.
pub proof fn lemma_match_spells_value(v: TrieView, text: Seq<char>, k: int)
    requires
        0 <= k < scan_spec(v, text).len(),
    ensures
        ({
            let t = folded_text(v, text);
            let m = scan_spec(v, text)[k];
            &&& m.start <= m.end <= t.len()
            &&& m.end - m.start == m.value.len()
            &&& t.subrange(m.start as int, m.end as int) == m.value
        }),
{
    let t = folded_text(v, text);
    lemma_upto_sound(v, t, t.len() as int);
}

/// With bounds checked, every reported match is flanked by non-word
/// characters or by the ends of the text.
pub proof fn lemma_match_word_bounded(v: TrieView, text: Seq<char>, k: int)
    requires
        v.options.check_bounds,
        0 <= k < scan_spec(v, text).len(),
    ensures
        word_bounded(folded_text(v, text), scan_spec(v, text)[k].start as int, scan_spec(v, text)[k].end as int),
{
    let t = folded_text(v, text);
    lemma_upto_sound(v, t, t.len() as int);
}

/// Every pattern of the dictionary is found by path lookup, at a node that
/// holds the pattern as its value and the entry's keyword.
pub proof fn lemma_lookup_finds_pattern(
    t: TrieView,
    d: Seq<(String, Option<String>)>,
    opts: Option<SearchOptions>,
    i: int,
)
    requires
        t.built_from(d, opts),
        build_error(keys_of(d, effective_options(opts).case_sensitive)) is None,
        0 <= i < d.len(),
    ensures
        ({
            let cs = effective_options(opts).case_sensitive;
            let key = entry_key(d[i], cs);
            &&& t.lookup(key) is Some
            &&& t.nodes[t.lookup(key)->0 as int].value == Some(key)
            &&& t.nodes[t.lookup(key)->0 as int].keyword == Some(entry_keyword(d[i], cs))
        }),
{
    reveal(TrieView::holds_entries);
    let cs = effective_options(opts).case_sensitive;
    let keys = keys_of(d, cs);
    let kws = keywords_of(d, cs);
    let key = keys[i];
    assert(key == entry_key(d[i], cs));
    assert(t.holds_key(keys[i], kws[i]));
    let j = choose|j: int|
        t.valid(j) && #[trigger] t.paths[j] == key && t.nodes[j].value == Some(key) && t.nodes[j].keyword == Some(kws[i]);
    assert(key.len() > 0) by {
        if key.len() == 0 {
            assert(some_empty(keys));
        }
    }
    assert(t.has_path(key));
    let l = choose|l: int| t.valid(l) && #[trigger] t.paths[l] == key;
    lemma_unique_path(t, l, j);
}

/// The failure link of every node other than the root leads to the node
/// spelling the longest proper suffix of its path that the tree holds.
pub proof fn lemma_failure_link_longest(t: TrieView, i: int)
    requires
        t.wf(),
        t.valid(i),
        i != 0,
    ensures
        t.nodes[i].fail_to is Some,
        is_proper_suffix(t.paths[t.nodes[i].fail_to->0 as int], t.paths[i]),
        forall|j: int|
            t.valid(j) && is_proper_suffix(#[trigger] t.paths[j], t.paths[i]) ==> t.paths[j].len()
                <= t.paths[t.nodes[i].fail_to->0 as int].len(),
{
    assert(t.fail_ok(i));
}

/// When case is ignored and lower-casing `text` once more changes nothing,
/// scanning `text` and scanning its lower-case form report the same matches
/// in the same order (hence the same multiset of ranges and keywords).
pub proof fn lemma_case_insensitive_scan(v: TrieView, text: Seq<char>)
    requires
        !v.options.case_sensitive,
        lower_of(lower_of(text)) == lower_of(text),
    ensures
        scan_spec(v, text) == scan_spec(v, lower_of(text)),
{
}

/// Scanning one text twice reports the same matches.
pub proof fn lemma_scan_repeatable(v: TrieView, text: Seq<char>, first: Seq<Match>, second: Seq<Match>)
    requires
        match_views(first) == scan_spec(v, text),
        match_views(second) == scan_spec(v, text),
    ensures
        match_views(first) == match_views(second),
{
}

/// Two automata with the same options, patterns and keywords report the
/// same matches on every text.
pub proof fn lemma_same_patterns_same_scan(a: TrieView, b: TrieView, text: Seq<char>)
    requires
        a.options == b.options,
        forall|s: Seq<char>| #[trigger] a.has_pattern(s) == b.has_pattern(s),
        forall|s: Seq<char>| a.has_pattern(s) ==> #[trigger] a.keyword_of(s) == b.keyword_of(s),
    ensures
        scan_spec(a, text) == scan_spec(b, text),
{
    let t = folded_text(a, text);
    lemma_same_upto(a, b, t, t.len() as int);
}

proof fn lemma_same_upto(a: TrieView, b: TrieView, t: Seq<char>, n: int)
    requires
        a.options == b.options,
        forall|s: Seq<char>| #[trigger] a.has_pattern(s) == b.has_pattern(s),
        forall|s: Seq<char>| a.has_pattern(s) ==> #[trigger] a.keyword_of(s) == b.keyword_of(s),
    ensures
        matches_upto(a, t, n) == matches_upto(b, t, n),
    decreases n,
{
    if n > 0 {
        lemma_same_upto(a, b, t, n - 1);
        lemma_same_ending(a, b, t, n, n);
    }
}

proof fn lemma_same_ending(a: TrieView, b: TrieView, t: Seq<char>, e: int, hi: int)
    requires
        a.options == b.options,
        forall|s: Seq<char>| #[trigger] a.has_pattern(s) == b.has_pattern(s),
        forall|s: Seq<char>| a.has_pattern(s) ==> #[trigger] a.keyword_of(s) == b.keyword_of(s),
    ensures
        matches_ending(a, t, e, hi) == matches_ending(b, t, e, hi),
    decreases hi,
{
    if hi > 0 {
        lemma_same_ending(a, b, t, e, hi - 1);
        let s = t.subrange(e - hi, e);
        assert(a.has_pattern(s) == b.has_pattern(s));
        if a.has_pattern(s) {
            assert(a.keyword_of(s) == b.keyword_of(s));
        }
        assert(match_at(a, t, e, hi) == match_at(b, t, e, hi));
    }
}

/// The patterns of an automaton built from a dictionary are exactly the
/// dictionary's patterns, each with its entry's keyword.
pub proof fn lemma_built_patterns(t: TrieView, d: Seq<(String, Option<String>)>, opts: Option<SearchOptions>)
    requires
        t.built_from(d, opts),
        build_error(keys_of(d, effective_options(opts).case_sensitive)) is None,
    ensures
        forall|s: Seq<char>|
            #[trigger] t.has_pattern(s) <==> exists|i: int|
                0 <= i < d.len() && entry_key(#[trigger] d[i], effective_options(opts).case_sensitive) == s,
        forall|i: int|
            0 <= i < d.len() ==> #[trigger] t.keyword_of(entry_key(d[i], effective_options(opts).case_sensitive))
                == entry_keyword(d[i], effective_options(opts).case_sensitive),
{
    reveal(TrieView::holds_entries);
    let cs = effective_options(opts).case_sensitive;
    let keys = keys_of(d, cs);
    let kws = keywords_of(d, cs);
    assert forall|s: Seq<char>|
        #[trigger] t.has_pattern(s) <==> exists|i: int| 0 <= i < d.len() && entry_key(#[trigger] d[i], cs) == s by {
        if t.has_pattern(s) {
            let j = choose|j: int| t.valid(j) && #[trigger] t.paths[j] == s && t.nodes[j].is_terminal();
            assert(t.terminal_from(j, keys, kws, d.len() as int));
            let i = choose|i: int| 0 <= i < d.len() && t.paths[j] == #[trigger] keys[i] && t.nodes[j].keyword == Some(kws[i]);
            assert(entry_key(d[i], cs) == s);
        }
        if exists|i: int| 0 <= i < d.len() && entry_key(#[trigger] d[i], cs) == s {
            let i = choose|i: int| 0 <= i < d.len() && entry_key(#[trigger] d[i], cs) == s;
            assert(t.holds_key(keys[i], kws[i]));
            let j = choose|j: int|
                t.valid(j) && #[trigger] t.paths[j] == keys[i] && t.nodes[j].value == Some(keys[i]) && t.nodes[j].keyword == Some(kws[i]);
            assert(t.paths[j] == s && t.nodes[j].is_terminal());
        }
    }
    assert forall|i: int| 0 <= i < d.len() implies #[trigger] t.keyword_of(entry_key(d[i], cs)) == entry_keyword(d[i], cs) by {
        assert(t.holds_key(keys[i], kws[i]));
        let j = choose|j: int|
            t.valid(j) && #[trigger] t.paths[j] == keys[i] && t.nodes[j].value == Some(keys[i]) && t.nodes[j].keyword == Some(kws[i]);
        assert(t.paths[j] == keys[i] && t.nodes[j].is_terminal());
        let j2 = choose|j2: int| t.valid(j2) && #[trigger] t.paths[j2] == keys[i] && t.nodes[j2].is_terminal();
        lemma_unique_path(t, j, j2);
    }
}

/// The paths an automaton built from a dictionary spells are the prefixes
/// of its patterns.
proof fn lemma_built_paths(t: TrieView, d: Seq<(String, Option<String>)>, opts: Option<SearchOptions>, s: Seq<char>)
    requires
        t.built_from(d, opts),
        build_error(keys_of(d, effective_options(opts).case_sensitive)) is None,
    ensures
        t.paths.contains(s) <==> (s.len() == 0 || prefix_of_some(s, keys_of(d, effective_options(opts).case_sensitive), d.len() as int)),
{
    reveal(TrieView::holds_entries);
    let cs = effective_options(opts).case_sensitive;
    let keys = keys_of(d, cs);
    let kws = keywords_of(d, cs);
    if t.paths.contains(s) {
        let j = choose|j: int| 0 <= j < t.paths.len() && t.paths[j] == s;
        assert(t.valid(j));
    }
    if s.len() == 0 {
        assert(t.paths[0] =~= s);
    } else if prefix_of_some(s, keys, d.len() as int) {
        let i = choose|i: int| 0 <= i < d.len() && is_prefix(s, #[trigger] keys[i]);
        assert(t.holds_key(keys[i], kws[i]));
        let j = choose|j: int|
            t.valid(j) && #[trigger] t.paths[j] == keys[i] && t.nodes[j].value == Some(keys[i]) && t.nodes[j].keyword == Some(kws[i]);
        lemma_prefix_node(t, j, s.len() as int);
        let q = choose|q: int| t.valid(q) && #[trigger] t.paths[q] == t.paths[j].take(s.len() as int);
        assert(t.paths[q] == s);
    }
}

/// Construction is deterministic: two automata built from the same
/// dictionary and options have as many nodes and report the same matches
/// on every text.
pub proof fn lemma_build_deterministic(
    a: TrieView,
    b: TrieView,
    d: Seq<(String, Option<String>)>,
    opts: Option<SearchOptions>,
    text: Seq<char>,
)
    requires
        a.built_from(d, opts),
        b.built_from(d, opts),
        build_error(keys_of(d, effective_options(opts).case_sensitive)) is None,
    ensures
        a.nodes.len() == b.nodes.len(),
        scan_spec(a, text) == scan_spec(b, text),
{
    lemma_built_patterns(a, d, opts);
    lemma_built_patterns(b, d, opts);
    let cs = effective_options(opts).case_sensitive;
    assert forall|s: Seq<char>| a.has_pattern(s) implies #[trigger] a.keyword_of(s) == b.keyword_of(s) by {
        let i = choose|i: int| 0 <= i < d.len() && entry_key(#[trigger] d[i], cs) == s;
        assert(a.keyword_of(entry_key(d[i], cs)) == entry_keyword(d[i], cs));
        assert(b.keyword_of(entry_key(d[i], cs)) == entry_keyword(d[i], cs));
    }
    lemma_same_patterns_same_scan(a, b, text);
    assert forall|s: Seq<char>| a.paths.to_set().contains(s) <==> b.paths.to_set().contains(s) by {
        lemma_built_paths(a, d, opts, s);
        lemma_built_paths(b, d, opts, s);
    }
    assert(a.paths.to_set() =~= b.paths.to_set());
    assert(a.paths.no_duplicates());
    assert(b.paths.no_duplicates());
    a.paths.unique_seq_to_set();
    b.paths.unique_seq_to_set();
}

/// The order of the dictionary's entries does not matter: automata built
/// from two orderings of the same entries report the same matches on every
/// text.
pub proof fn lemma_entry_order_irrelevant(
    a: TrieView,
    b: TrieView,
    d1: Seq<(String, Option<String>)>,
    d2: Seq<(String, Option<String>)>,
    opts: Option<SearchOptions>,
    text: Seq<char>,
)
    requires
        d1.to_multiset() == d2.to_multiset(),
        a.built_from(d1, opts),
        b.built_from(d2, opts),
        build_error(keys_of(d1, effective_options(opts).case_sensitive)) is None,
        build_error(keys_of(d2, effective_options(opts).case_sensitive)) is None,
    ensures
        scan_spec(a, text) == scan_spec(b, text),
{
    broadcast use vstd::seq_lib::group_to_multiset_ensures;
    lemma_built_patterns(a, d1, opts);
    lemma_built_patterns(b, d2, opts);
    let cs = effective_options(opts).case_sensitive;
    assert forall|s: Seq<char>| #[trigger] a.has_pattern(s) == b.has_pattern(s) by {
        if a.has_pattern(s) {
            let i = choose|i: int| 0 <= i < d1.len() && entry_key(#[trigger] d1[i], cs) == s;
            assert(d1.contains(d1[i]));
            assert(d1.to_multiset().count(d1[i]) > 0);
            assert(d2.to_multiset().count(d1[i]) > 0);
            assert(d2.contains(d1[i]));
            let i2 = choose|i2: int| 0 <= i2 < d2.len() && d2[i2] == d1[i];
            assert(entry_key(d2[i2], cs) == s);
        }
        if b.has_pattern(s) {
            let i = choose|i: int| 0 <= i < d2.len() && entry_key(#[trigger] d2[i], cs) == s;
            assert(d2.contains(d2[i]));
            assert(d2.to_multiset().count(d2[i]) > 0);
            assert(d1.to_multiset().count(d2[i]) > 0);
            assert(d1.contains(d2[i]));
            let i1 = choose|i1: int| 0 <= i1 < d1.len() && d1[i1] == d2[i];
            assert(entry_key(d1[i1], cs) == s);
        }
    }
    assert forall|s: Seq<char>| a.has_pattern(s) implies #[trigger] a.keyword_of(s) == b.keyword_of(s) by {
        let i = choose|i: int| 0 <= i < d1.len() && entry_key(#[trigger] d1[i], cs) == s;
        assert(d1.contains(d1[i]));
        assert(d1.to_multiset().count(d1[i]) > 0);
        assert(d2.to_multiset().count(d1[i]) > 0);
        assert(d2.contains(d1[i]));
        let i2 = choose|i2: int| 0 <= i2 < d2.len() && d2[i2] == d1[i];
        assert(a.keyword_of(entry_key(d1[i], cs)) == entry_keyword(d1[i], cs));
        assert(b.keyword_of(entry_key(d2[i2], cs)) == entry_keyword(d2[i2], cs));
    }
    lemma_same_patterns_same_scan(a, b, text);
}

} // verus!
