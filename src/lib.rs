//! Multi-pattern string search with an Aho-Corasick automaton.
//!
//! `trie::create_prefix_tree` builds the automaton from a dictionary of
//! (pattern, optional keyword) entries; `TrieRoot::find_text_matches` scans
//! a text in one pass and reports every occurrence of every pattern. The
//! contracts state the result exactly over the automaton's view; `laws`
//! holds the general properties proved from them.
pub mod laws;
pub mod trie;
