//! The scan: drive the automaton over the characters of a text and report
//! every occurrence of every pattern.
use super::ring_buffer::{last_n, RingBuffer};
use super::unicode::{alnum, chars_of, is_alphanumeric, lower_of, lowercase};
use super::{is_suffix, lemma_probe_init, lemma_root_path, lemma_unique_path, NodeId, SearchResult, TrieRoot, TrieView};
use vstd::prelude::*;

verus! {

/// A word character: Unicode alphanumeric, or the underscore.
pub open spec fn is_word(c: char) -> bool {
    alnum(c) || c == '_'
}

/// The characters `t[start..end]` are flanked by non-word characters or by
/// the ends of `t`.
pub open spec fn word_bounded(t: Seq<char>, start: int, end: int) -> bool {
    &&& (start == 0 || !is_word(t[start - 1]))
    &&& (end == t.len() || !is_word(t[end]))
}

/// A match as mathematical values.
pub struct MatchView {
    pub start: nat,
    pub end: nat,
    pub value: Seq<char>,
    pub keyword: Seq<char>,
}

/// The match of length `l` ending at `e` in `t`, if the automaton reports
/// one: the characters there form a pattern and, when bounds are checked,
/// are word-bounded.
pub open spec fn match_at(v: TrieView, t: Seq<char>, e: int, l: int) -> Seq<MatchView> {
    let s = t.subrange(e - l, e);
    if v.has_pattern(s) && (!v.options.check_bounds || word_bounded(t, e - l, e)) {
        seq![MatchView { start: (e - l) as nat, end: e as nat, value: s, keyword: v.keyword_of(s) }]
    } else {
        seq![]
    }
}

/// The matches ending at `e` of length at most `hi`, longest first.
pub open spec fn matches_ending(v: TrieView, t: Seq<char>, e: int, hi: int) -> Seq<MatchView>
    decreases hi,
{
    if hi <= 0 {
        seq![]
    } else {
        match_at(v, t, e, hi) + matches_ending(v, t, e, hi - 1)
    }
}

/// The matches ending at or before `n`, by end position, longest first
/// among those with the same end.
pub open spec fn matches_upto(v: TrieView, t: Seq<char>, n: int) -> Seq<MatchView>
    decreases n,
{
    if n <= 0 {
        seq![]
    } else {
        matches_upto(v, t, n - 1) + matches_ending(v, t, n, n)
    }
}

/// The text as the automaton reads it: lower-cased when case is ignored.
pub open spec fn folded_text(v: TrieView, text: Seq<char>) -> Seq<char> {
    if v.options.case_sensitive {
        text
    } else {
        lower_of(text)
    }
}

/// Every match of the automaton's patterns in `text`.
pub open spec fn scan_spec(v: TrieView, text: Seq<char>) -> Seq<MatchView> {
    let t = folded_text(v, text);
    matches_upto(v, t, t.len() as int)
}

/// The views of a sequence of matches.
pub open spec fn match_views(ms: Seq<Match>) -> Seq<MatchView> {
    ms.map_values(|m: Match| m@)
}

/// Whether `c` is a "word character": Unicode alphanumeric or an underscore.
pub fn is_word_char(c: char) -> (r: bool)
    ensures
        r == is_word(c),
{
    is_alphanumeric(c) || c == '_'
}

/// A match found in a text: the character range `start..end` of the text
/// holds `value`, a pattern of the automaton, whose keyword is `kw`.
/// Positions count Unicode scalar values, not bytes.
#[derive(PartialEq, Eq, Debug, PartialOrd, Ord, Clone)]
pub struct Match {
    start: usize,
    value: String,
    kw: String,
    end: usize,
}

impl View for Match {
    type V = MatchView;

    closed spec fn view(&self) -> MatchView {
        MatchView { start: self.start as nat, end: self.end as nat, value: self.value@, keyword: self.kw@ }
    }
}

impl Match {
    /// A match of `value`, labelled `kw`, whose last character is at
    /// `end_pos - 1`.
    pub fn new(value: &str, kw: &str, end_pos: usize) -> (r: Self)
        requires
            value@.len() <= end_pos,
        ensures
            r@ == (MatchView {
                start: (end_pos - value@.len()) as nat,
                end: end_pos as nat,
                value: value@,
                keyword: kw@,
            }),
    {
        let n = value.unicode_len();
        Match { start: end_pos - n, end: end_pos, kw: kw.to_string(), value: value.to_string() }
    }

    /// The value stored in the match.
    pub fn value(&self) -> (r: &str)
        ensures
            r@ == self@.value,
    {
        self.value.as_str()
    }

    /// The keyword associated with the match.
    pub fn keyword(&self) -> (r: &str)
        ensures
            r@ == self@.keyword,
    {
        self.kw.as_str()
    }

    /// The range of characters the match spans.
    pub fn char_range(&self) -> (r: (usize, usize))
        ensures
            r.0 == self@.start,
            r.1 == self@.end,
    {
        (self.start, self.end)
    }
}

/// Whether the match is word-bounded in `t`: `buffer` holds the last
/// characters read, up to the match's end, and `next_char` is the one after.
fn is_word_bounded(m: &Match, buffer: &RingBuffer<char>, next_char: Option<char>, Ghost(t): Ghost<Seq<char>>) -> (r: bool)
    requires
        buffer.wf(),
        m@.end <= t.len(),
        m@.start <= m@.end,
        m@.end - m@.start < buffer.spec_capacity(),
        buffer@ == last_n(t.take(m@.end as int), buffer.spec_capacity()),
        next_char == (if m@.end < t.len() {
            Some(t[m@.end as int])
        } else {
            None::<char>
        }),
    ensures
        r == word_bounded(t, m@.start as int, m@.end as int),
{
    let (start, end) = m.char_range();
    let pat_len = end - start;
    let left = if start == 0 {
        true
    } else {
        let ghost e = end as int;
        let ghost cap = buffer.spec_capacity() as int;
        proof {
            if e <= cap {
                assert(buffer@ == t.take(e));
            } else {
                assert(buffer@ == t.take(e).subrange(e - cap, e));
            }
        }
        let c = buffer.get_item(buffer.len() - pat_len - 1);
        proof {
            if e <= cap {
                assert(c == t[start - 1]);
            } else {
                assert(c == t.take(e)[e - cap + (cap - pat_len - 1)]);
            }
        }
        !is_word_char(c)
    };
    let right = match next_char {
        None => true,
        Some(ch) => !is_word_char(ch),
    };
    left && right
}

/// With no pattern among the suffixes of `t[..e]` of length in `lo+1..=hi`,
/// the matches ending at `e` up to length `hi` are those up to length `lo`.
pub proof fn lemma_skip(v: TrieView, t: Seq<char>, e: int, lo: int, hi: int)
    requires
        0 <= lo <= hi <= e <= t.len(),
        forall|l: int| lo < l <= hi ==> !v.has_pattern(#[trigger] t.subrange(e - l, e)),
    ensures
        matches_ending(v, t, e, hi) == matches_ending(v, t, e, lo),
    decreases hi - lo,
{
    if hi > lo {
        assert(!v.has_pattern(t.subrange(e - hi, e)));
        assert(match_at(v, t, e, hi) =~= seq![]);
        lemma_skip(v, t, e, lo, hi - 1);
        assert(matches_ending(v, t, e, hi) =~= matches_ending(v, t, e, hi - 1));
    }
}

/// A suffix of `t[..e]` of length `l` is `t[e - l..e]`.
pub proof fn lemma_suffix_subrange(s: Seq<char>, t: Seq<char>, e: int)
    requires
        0 <= e <= t.len(),
        is_suffix(s, t.take(e)),
    ensures
        s == t.subrange(e - s.len(), e),
{
    assert(t.take(e).subrange(e - s.len(), e) =~= t.subrange(e - s.len(), e));
}

impl TrieRoot {
    /// Report the matches ending at `e`: walk from `state`, which spells
    /// the longest suffix of `t[..e]` that a node spells, along the
    /// dictionary-suffix links.
    fn emit_matches(
        &self,
        state: NodeId,
        e: usize,
        chars: &Vec<char>,
        buffer: &RingBuffer<char>,
        matches: &mut Vec<Match>,
    )
        requires
            self@.wf(),
            self@.valid(state as int),
            1 <= e <= chars@.len(),
            is_suffix(self@.paths[state as int], chars@.take(e as int)),
            forall|j: int|
                self@.valid(j) && is_suffix(#[trigger] self@.paths[j], chars@.take(e as int)) ==> self@.paths[j].len()
                    <= self@.paths[state as int].len(),
            self@.options.check_bounds ==> {
                &&& buffer.wf()
                &&& buffer.spec_capacity() == self@.max_pattern_len + 1
                &&& buffer@ == last_n(chars@.take(e as int), buffer.spec_capacity())
            },
        ensures
            match_views(final(matches)@) == match_views(old(matches)@) + matches_ending(
                self@,
                chars@,
                e as int,
                e as int,
            ),
    {
        let ghost v = self@;
        let ghost t = chars@;
        let ghost m0 = match_views(matches@);
        let check_bounds = self.options().check_bounds;
        let max_len = self.max_pattern_len();
        proof {
            assert forall|l: int| v.paths[state as int].len() < l <= e implies !v.has_pattern(
                #[trigger] t.subrange(e - l, e as int),
            ) by {
                if v.has_pattern(t.subrange(e - l, e as int)) {
                    let j = choose|j: int| v.valid(j) && #[trigger] v.paths[j] == t.subrange(e - l, e as int) && v.nodes[j].is_terminal();
                    assert(t.take(e as int).subrange(e - l, e as int) =~= t.subrange(e - l, e as int));
                }
            }
            lemma_skip(v, t, e as int, v.paths[state as int].len() as int, e as int);
            assert(m0 + matches_ending(v, t, e as int, e as int) == m0 + matches_ending(v, t, e as int, v.paths[state as int].len() as int));
        }
        let mut probe = state;
        while probe != 0
            invariant
                v == self@,
                v.wf(),
                t == chars@,
                1 <= e <= t.len(),
                check_bounds == v.options.check_bounds,
                max_len == v.max_pattern_len,
                check_bounds ==> {
                    &&& buffer.wf()
                    &&& buffer.spec_capacity() == max_len + 1
                    &&& buffer@ == last_n(t.take(e as int), buffer.spec_capacity())
                },
                v.valid(probe as int),
                is_suffix(v.paths[probe as int], t.take(e as int)),
                match_views(matches@) + matches_ending(v, t, e as int, v.paths[probe as int].len() as int) == m0
                    + matches_ending(v, t, e as int, e as int),
            decreases v.paths[probe as int].len(),
        {
            let node = self.get_node_unchecked(probe);
            let ghost pl = v.paths[probe as int].len() as int;
            let ghost s = t.subrange(e - pl, e as int);
            proof {
                lemma_suffix_subrange(v.paths[probe as int], t, e as int);
                assert(v.paths[probe as int] == s);
                assert(v.dct_ok(probe as int));
                assert(pl > 0) by {
                    if pl == 0 {
                        lemma_root_path(v, probe as int);
                    }
                }
                assert(v.has_pattern(s) == v.nodes[probe as int].is_terminal()) by {
                    if v.has_pattern(s) {
                        let j = choose|j: int| v.valid(j) && #[trigger] v.paths[j] == s && v.nodes[j].is_terminal();
                        lemma_unique_path(v, j, probe as int);
                    }
                }
            }
            let ghost before = match_views(matches@);
            match node.value_keyword() {
                Some((value, keyword)) => {
                    proof {
                        assert(v.nodes[probe as int].wf());
                        assert(v.nodes[probe as int].value == Some(v.paths[probe as int]));
                        let j = choose|j: int| v.valid(j) && #[trigger] v.paths[j] == s && v.nodes[j].is_terminal();
                        lemma_unique_path(v, j, probe as int);
                        assert(v.keyword_of(s) == keyword@);
                    }
                    let m = Match::new(value, keyword, e);
                    let keep = if !check_bounds {
                        true
                    } else {
                        let next_char = if e < chars.len() {
                            Some(chars[e])
                        } else {
                            None
                        };
                        is_word_bounded(&m, buffer, next_char, Ghost(t))
                    };
                    proof {
                        assert(match_at(v, t, e as int, pl) =~= (if keep {
                            seq![m@]
                        } else {
                            seq![]
                        }));
                    }
                    if keep {
                        matches.push(m);
                        proof {
                            assert(match_views(matches@) =~= before.push(m@));
                        }
                    }
                },
                None => {
                    proof {
                        assert(match_at(v, t, e as int, pl) =~= seq![]);
                    }
                },
            }
            let next = match node.fail_dct() {
                Some(d) => d,
                None => 0,
            };
            proof {
                let nl = v.paths[next as int].len() as int;
                assert(v.valid(next as int));
                if next == 0 {
                    assert(v.paths[probe as int].subrange(pl, pl) =~= v.paths[0]);
                }
                assert(super::is_proper_suffix(v.paths[next as int], v.paths[probe as int]));
                super::lemma_suffix_trans(v.paths[next as int], v.paths[probe as int], t.take(e as int));
                assert forall|l: int| nl < l <= pl - 1 implies !v.has_pattern(#[trigger] t.subrange(e - l, e as int)) by {
                    if v.has_pattern(t.subrange(e - l, e as int)) {
                        let j = choose|j: int|
                            v.valid(j) && #[trigger] v.paths[j] == t.subrange(e - l, e as int) && v.nodes[j].is_terminal();
                        assert(super::is_suffix(v.paths[j], v.paths[probe as int])) by {
                            assert(v.paths[probe as int].subrange(pl - l, pl) =~= t.subrange(e - l, e as int));
                        }
                        if j == 0 {
                            assert(v.paths[0].len() == 0);
                        }
                    }
                }
                lemma_skip(v, t, e as int, nl, pl - 1);
                assert(matches_ending(v, t, e as int, pl) == match_at(v, t, e as int, pl) + matches_ending(v, t, e as int, pl - 1));
                assert(match_views(matches@) + matches_ending(v, t, e as int, nl) =~= before + matches_ending(v, t, e as int, pl));
            }
            probe = next;
        }
        proof {
            assert(matches_ending(v, t, e as int, 0) =~= seq![]);
            assert(match_views(matches@) =~= match_views(matches@) + matches_ending(v, t, e as int, 0));
        }
    }

    /// Find all matches of the automaton's patterns in `text`, by end
    /// position; among matches with the same end, longest first (the
    /// state's own pattern, then its dictionary-suffix chain). Positions
    /// count characters of the text as read, lower-cased when case is
    /// ignored.
    pub fn find_text_matches(&self, text: String) -> (r: SearchResult<Vec<Match>>)
        requires
            self@.wf(),
        ensures
            match r {
                Ok(ms) => match_views(ms@) == scan_spec(self@, text@),
                Err(_) => false,
            },
    {
        let ghost v = self@;
        let ghost given = text@;
        let opts = self.options();
        let text = if !opts.case_sensitive {
            lowercase(text.as_str())
        } else {
            text
        };
        let chars = chars_of(text.as_str());
        let ghost t = chars@;
        let n = chars.len();
        let max_len = self.max_pattern_len();
        let mut buffer: RingBuffer<char> = RingBuffer::new(max_len + 1);
        let mut matches: Vec<Match> = Vec::new();
        let mut state: NodeId = 0;
        let mut idx: usize = 0;
        proof {
            assert(t.take(0) =~= Seq::<char>::empty());
            assert(v.paths[0].len() == 0);
            assert(t.take(0).subrange(0, 0) =~= v.paths[0]);
            assert(last_n(t.take(0), buffer.spec_capacity()) =~= buffer@);
            assert(match_views(matches@) =~= matches_upto(v, t, 0));
        }
        while idx < n
            invariant
                v == self@,
                v.wf(),
                t == chars@,
                n == t.len(),
                idx <= n,
                opts == v.options,
                max_len == v.max_pattern_len,
                buffer.wf(),
                buffer.spec_capacity() == max_len + 1,
                opts.check_bounds ==> buffer@ == last_n(t.take(idx as int), buffer.spec_capacity()),
                v.valid(state as int),
                is_suffix(v.paths[state as int], t.take(idx as int)),
                forall|j: int|
                    v.valid(j) && is_suffix(#[trigger] v.paths[j], t.take(idx as int)) ==> v.paths[j].len()
                        <= v.paths[state as int].len(),
                match_views(matches@) == matches_upto(v, t, idx as int),
            decreases n - idx,
        {
            let ch = chars[idx];
            let ghost w = t.take(idx as int);
            proof {
                assert(t.take(idx + 1) =~= w.push(ch));
            }
            if opts.check_bounds {
                buffer.push(ch);
                proof {
                    let cap = buffer.spec_capacity();
                    assert(last_n(last_n(w, cap).push(ch), cap) =~= last_n(w.push(ch), cap));
                }
            }
            proof {
                lemma_probe_init(v, w, ch, state as int, idx + 1);
                assert forall|j: int|
                    v.valid(j) && (#[trigger] v.paths[j]).len() <= v.paths[state as int].len() implies v.fail_ok(j) by {
                }
            }
            state = self.next_state(state, ch, Ghost(w), Ghost(idx + 1));
            proof {
                assert forall|j: int| v.valid(j) && is_suffix(#[trigger] v.paths[j], t.take(idx + 1)) implies v.paths[j].len()
                    <= v.paths[state as int].len() by {
                    assert(v.paths[j].len() <= idx + 1);
                }
            }
            let ghost m0 = match_views(matches@);
            self.emit_matches(state, idx + 1, &chars, &buffer, &mut matches);
            proof {
                assert(matches_upto(v, t, idx + 1) == matches_upto(v, t, idx as int) + matches_ending(v, t, idx + 1, idx + 1));
            }
            idx += 1;
        }
        proof {
            assert(t == folded_text(v, given));
        }
        Ok(matches)
    }
}

} // verus!
