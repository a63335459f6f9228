//! The prefix tree at the heart of the Aho-Corasick automaton: nodes addressed
//! by index, labelled edges, failure links and dictionary-suffix links.
use vstd::prelude::*;

pub mod ring_buffer;
pub mod search;
mod unicode;

use unicode::{chars_of, lowercase, normalize};
pub use unicode::{alnum, lower_of, nfc_of};

pub use ring_buffer::RingBuffer;
pub use search::{is_word_char, Match};


verus! {

/// Identifier of a node: its index in the automaton's node vector.
pub type NodeId = usize;

/// Errors that can be raised by the library functions.
#[derive(Debug, PartialEq, Eq, Structural)]
pub enum SearchError {
    InvalidNodeId(NodeId),
    DuplicateNode,
    InvalidDictionary,
    MissingLink(NodeId),
}

/// Result type for this library.
pub type SearchResult<T> = Result<T, SearchError>;

/// A labelled edge between two nodes of the prefix tree.
#[derive(Debug, PartialEq, Eq, PartialOrd, Ord)]
pub struct Link(pub char, pub NodeId);

impl Link {
    /// The character that labels the edge.
    pub fn get_char(&self) -> (r: char)
        ensures
            r == self.0,
    {
        self.0
    }

    /// The node that the edge leads to.
    pub fn get_node_id(&self) -> (r: NodeId)
        ensures
            r == self.1,
    {
        self.1
    }
}

/// Options to use when performing searches.
#[derive(Debug, Clone, Copy, PartialEq, Eq, Structural)]
pub struct SearchOptions {
    /// Whether to distinguish uppercase and lowercase characters.
    pub case_sensitive: bool,
    /// Whether to return only matches that begin and end with word boundaries.
    pub check_bounds: bool,
}

impl Default for SearchOptions {
    /// Case-sensitive search without checking word boundaries.
    fn default() -> (r: Self)
        ensures
            r.case_sensitive,
            !r.check_bounds,
    {
        SearchOptions { case_sensitive: true, check_bounds: false }
    }
}

/// Edges of a node are kept strictly sorted by character.
pub open spec fn links_sorted(links: Seq<Link>) -> bool {
    forall|a: int, b: int| 0 <= a < b < links.len() ==> (links[a].0 as u32) < (links[b].0 as u32)
}

/// Whether some edge of the list is labelled `c`.
pub open spec fn has_label(links: Seq<Link>, c: char) -> bool {
    exists|k: int| 0 <= k < links.len() && #[trigger] links[k].0 == c
}

/// The node that the edge labelled `c` leads to, if there is one.
pub open spec fn link_target(links: Seq<Link>, c: char) -> Option<NodeId> {
    if has_label(links, c) {
        Some(links[choose|k: int| 0 <= k < links.len() && #[trigger] links[k].0 == c].1)
    } else {
        None
    }
}

/// `s` ends `t`.
pub open spec fn is_suffix(s: Seq<char>, t: Seq<char>) -> bool {
    s.len() <= t.len() && t.subrange(t.len() - s.len(), t.len() as int) == s
}

/// `s` begins `t`.
pub open spec fn is_prefix(s: Seq<char>, t: Seq<char>) -> bool {
    s.len() <= t.len() && t.take(s.len() as int) == s
}

/// `s` ends `t` and is shorter than it.
pub open spec fn is_proper_suffix(s: Seq<char>, t: Seq<char>) -> bool {
    s.len() < t.len() && is_suffix(s, t)
}

/// What a node holds, as mathematical values.
pub struct NodeView {
    pub value: Option<Seq<char>>,
    pub keyword: Option<Seq<char>>,
    pub links: Seq<Link>,
    pub fail_to: Option<NodeId>,
    pub dct_to: Option<NodeId>,
    pub pattern_len: nat,
}

impl NodeView {
    /// A node carries a value exactly when it carries a keyword; its pattern
    /// length is the length of its value; its edges are sorted.
    pub open spec fn wf(self) -> bool {
        &&& (self.value is Some) == (self.keyword is Some)
        &&& self.pattern_len == (match self.value {
            Some(v) => v.len(),
            None => 0,
        })
        &&& links_sorted(self.links)
    }

    pub open spec fn is_terminal(self) -> bool {
        self.value is Some
    }
}

/// Represents a node in the prefix tree of the automaton.
#[derive(Debug)]
pub struct Node {
    value: Option<String>,
    keyword: Option<String>,
    nxt: Vec<Link>,
    fail_to: Option<NodeId>,
    dct_to: Option<NodeId>,
    pattern_len: usize,
}

pub open spec fn opt_view(s: Option<String>) -> Option<Seq<char>> {
    match s {
        Some(t) => Some(t@),
        None => None,
    }
}

impl View for Node {
    type V = NodeView;

    closed spec fn view(&self) -> NodeView {
        NodeView {
            value: opt_view(self.value),
            keyword: opt_view(self.keyword),
            links: self.nxt@,
            fail_to: self.fail_to,
            dct_to: self.dct_to,
            pattern_len: self.pattern_len as nat,
        }
    }
}

/// Number of characters of a string.
fn char_count(s: &String) -> (r: usize)
    ensures
        r == s@.len(),
{
    s.as_str().unicode_len()
}

impl Default for Node {
    /// A node without value, keyword or links.
    fn default() -> (r: Self)
        ensures
            r@.value is None,
            r@.keyword is None,
            r@.links.len() == 0,
            r@.fail_to is None,
            r@.dct_to is None,
            r@.wf(),
    {
        Node::empty()
    }
}

impl Node {
    /// A node without value, keyword or links.
    fn empty() -> (r: Self)
        ensures
            r@.value is None,
            r@.keyword is None,
            r@.links.len() == 0,
            r@.fail_to is None,
            r@.dct_to is None,
            r@.pattern_len == 0,
            r@.wf(),
    {
        Node {
            value: None,
            keyword: None,
            nxt: Vec::new(),
            fail_to: None,
            dct_to: None,
            pattern_len: 0,
        }
    }

    /// A new node without links. With a value it terminates a pattern, and its
    /// keyword defaults to the value.
    pub fn new(value: Option<String>, keyword: Option<String>) -> (r: Self)
        ensures
            r@.value == opt_view(value),
            r@.keyword == (match value {
                None => None,
                Some(v) => Some(
                    match keyword {
                        Some(k) => k@,
                        None => v@,
                    },
                ),
            }),
            r@.links.len() == 0,
            r@.fail_to is None,
            r@.dct_to is None,
            r@.wf(),
    {
        match value {
            None => Node::empty(),
            Some(s) => {
                let total_chars = char_count(&s);
                let kw = match keyword {
                    Some(k) => k,
                    None => s.clone(),
                };
                Node {
                    keyword: Some(kw),
                    value: Some(s),
                    nxt: Vec::new(),
                    fail_to: None,
                    dct_to: None,
                    pattern_len: total_chars,
                }
            },
        }
    }

    /// The outgoing edges of the node, sorted by character.
    pub fn next_nodes(&self) -> (r: &Vec<Link>)
        ensures
            r@ == self@.links,
    {
        &self.nxt
    }

    /// The failure link of the node.
    pub fn fail_node(&self) -> (r: Option<NodeId>)
        ensures
            r == self@.fail_to,
    {
        self.fail_to
    }

    /// The first pattern-terminating node on the failure chain of this node.
    pub fn fail_dct(&self) -> (r: Option<NodeId>)
        ensures
            r == self@.dct_to,
    {
        self.dct_to
    }

    /// The value and keyword of the node, present when it terminates a pattern.
    pub fn value_keyword(&self) -> (r: Option<(&str, &str)>)
        ensures
            match r {
                Some(p) => self@.value == Some(p.0@) && self@.keyword == Some(p.1@),
                None => self@.value is None || self@.keyword is None,
            },
    {
        match (&self.value, &self.keyword) {
            (Some(s), Some(t)) => Some((s.as_str(), t.as_str())),
            _ => None,
        }
    }

    /// Number of characters of the pattern that this node terminates (0 otherwise).
    pub fn pattern_len(&self) -> (r: usize)
        ensures
            r == self@.pattern_len,
    {
        self.pattern_len
    }

    /// The node reached over the edge labelled `ch`, if any. Small edge lists
    /// are scanned, larger ones are searched by bisection.
    pub fn follow_link(&self, ch: char) -> (r: Option<NodeId>)
        requires
            links_sorted(self@.links),
        ensures
            r == link_target(self@.links, ch),
    {
        let n = self.nxt.len();
        if n < 8 {
            let mut k: usize = 0;
            while k < n
                invariant
                    n == self.nxt@.len(),
                    links_sorted(self.nxt@),
                    k <= n,
                    forall|j: int| 0 <= j < k ==> self.nxt@[j].0 != ch,
                decreases n - k,
            {
                if self.nxt[k].0 == ch {
                    let r = Some(self.nxt[k].1);
                    proof {
                        lemma_target_at(self.nxt@, ch, k as int);
                    }
                    return r;
                }
                k += 1;
            }
            None
        } else {
            let mut lo: usize = 0;
            let mut hi: usize = n;
            while lo < hi
                invariant
                    n == self.nxt@.len(),
                    lo <= hi <= n,
                    links_sorted(self.nxt@),
                    forall|j: int| 0 <= j < lo ==> (self.nxt@[j].0 as u32) < (ch as u32),
                    forall|j: int| hi <= j < n ==> (self.nxt@[j].0 as u32) > (ch as u32),
                decreases hi - lo,
            {
                let mid = lo + (hi - lo) / 2;
                let c = self.nxt[mid].0;
                if c == ch {
                    proof {
                        lemma_target_at(self.nxt@, ch, mid as int);
                    }
                    return Some(self.nxt[mid].1);
                } else if (c as u32) < (ch as u32) {
                    lo = mid + 1;
                } else {
                    hi = mid;
                }
            }
            proof {
                assert forall|k: int| 0 <= k < n implies #[trigger] self.nxt@[k].0 != ch by {
                    if k < lo {
                    } else {
                        assert((self.nxt@[k].0 as u32) > (ch as u32));
                    }
                }
            }
            None
        }
    }
}

/// With sorted edges, the edge labelled `c` is the one found at any index
/// holding that label.
pub proof fn lemma_target_at(links: Seq<Link>, c: char, k: int)
    requires
        links_sorted(links),
        0 <= k < links.len(),
        links[k].0 == c,
    ensures
        link_target(links, c) == Some(links[k].1),
{
    assert(has_label(links, c));
    let j = choose|j: int| 0 <= j < links.len() && #[trigger] links[j].0 == c;
    if j != k {
        assert(links[j].0 == links[k].0);
        if j < k {
            assert((links[j].0 as u32) < (links[k].0 as u32));
        } else {
            assert((links[k].0 as u32) < (links[j].0 as u32));
        }
    }
}


impl Node {
    /// Insert an edge at its place in the sorted edge list.
    fn insert_link(&mut self, link: Link)
        requires
            links_sorted(old(self)@.links),
            !has_label(old(self)@.links, link.0),
        ensures
            links_sorted(final(self)@.links),
            forall|l: Link| #[trigger] final(self)@.links.contains(l) <==> (old(self)@.links.contains(l) || l == link),
            final(self)@.links.len() == old(self)@.links.len() + 1,
            final(self)@.value == old(self)@.value,
            final(self)@.keyword == old(self)@.keyword,
            final(self)@.fail_to == old(self)@.fail_to,
            final(self)@.dct_to == old(self)@.dct_to,
            final(self)@.pattern_len == old(self)@.pattern_len,
    {
        let n = self.nxt.len();
        let mut pos: usize = 0;
        while pos < n && (self.nxt[pos].0 as u32) < (link.0 as u32)
            invariant
                n == self.nxt@.len(),
                pos <= n,
                forall|j: int| 0 <= j < pos ==> (self.nxt@[j].0 as u32) < (link.0 as u32),
            decreases n - pos,
        {
            pos += 1;
        }
        let ghost pre = self.nxt@;
        proof {
            assert forall|j: int| pos <= j < n implies (pre[j].0 as u32) > (link.0 as u32) by {
                if (pre[j].0 as u32) <= (link.0 as u32) {
                    if j > pos {
                        assert((pre[pos as int].0 as u32) < (pre[j].0 as u32));
                    }
                    if pre[j].0 as u32 == link.0 as u32 {
                        assert(pre[j].0 == link.0);
                    }
                }
            }
        }
        self.nxt.insert(pos, link);
        proof {
            let post = self.nxt@;
            assert(post =~= pre.subrange(0, pos as int).push(link) + pre.subrange(pos as int, n as int));
            assert forall|l: Link| #[trigger] post.contains(l) <==> (pre.contains(l) || l == link) by {
                if post.contains(l) {
                    let k = choose|k: int| 0 <= k < post.len() && post[k] == l;
                    if k < pos {
                        assert(pre[k] == l);
                    } else if k > pos {
                        assert(pre[k - 1] == l);
                    }
                }
                if pre.contains(l) {
                    let k = choose|k: int| 0 <= k < pre.len() && pre[k] == l;
                    if k < pos {
                        assert(post[k] == l);
                    } else {
                        assert(post[k + 1] == l);
                    }
                }
                if l == link {
                    assert(post[pos as int] == l);
                }
            }
        }
    }
}

/// The automaton as mathematical values: its nodes, the path that spells
/// each node from the root, its options and its longest pattern length.
pub struct TrieView {
    pub nodes: Seq<NodeView>,
    pub paths: Seq<Seq<char>>,
    pub options: SearchOptions,
    pub max_pattern_len: nat,
}

impl TrieView {
    pub open spec fn valid(self, i: int) -> bool {
        0 <= i < self.nodes.len()
    }

    /// Node `i` has an edge labelled `c` to node `j`.
    pub open spec fn edge(self, i: int, c: char, j: int) -> bool {
        self.nodes[i].links.contains(Link(c, j as usize))
    }

    /// Node `j` is reached from some node over an edge labelled with the last
    /// character of its path.
    pub open spec fn has_parent(self, j: int) -> bool {
        exists|i: int| self.valid(i) && #[trigger] self.edge(i, self.paths[j].last(), j)
    }

    /// Some node is spelled by `s`.
    pub open spec fn has_path(self, s: Seq<char>) -> bool {
        exists|i: int| self.valid(i) && #[trigger] self.paths[i] == s
    }

    /// Some node spelled by `s` terminates a pattern.
    pub open spec fn has_pattern(self, s: Seq<char>) -> bool {
        exists|i: int| self.valid(i) && #[trigger] self.paths[i] == s && self.nodes[i].is_terminal()
    }

    /// The shape of a prefix tree: the root spells the empty string, each
    /// edge extends its source's path by its label, distinct nodes spell
    /// distinct paths, every other node hangs below its parent, and a
    /// terminating node's value is its path.
    pub open spec fn shape_wf(self) -> bool {
        &&& self.nodes.len() == self.paths.len()
        &&& 1 <= self.nodes.len() <= usize::MAX
        &&& self.paths[0].len() == 0
        &&& self.nodes[0].value is None
        &&& forall|i: int| self.valid(i) ==> (#[trigger] self.nodes[i]).wf()
        &&& forall|i: int| self.valid(i) ==> (#[trigger] self.paths[i]).len() <= self.max_pattern_len
        &&& forall|i: int|
            self.valid(i) && (#[trigger] self.nodes[i]).value is Some ==> self.nodes[i].value
                == Some(self.paths[i])
        &&& forall|i: int, k: int|
            self.valid(i) && 0 <= k < self.nodes[i].links.len() ==> {
                let l = #[trigger] self.nodes[i].links[k];
                0 < l.1 < self.nodes.len() && self.paths[l.1 as int] == self.paths[i].push(l.0)
            }
        &&& forall|i: int, j: int|
            self.valid(i) && self.valid(j) && i != j ==> #[trigger] self.paths[i]
                != #[trigger] self.paths[j]
        &&& forall|j: int| self.valid(j) && j != 0 ==> #[trigger] self.has_parent(j)
    }
}

/// Represents the root of the Aho-Corasick prefix tree: the node vector,
/// with the root at index 0, and the search options.
pub struct TrieRoot {
    nodes: Vec<Node>,
    options: SearchOptions,
    max_pattern_len: usize,
    paths: Ghost<Seq<Seq<char>>>,
}

impl View for TrieRoot {
    type V = TrieView;

    closed spec fn view(&self) -> TrieView {
        TrieView {
            nodes: self.nodes@.map_values(|n: Node| n@),
            paths: self.paths@,
            options: self.options,
            max_pattern_len: self.max_pattern_len as nat,
        }
    }
}

impl TrieRoot {
    /// An automaton that holds the root alone.
    fn new(options: SearchOptions) -> (r: Self)
        ensures
            r@.shape_wf(),
            r@.nodes.len() == 1,
            r@.nodes[0].links.len() == 0,
            r@.nodes[0].fail_to is None,
            r@.nodes[0].dct_to is None,
            r@.options == options,
            r@.max_pattern_len == 0,
    {
        let root = Node::empty();
        let ghost root_path = seq![Seq::<char>::empty()];
        let r = TrieRoot {
            nodes: vec![root],
            options,
            max_pattern_len: 0,
            paths: Ghost(root_path),
        };
        assert(r@.nodes[0] == root@);
        r
    }

    /// Append a child of `parent` over an edge labelled `c`, which `parent`
    /// does not have yet.
    fn add_child(&mut self, parent: NodeId, c: char) -> (r: NodeId)
        requires
            old(self)@.shape_wf(),
            old(self)@.valid(parent as int),
            old(self)@.paths[parent as int].len() < old(self)@.max_pattern_len,
            !has_label(old(self)@.nodes[parent as int].links, c),
            old(self)@.nodes.len() < usize::MAX,
            forall|i: int| old(self)@.valid(i) ==> (#[trigger] old(self)@.nodes[i]).fail_to is None && old(self)@.nodes[i].dct_to is None,
        ensures
            final(self)@.shape_wf(),
            r == old(self)@.nodes.len(),
            final(self)@.nodes.len() == old(self)@.nodes.len() + 1,
            final(self)@.paths == old(self)@.paths.push(old(self)@.paths[parent as int].push(c)),
            final(self)@.options == old(self)@.options,
            final(self)@.max_pattern_len == old(self)@.max_pattern_len,
            !final(self)@.nodes[r as int].is_terminal(),
            forall|i: int| final(self)@.valid(i) ==> (#[trigger] final(self)@.nodes[i]).fail_to is None && final(self)@.nodes[i].dct_to is None,
            forall|i: int|
                #![trigger final(self)@.nodes[i]]
                old(self)@.valid(i) ==> final(self)@.nodes[i].value == old(self)@.nodes[i].value
                    && final(self)@.nodes[i].keyword == old(self)@.nodes[i].keyword,
            link_target(final(self)@.nodes[parent as int].links, c) == Some(r),
    {
        let ghost pre = self@;
        let id = self.nodes.len();
        let child = Node::empty();
        self.nodes.push(child);
        let ghost new_paths = self.paths@.push(self.paths@[parent as int].push(c));
        self.paths = Ghost(new_paths);
        let ghost mid = self@;
        assert(mid.nodes =~= pre.nodes.push(child@));
        self.nodes[parent].insert_link(Link(c, id));
        let ghost post = self@;
        proof {
            assert(post.nodes =~= mid.nodes.update(parent as int, post.nodes[parent as int]));
            let pp = pre.paths[parent as int].push(c);
            assert forall|i: int, k: int| post.valid(i) && 0 <= k < post.nodes[i].links.len() implies {
                let l = #[trigger] post.nodes[i].links[k];
                0 < l.1 < post.nodes.len() && post.paths[l.1 as int] == post.paths[i].push(l.0)
            } by {
                let l = post.nodes[i].links[k];
                if i == parent {
                    assert(post.nodes[i].links.contains(l));
                    if l != Link(c, id) {
                        let k2 = choose|k2: int| 0 <= k2 < pre.nodes[i].links.len() && pre.nodes[i].links[k2] == l;
                        assert(pre.nodes[i].links[k2] == l);
                    }
                } else {
                    assert(post.nodes[i] == pre.nodes[i]);
                }
            }
            assert forall|i: int, j: int| post.valid(i) && post.valid(j) && i != j implies #[trigger] post.paths[i]
                != #[trigger] post.paths[j] by {
                if j == id && i != id && post.paths[i] == pp {
                    assert(i != 0);
                    assert(pre.has_parent(i));
                    let q = choose|q: int| pre.valid(q) && #[trigger] pre.edge(q, pre.paths[i].last(), i);
                    let k = choose|k: int| 0 <= k < pre.nodes[q].links.len() && pre.nodes[q].links[k] == Link(pre.paths[i].last(), i as usize);
                    assert(pre.paths[i] == pre.paths[q].push(pre.paths[i].last()));
                    assert(pre.paths[q] =~= pre.paths[i].drop_last());
                    assert(pre.paths[parent as int] =~= pp.drop_last());
                    assert(q == parent);
                    assert(pre.nodes[q].links[k].0 == c);
                }
                if i == id && j != id && post.paths[j] == pp {
                    assert(j != 0);
                    assert(pre.has_parent(j));
                    let q = choose|q: int| pre.valid(q) && #[trigger] pre.edge(q, pre.paths[j].last(), j);
                    let k = choose|k: int| 0 <= k < pre.nodes[q].links.len() && pre.nodes[q].links[k] == Link(pre.paths[j].last(), j as usize);
                    assert(pre.paths[j] == pre.paths[q].push(pre.paths[j].last()));
                    assert(pre.paths[q] =~= pre.paths[j].drop_last());
                    assert(pre.paths[parent as int] =~= pp.drop_last());
                    assert(q == parent);
                    assert(pre.nodes[q].links[k].0 == c);
                }
            }
            assert forall|j: int| post.valid(j) && j != 0 implies #[trigger] post.has_parent(j) by {
                if j == id {
                    assert(post.paths[j].last() == c);
                    assert(post.nodes[parent as int].links.contains(Link(c, id)));
                    assert(post.edge(parent as int, post.paths[j].last(), j));
                } else {
                    assert(pre.has_parent(j));
                    let q = choose|q: int| pre.valid(q) && #[trigger] pre.edge(q, pre.paths[j].last(), j);
                    assert(post.nodes[q].links.contains(Link(pre.paths[j].last(), j as usize)));
                    assert(post.edge(q, post.paths[j].last(), j));
                }
            }
            assert forall|i: int| post.valid(i) implies (#[trigger] post.nodes[i]).wf() by {
                if i != parent && i != id {
                    assert(post.nodes[i] == pre.nodes[i]);
                }
            }
            let pl = post.nodes[parent as int].links;
            assert(pl.contains(Link(c, id)));
            let kk = choose|kk: int| 0 <= kk < pl.len() && pl[kk] == Link(c, id);
            lemma_target_at(pl, c, kk);
        }
        id
    }
}


impl Node {
    /// Make the node terminate the pattern `value`, labelled `kw`.
    fn set_value(&mut self, value: String, kw: String)
        ensures
            final(self)@.value == Some(value@),
            final(self)@.keyword == Some(kw@),
            final(self)@.pattern_len == value@.len(),
            final(self)@.links == old(self)@.links,
            final(self)@.fail_to == old(self)@.fail_to,
            final(self)@.dct_to == old(self)@.dct_to,
    {
        self.pattern_len = char_count(&value);
        self.value = Some(value);
        self.keyword = Some(kw);
    }
}

/// The edge that `link_target` reports is in the list.
pub proof fn lemma_target_link(links: Seq<Link>, c: char)
    requires
        link_target(links, c) is Some,
    ensures
        links.contains(Link(c, link_target(links, c)->0)),
{
    let k = choose|k: int| 0 <= k < links.len() && #[trigger] links[k].0 == c;
    assert(links[k] == Link(c, link_target(links, c)->0));
}

impl TrieRoot {
    /// Insert the path of a pattern, creating the nodes it lacks, and make
    /// its last node terminate it. Fails with `DuplicateNode` when that node
    /// terminates a pattern already.
    fn add_pattern(&mut self, key: &Vec<char>, value: String, kw: String) -> (r: SearchResult<()>)
        requires
            old(self)@.shape_wf(),
            forall|i: int| old(self)@.valid(i) ==> (#[trigger] old(self)@.nodes[i]).fail_to is None && old(self)@.nodes[i].dct_to is None,
            key@.len() > 0,
            value@ == key@,
            key@.len() <= old(self)@.max_pattern_len,
            old(self)@.nodes.len() + key@.len() < usize::MAX,
        ensures
            final(self)@.shape_wf(),
            forall|i: int| final(self)@.valid(i) ==> (#[trigger] final(self)@.nodes[i]).fail_to is None && final(self)@.nodes[i].dct_to is None,
            final(self)@.options == old(self)@.options,
            final(self)@.max_pattern_len == old(self)@.max_pattern_len,
            final(self)@.nodes.len() <= old(self)@.nodes.len() + key@.len(),
            old(self)@.paths.len() <= final(self)@.paths.len(),
            forall|i: int| 0 <= i < old(self)@.paths.len() ==> #[trigger] final(self)@.paths[i] == old(self)@.paths[i],
            r is Ok <==> !old(self)@.has_pattern(key@),
            r is Ok ==> final(self)@.has_path(key@),
            forall|i: int|
                old(self)@.nodes.len() <= i < final(self)@.nodes.len() ==> is_prefix(#[trigger] final(self)@.paths[i], key@),
            r is Ok ==> {
                forall|i: int|
                    #![trigger final(self)@.nodes[i]]
                    final(self)@.valid(i) ==> if final(self)@.paths[i] == key@ {
                        final(self)@.nodes[i].value == Some(key@) && final(self)@.nodes[i].keyword == Some(kw@)
                    } else {
                        final(self)@.nodes[i].value == (if old(self)@.valid(i) {
                            old(self)@.nodes[i].value
                        } else {
                            None
                        }) && final(self)@.nodes[i].keyword == (if old(self)@.valid(i) {
                            old(self)@.nodes[i].keyword
                        } else {
                            None
                        })
                    }
            },
    {
        let ghost pre = self@;
        let n = key.len();
        let mut cur: usize = 0;
        let mut idx: usize = 0;
        while idx < n
            invariant
                n == key@.len(),
                idx <= n,
                self@.shape_wf(),
                forall|i: int| self@.valid(i) ==> (#[trigger] self@.nodes[i]).fail_to is None && self@.nodes[i].dct_to is None,
                self@.valid(cur as int),
                self@.paths[cur as int] == key@.take(idx as int),
                self@.nodes.len() <= pre.nodes.len() + idx,
                pre.nodes.len() + n < usize::MAX,
                n <= self@.max_pattern_len,
                self@.options == pre.options,
                self@.max_pattern_len == pre.max_pattern_len,
                pre.paths.len() <= self@.paths.len(),
                pre.nodes.len() <= self@.nodes.len(),
                forall|i: int| 0 <= i < pre.paths.len() ==> #[trigger] self@.paths[i] == pre.paths[i],
                forall|i: int| pre.nodes.len() <= i < self@.nodes.len() ==> is_prefix(#[trigger] self@.paths[i], key@),
                forall|i: int|
                    #![trigger self@.nodes[i]]
                    self@.valid(i) ==> self@.nodes[i].value == (if pre.valid(i) {
                        pre.nodes[i].value
                    } else {
                        None
                    }) && self@.nodes[i].keyword == (if pre.valid(i) {
                        pre.nodes[i].keyword
                    } else {
                        None
                    }),
            decreases n - idx,
        {
            let c = key[idx];
            let ghost before = self@;
            proof {
                assert(self.nodes@[cur as int]@ == self@.nodes[cur as int]);
            }
            match self.nodes[cur].follow_link(c) {
                Some(nid) => {
                    proof {
                        lemma_target_link(self@.nodes[cur as int].links, c);
                        let k = choose|k: int| 0 <= k < self@.nodes[cur as int].links.len()
                            && self@.nodes[cur as int].links[k] == Link(c, nid);
                        assert(self@.nodes[cur as int].links[k] == Link(c, nid));
                    }
                    cur = nid;
                },
                None => {
                    cur = self.add_child(cur, c);
                    proof {
                        assert forall|i: int| 0 <= i < pre.paths.len() implies #[trigger] self@.paths[i] == pre.paths[i] by {
                            assert(before.paths[i] == pre.paths[i]);
                        }
                        assert forall|i: int| pre.nodes.len() <= i < self@.nodes.len() implies is_prefix(#[trigger] self@.paths[i], key@) by {
                            if i < before.nodes.len() {
                                assert(self@.paths[i] == before.paths[i]);
                            } else {
                                assert(self@.paths[i] == key@.take(idx as int).push(c));
                                assert(key@.take(idx + 1) =~= key@.take(idx as int).push(c));
                            }
                        }
                        assert(self@.nodes[cur as int].wf());
                        assert forall|i: int|
                            #![trigger self@.nodes[i]]
                            self@.valid(i) implies self@.nodes[i].value == (if pre.valid(i) {
                                pre.nodes[i].value
                            } else {
                                None
                            }) && self@.nodes[i].keyword == (if pre.valid(i) {
                                pre.nodes[i].keyword
                            } else {
                                None
                            }) by {
                            if i < before.nodes.len() {
                                assert(before.nodes[i].value == self@.nodes[i].value);
                                assert(before.nodes[i].keyword == self@.nodes[i].keyword);
                                assert(before.valid(i));
                            } else {
                                assert(i == cur);
                                assert(!pre.valid(i));
                                assert(self@.nodes[i].wf());
                            }
                        }
                    }
                },
            }
            assert(key@.take(idx + 1) =~= key@.take(idx as int).push(c));
            idx += 1;
        }
        assert(key@.take(n as int) =~= key@);
        proof {
            assert(self.nodes@[cur as int]@ == self@.nodes[cur as int]);
        }
        if self.nodes[cur].value_keyword().is_some() {
            proof {
                assert(self@.has_pattern(key@));
                assert(pre.valid(cur as int));
                assert(pre.paths[cur as int] == key@);
            }
            return Err(SearchError::DuplicateNode);
        }
        let ghost mid = self@;
        proof {
            if pre.has_pattern(key@) {
                let j = choose|j: int| pre.valid(j) && #[trigger] pre.paths[j] == key@ && pre.nodes[j].is_terminal();
                assert(self@.paths[j] == key@);
                assert(j == cur);
            }
        }
        self.nodes[cur].set_value(value, kw);
        proof {
            let post = self@;
            assert(post.nodes =~= mid.nodes.update(cur as int, post.nodes[cur as int]));
            assert forall|i: int|
                #![trigger post.nodes[i]]
                post.valid(i) implies if post.paths[i] == key@ {
                    post.nodes[i].value == Some(key@) && post.nodes[i].keyword == Some(kw@)
                } else {
                    post.nodes[i].value == (if pre.valid(i) {
                        pre.nodes[i].value
                    } else {
                        None
                    }) && post.nodes[i].keyword == (if pre.valid(i) {
                        pre.nodes[i].keyword
                    } else {
                        None
                    })
                } by {
                if post.paths[i] == key@ {
                    assert(i == cur);
                }
            }
            assert forall|i: int| post.valid(i) implies (#[trigger] post.nodes[i]).wf() by {
                if i != cur {
                    assert(post.nodes[i] == mid.nodes[i]);
                }
            }
            assert(post.paths[cur as int] == key@);
            assert forall|i: int, k: int| post.valid(i) && 0 <= k < post.nodes[i].links.len() implies {
                let l = #[trigger] post.nodes[i].links[k];
                0 < l.1 < post.nodes.len() && post.paths[l.1 as int] == post.paths[i].push(l.0)
            } by {
                assert(post.nodes[i].links == mid.nodes[i].links);
            }
            assert forall|j: int| post.valid(j) && j != 0 implies #[trigger] post.has_parent(j) by {
                assert(mid.has_parent(j));
                let q = choose|q: int| mid.valid(q) && #[trigger] mid.edge(q, mid.paths[j].last(), j);
                assert(post.nodes[q].links == mid.nodes[q].links);
                assert(post.edge(q, post.paths[j].last(), j));
            }
            assert forall|i: int| post.valid(i) implies (#[trigger] post.nodes[i]).fail_to is None && post.nodes[i].dct_to is None by {
                assert(post.nodes[i].fail_to == mid.nodes[i].fail_to);
                assert(post.nodes[i].dct_to == mid.nodes[i].dct_to);
            }
        }
        Ok(())
    }
}


impl TrieView {
    /// Node `i`'s failure link leads to the node spelled by the longest
    /// proper suffix of its path that some node spells; the root has none.
    pub open spec fn fail_ok(self, i: int) -> bool {
        if i == 0 {
            self.nodes[0].fail_to is None
        } else {
            match self.nodes[i].fail_to {
                Some(f) => self.fail_target_ok(self.paths[i], f as int),
                None => false,
            }
        }
    }

    /// `f` spells the longest proper suffix of `w` that some node spells.
    pub open spec fn fail_target_ok(self, w: Seq<char>, f: int) -> bool {
        &&& self.valid(f)
        &&& is_proper_suffix(self.paths[f], w)
        &&& forall|j: int|
            self.valid(j) && is_proper_suffix(#[trigger] self.paths[j], w) ==> self.paths[j].len()
                <= self.paths[f].len()
    }

    /// A queue entry (parent, child, edge character) for a child at depth `d`.
    pub open spec fn level_entry(self, e: (NodeId, NodeId, char), d: int) -> bool {
        &&& self.valid(e.0 as int)
        &&& self.valid(e.1 as int)
        &&& self.paths[e.1 as int] == self.paths[e.0 as int].push(e.2)
        &&& self.paths[e.1 as int].len() == d
    }

    /// No node spelling a suffix of `w.push(a)` of length at most `lim` is
    /// more than one character longer than the node `probe`, which spells a
    /// suffix of `w`.
    pub open spec fn probe_inv(self, w: Seq<char>, a: char, probe: int, lim: int) -> bool {
        &&& self.valid(probe)
        &&& is_suffix(self.paths[probe], w)
        &&& forall|j: int|
            self.valid(j) && is_suffix(#[trigger] self.paths[j], w.push(a)) && self.paths[j].len()
                <= lim ==> self.paths[j].len() <= self.paths[probe].len() + 1
    }
}

/// Two suffixes of one string: the shorter is a suffix of the longer.
pub proof fn lemma_suffix_of_suffix(s: Seq<char>, u: Seq<char>, t: Seq<char>)
    requires
        is_suffix(s, t),
        is_suffix(u, t),
        s.len() <= u.len(),
    ensures
        is_suffix(s, u),
        s.len() == u.len() ==> s == u,
{
    assert(u.subrange(u.len() - s.len(), u.len() as int) =~= s) by {
        assert forall|k: int| 0 <= k < s.len() implies u.subrange(u.len() - s.len(), u.len() as int)[k] == s[k] by {
            assert(s[k] == t[t.len() - s.len() + k]);
            assert(u[u.len() - s.len() + k] == t[t.len() - u.len() + (u.len() - s.len() + k)]);
        }
    }
    if s.len() == u.len() {
        assert(s =~= u);
    }
}

/// A non-empty suffix of `w.push(a)` ends with `a`, and without it is a
/// suffix of `w`.
pub proof fn lemma_suffix_drop_last(j: Seq<char>, w: Seq<char>, a: char)
    requires
        is_suffix(j, w.push(a)),
        j.len() > 0,
    ensures
        j.last() == a,
        is_suffix(j.drop_last(), w),
{
    let x = w.push(a);
    assert(j.last() == x[x.len() - 1]);
    assert(w.subrange(w.len() - (j.len() - 1), w.len() as int) =~= j.drop_last()) by {
        assert forall|k: int| 0 <= k < j.len() - 1 implies w.subrange(w.len() - (j.len() - 1), w.len() as int)[k]
            == j.drop_last()[k] by {
            assert(j[k] == x[x.len() - j.len() + k]);
        }
    }
}

/// A suffix of `w`, extended by `a`, is a suffix of `w.push(a)`.
pub proof fn lemma_suffix_push(s: Seq<char>, w: Seq<char>, a: char)
    requires
        is_suffix(s, w),
    ensures
        is_suffix(s.push(a), w.push(a)),
{
    let x = w.push(a);
    assert(x.subrange(x.len() - (s.len() + 1), x.len() as int) =~= s.push(a)) by {
        assert forall|k: int| 0 <= k < s.len() + 1 implies x.subrange(x.len() - (s.len() + 1), x.len() as int)[k]
            == s.push(a)[k] by {
            if k < s.len() {
                assert(s[k] == w[w.len() - s.len() + k]);
            }
        }
    }
}

/// Suffix is transitive.
pub proof fn lemma_suffix_trans(s: Seq<char>, u: Seq<char>, t: Seq<char>)
    requires
        is_suffix(s, u),
        is_suffix(u, t),
    ensures
        is_suffix(s, t),
{
    assert(t.subrange(t.len() - s.len(), t.len() as int) =~= s) by {
        assert forall|k: int| 0 <= k < s.len() implies t.subrange(t.len() - s.len(), t.len() as int)[k] == s[k] by {
            assert(s[k] == u[u.len() - s.len() + k]);
            assert(u[u.len() - s.len() + k] == t[t.len() - u.len() + (u.len() - s.len() + k)]);
        }
    }
}

/// A node other than the root hangs below the node spelled by its path
/// without the last character.
pub proof fn lemma_parent(v: TrieView, j: int)
    requires
        v.shape_wf(),
        v.valid(j),
        j != 0,
    ensures
        exists|q: int|
            v.valid(q) && #[trigger] v.paths[q] == v.paths[j].drop_last() && v.edge(q, v.paths[j].last(), j)
                && has_label(v.nodes[q].links, v.paths[j].last()),
        v.paths[j].len() > 0,
{
    assert(v.has_parent(j));
    let q = choose|q: int| v.valid(q) && #[trigger] v.edge(q, v.paths[j].last(), j);
    let k = choose|k: int| 0 <= k < v.nodes[q].links.len() && v.nodes[q].links[k] == Link(v.paths[j].last(), j as usize);
    assert(v.nodes[q].links[k] == Link(v.paths[j].last(), j as usize));
    assert(v.paths[j] == v.paths[q].push(v.paths[j].last()));
    assert(v.paths[q] =~= v.paths[j].drop_last());
    assert(v.nodes[q].links[k].0 == v.paths[j].last());
}

/// A node of depth at least `d` has an ancestor of depth `d`.
pub proof fn lemma_ancestor_at(v: TrieView, i: int, d: int)
    requires
        v.shape_wf(),
        v.valid(i),
        0 <= d <= v.paths[i].len(),
    ensures
        exists|j: int| v.valid(j) && (#[trigger] v.paths[j]).len() == d,
    decreases v.paths[i].len() - d,
{
    if v.paths[i].len() > d {
        assert(i != 0);
        lemma_parent(v, i);
        let q = choose|q: int|
            v.valid(q) && #[trigger] v.paths[q] == v.paths[i].drop_last() && v.edge(q, v.paths[i].last(), i)
                && has_label(v.nodes[q].links, v.paths[i].last());
        lemma_ancestor_at(v, q, d);
    } else {
        assert(v.paths[i].len() == d);
    }
}

/// The root is the only node spelling the empty string.
pub proof fn lemma_root_path(v: TrieView, j: int)
    requires
        v.shape_wf(),
        v.valid(j),
        v.paths[j].len() == 0,
    ensures
        j == 0,
{
    assert(v.paths[j] =~= v.paths[0]);
}

/// The node spelled by a string is unique.
pub proof fn lemma_unique_path(v: TrieView, i: int, j: int)
    requires
        v.shape_wf(),
        v.valid(i),
        v.valid(j),
        v.paths[i] == v.paths[j],
    ensures
        i == j,
{
}

/// An edge extends its source's path.
pub proof fn lemma_edge_path(v: TrieView, i: int, c: char)
    requires
        v.shape_wf(),
        v.valid(i),
        link_target(v.nodes[i].links, c) is Some,
    ensures
        v.valid(link_target(v.nodes[i].links, c)->0 as int),
        link_target(v.nodes[i].links, c)->0 != 0,
        v.paths[link_target(v.nodes[i].links, c)->0 as int] == v.paths[i].push(c),
{
    let k = choose|k: int| 0 <= k < v.nodes[i].links.len() && #[trigger] v.nodes[i].links[k].0 == c;
    let l = v.nodes[i].links[k];
    assert(0 < l.1 < v.nodes.len() && v.paths[l.1 as int] == v.paths[i].push(l.0));
}

/// One step along a failure chain keeps the probe invariant, when the probe
/// has no edge labelled `a`.
pub proof fn lemma_probe_fail(v: TrieView, w: Seq<char>, a: char, probe: int, lim: int)
    requires
        v.shape_wf(),
        v.probe_inv(w, a, probe, lim),
        probe != 0,
        v.fail_ok(probe),
        !has_label(v.nodes[probe].links, a),
    ensures
        v.probe_inv(w, a, v.nodes[probe].fail_to->0 as int, lim),
        v.paths[v.nodes[probe].fail_to->0 as int].len() < v.paths[probe].len(),
{
    let f = v.nodes[probe].fail_to->0 as int;
    lemma_suffix_trans(v.paths[f], v.paths[probe], w);
    assert forall|j: int|
        v.valid(j) && is_suffix(#[trigger] v.paths[j], w.push(a)) && v.paths[j].len() <= lim implies v.paths[j].len()
            <= v.paths[f].len() + 1 by {
        if v.paths[j].len() > v.paths[f].len() + 1 {
            lemma_parent(v, j);
            lemma_suffix_drop_last(v.paths[j], w, a);
            let q = choose|q: int|
                v.valid(q) && #[trigger] v.paths[q] == v.paths[j].drop_last() && v.edge(q, v.paths[j].last(), j)
                    && has_label(v.nodes[q].links, v.paths[j].last());
            let s = v.paths[q];
            if s.len() == v.paths[probe].len() {
                lemma_suffix_of_suffix(s, v.paths[probe], w);
                lemma_unique_path(v, q, probe);
            } else if s.len() < v.paths[probe].len() {
                lemma_suffix_of_suffix(s, v.paths[probe], w);
                assert(is_proper_suffix(v.paths[q], v.paths[probe]));
            }
        }
    }
}

/// At the root without an edge labelled `a`, only the empty suffix of
/// `w.push(a)` is spelled by a node.
pub proof fn lemma_probe_root(v: TrieView, w: Seq<char>, a: char, lim: int)
    requires
        v.shape_wf(),
        v.probe_inv(w, a, 0, lim),
        !has_label(v.nodes[0].links, a),
    ensures
        forall|j: int|
            v.valid(j) && is_suffix(#[trigger] v.paths[j], w.push(a)) && v.paths[j].len() <= lim ==> v.paths[j].len()
                == 0,
{
    assert forall|j: int|
        v.valid(j) && is_suffix(#[trigger] v.paths[j], w.push(a)) && v.paths[j].len() <= lim implies v.paths[j].len()
            == 0 by {
        if v.paths[j].len() > 0 {
            assert(j != 0);
            lemma_parent(v, j);
            lemma_suffix_drop_last(v.paths[j], w, a);
            let q = choose|q: int|
                v.valid(q) && #[trigger] v.paths[q] == v.paths[j].drop_last() && v.edge(q, v.paths[j].last(), j)
                    && has_label(v.nodes[q].links, v.paths[j].last());
            assert(v.paths[q].len() == 0);
            assert(v.paths[q] =~= v.paths[0]);
            lemma_unique_path(v, q, 0);
        }
    }
}

/// When the probe has an edge labelled `a`, its target spells the longest
/// suffix of `w.push(a)` of length at most `lim` that a node spells.
pub proof fn lemma_probe_found(v: TrieView, w: Seq<char>, a: char, probe: int, lim: int)
    requires
        v.shape_wf(),
        v.probe_inv(w, a, probe, lim),
        link_target(v.nodes[probe].links, a) is Some,
    ensures
        ({
            let t = link_target(v.nodes[probe].links, a)->0 as int;
            &&& v.valid(t)
            &&& t != 0
            &&& v.paths[t] == v.paths[probe].push(a)
            &&& is_suffix(v.paths[t], w.push(a))
            &&& forall|j: int|
                v.valid(j) && is_suffix(#[trigger] v.paths[j], w.push(a)) && v.paths[j].len() <= lim
                    ==> v.paths[j].len() <= v.paths[t].len()
        }),
{
    lemma_edge_path(v, probe, a);
    lemma_suffix_push(v.paths[probe], w, a);
}


/// The probe invariant holds of a node spelling a suffix of `w` that no
/// node spelling a suffix of `w` of length below `lim` outgrows.
pub proof fn lemma_probe_init(v: TrieView, w: Seq<char>, a: char, probe: int, lim: int)
    requires
        v.shape_wf(),
        v.valid(probe),
        is_suffix(v.paths[probe], w),
        forall|j: int|
            v.valid(j) && is_suffix(#[trigger] v.paths[j], w) && v.paths[j].len() < lim ==> v.paths[j].len()
                <= v.paths[probe].len(),
    ensures
        v.probe_inv(w, a, probe, lim),
{
    assert forall|j: int|
        v.valid(j) && is_suffix(#[trigger] v.paths[j], w.push(a)) && v.paths[j].len() <= lim implies v.paths[j].len()
            <= v.paths[probe].len() + 1 by {
        if v.paths[j].len() > 0 {
            lemma_parent(v, j);
            lemma_suffix_drop_last(v.paths[j], w, a);
            let q = choose|q: int|
                v.valid(q) && #[trigger] v.paths[q] == v.paths[j].drop_last() && v.edge(q, v.paths[j].last(), j)
                    && has_label(v.nodes[q].links, v.paths[j].last());
            assert(is_suffix(v.paths[q], w));
        }
    }
}

/// Some entry of the queue has child `j`.
pub open spec fn in_queue(queue: Seq<(NodeId, NodeId, char)>, j: NodeId) -> bool {
    exists|x: int| 0 <= x < queue.len() && (#[trigger] queue[x]).1 == j
}

/// The fields of a node other than its failure and dictionary links.
pub open spec fn same_content(a: NodeView, b: NodeView) -> bool {
    &&& a.value == b.value
    &&& a.keyword == b.keyword
    &&& a.links == b.links
    &&& a.pattern_len == b.pattern_len
}

impl TrieRoot {
    /// From `probe`, follow failure links until a node with an edge labelled
    /// `a` is found, and take that edge; or stop at the root. The result
    /// spells the longest suffix of `w.push(a)`, of length at most `lim`,
    /// that a node spells.
    pub(crate) fn next_state(&self, probe: NodeId, a: char, Ghost(w): Ghost<Seq<char>>, Ghost(lim): Ghost<int>) -> (r: NodeId)
        requires
            self@.shape_wf(),
            self@.probe_inv(w, a, probe as int, lim),
            forall|j: int|
                self@.valid(j) && (#[trigger] self@.paths[j]).len() <= self@.paths[probe as int].len()
                    ==> self@.fail_ok(j),
        ensures
            self@.valid(r as int),
            is_suffix(self@.paths[r as int], w.push(a)),
            self@.paths[r as int].len() <= self@.paths[probe as int].len() + 1,
            forall|j: int|
                self@.valid(j) && is_suffix(#[trigger] self@.paths[j], w.push(a)) && self@.paths[j].len() <= lim
                    ==> self@.paths[j].len() <= self@.paths[r as int].len(),
    {
        let ghost v = self@;
        let mut cur = probe;
        loop
            invariant
                v == self@,
                v.shape_wf(),
                v.probe_inv(w, a, cur as int, lim),
                v.paths[cur as int].len() <= v.paths[probe as int].len(),
                forall|j: int|
                    v.valid(j) && (#[trigger] v.paths[j]).len() <= v.paths[probe as int].len() ==> v.fail_ok(j),
            decreases v.paths[cur as int].len(),
        {
            proof {
                assert(self.nodes@[cur as int]@ == v.nodes[cur as int]);
            }
            match self.nodes[cur].follow_link(a) {
                Some(t) => {
                    proof {
                        lemma_probe_found(v, w, a, cur as int, lim);
                    }
                    return t;
                },
                None => {
                    if cur == 0 {
                        proof {
                            lemma_probe_root(v, w, a, lim);
                            assert(w.push(a).subrange(w.push(a).len() - 0, w.push(a).len() as int) =~= v.paths[0]);
                        }
                        return 0;
                    }
                    proof {
                        assert(v.fail_ok(cur as int));
                        lemma_probe_fail(v, w, a, cur as int, lim);
                    }
                    cur = self.nodes[cur].fail_to.unwrap();
                },
            }
        }
    }

    /// Append (node, child, edge character) for every edge of node `c`.
    fn push_children(&self, c: NodeId, queue: &mut Vec<(NodeId, NodeId, char)>)
        requires
            self@.shape_wf(),
            self@.valid(c as int),
        ensures
            final(queue)@.len() == old(queue)@.len() + self@.nodes[c as int].links.len(),
            forall|x: int| 0 <= x < old(queue)@.len() ==> #[trigger] final(queue)@[x] == old(queue)@[x],
            forall|kk: int|
                0 <= kk < self@.nodes[c as int].links.len() ==> #[trigger] final(queue)@[old(queue)@.len() + kk]
                    == (c, self@.nodes[c as int].links[kk].1, self@.nodes[c as int].links[kk].0),
    {
        let ghost q0 = queue@;
        proof {
            assert(self.nodes@[c as int]@ == self@.nodes[c as int]);
        }
        let n = self.nodes[c].nxt.len();
        let mut k: usize = 0;
        while k < n
            invariant
                self@.valid(c as int),
                self.nodes@[c as int]@ == self@.nodes[c as int],
                n == self@.nodes[c as int].links.len(),
                k <= n,
                queue@.len() == q0.len() + k,
                forall|x: int| 0 <= x < q0.len() ==> #[trigger] queue@[x] == q0[x],
                forall|kk: int|
                    0 <= kk < k ==> #[trigger] queue@[q0.len() + kk] == (c, self@.nodes[c as int].links[kk].1,
                        self@.nodes[c as int].links[kk].0),
            decreases n - k,
        {
            let l = &self.nodes[c].nxt[k];
            queue.push((c, l.1, l.0));
            k += 1;
        }
    }

    /// The failure link of the child of `p` over an edge labelled `a`,
    /// given the failure links of all nodes shallower than that child.
    fn failure_target(&self, p: NodeId, a: char) -> (f: NodeId)
        requires
            self@.shape_wf(),
            self@.valid(p as int),
            forall|j: int|
                self@.valid(j) && (#[trigger] self@.paths[j]).len() <= self@.paths[p as int].len() ==> self@.fail_ok(j),
        ensures
            self@.fail_target_ok(self@.paths[p as int].push(a), f as int),
    {
        let ghost v = self@;
        let ghost c = v.paths[p as int].push(a);
        if p == 0 {
            proof {
                assert(v.paths[0].len() == 0);
                assert(c.subrange(1, 1) =~= v.paths[0]);
            }
            0
        } else {
            proof {
                assert(v.fail_ok(p as int));
                assert(v.nodes[p as int] == self.nodes@[p as int]@);
            }
            let probe = self.nodes[p].fail_to.unwrap();
            proof {
                let w = v.paths[p as int];
                assert forall|j: int| v.valid(j) && is_suffix(#[trigger] v.paths[j], w) && v.paths[j].len() < w.len()
                    implies v.paths[j].len() <= v.paths[probe as int].len() by {
                    assert(is_proper_suffix(v.paths[j], v.paths[p as int]));
                }
                lemma_probe_init(v, w, a, probe as int, w.len() as int);
            }
            self.next_state(probe, a, Ghost(v.paths[p as int]), Ghost(v.paths[p as int].len() as int))
        }
    }

    /// Breadth-first assignment of failure links, one depth at a time. The
    /// queue of a depth holds (parent, child, edge character) for every node
    /// of that depth; when a node is reached, the links of all shallower
    /// nodes are already set.
    #[verifier::rlimit(30)]
    fn compute_failure_links(&mut self)
        requires
            old(self)@.shape_wf(),
            forall|i: int| old(self)@.valid(i) ==> (#[trigger] old(self)@.nodes[i]).fail_to is None,
        ensures
            final(self)@.shape_wf(),
            final(self)@.paths == old(self)@.paths,
            final(self)@.options == old(self)@.options,
            final(self)@.max_pattern_len == old(self)@.max_pattern_len,
            final(self)@.nodes.len() == old(self)@.nodes.len(),
            forall|i: int|
                #![trigger final(self)@.nodes[i]]
                final(self)@.valid(i) ==> same_content(final(self)@.nodes[i], old(self)@.nodes[i])
                    && final(self)@.nodes[i].dct_to == old(self)@.nodes[i].dct_to,
            forall|i: int| final(self)@.valid(i) ==> #[trigger] final(self)@.fail_ok(i),
    {
        let ghost pre = self@;
        let mut level: Vec<(NodeId, NodeId, char)> = Vec::new();
        self.push_children(0, &mut level);
        proof {
            assert forall|q: int| 0 <= q < level@.len() implies pre.level_entry(#[trigger] level@[q], 1) by {
                let l = pre.nodes[0].links[q];
                assert(level@[0 + q] == level@[q]);
                assert(0 < l.1 < pre.nodes.len() && pre.paths[l.1 as int] == pre.paths[0].push(l.0));
            }
            assert forall|j: int| pre.valid(j) && (#[trigger] pre.paths[j]).len() == 1 implies exists|q: int|
                0 <= q < level@.len() && (#[trigger] level@[q]).1 == j by {
                lemma_parent(pre, j);
                let q = choose|q: int|
                    pre.valid(q) && #[trigger] pre.paths[q] == pre.paths[j].drop_last() && pre.edge(q, pre.paths[j].last(), j)
                        && has_label(pre.nodes[q].links, pre.paths[j].last());
                lemma_root_path(pre, q);
                let kk = choose|kk: int| 0 <= kk < pre.nodes[0].links.len() && pre.nodes[0].links[kk] == Link(pre.paths[j].last(), j as usize);
                assert(level@[0 + kk].1 == j);
            }
            assert forall|j: int|
                #![trigger self@.nodes[j]]
                self@.valid(j) implies if self@.paths[j].len() < 1 {
                    self@.fail_ok(j)
                } else {
                    self@.nodes[j].fail_to is None
                } by {
                assert(pre.nodes[j].fail_to is None);
                if self@.paths[j].len() < 1 {
                    lemma_root_path(pre, j);
                }
            }
        }
        let ghost mut depth: int = 1;
        while level.len() > 0
            invariant
                pre.shape_wf(),
                self@.shape_wf(),
                self@.paths == pre.paths,
                self@.options == pre.options,
                self@.max_pattern_len == pre.max_pattern_len,
                self@.nodes.len() == pre.nodes.len(),
                forall|i: int|
                    #![trigger self@.nodes[i]]
                    self@.valid(i) ==> same_content(self@.nodes[i], pre.nodes[i]) && self@.nodes[i].dct_to == pre.nodes[i].dct_to,
                depth >= 1,
                forall|q: int| 0 <= q < level@.len() ==> pre.level_entry(#[trigger] level@[q], depth),
                forall|j: int|
                    pre.valid(j) && (#[trigger] pre.paths[j]).len() == depth ==> exists|q: int|
                        0 <= q < level@.len() && (#[trigger] level@[q]).1 == j,
                forall|j: int|
                    #![trigger self@.nodes[j]]
                    self@.valid(j) ==> if self@.paths[j].len() < depth {
                        self@.fail_ok(j)
                    } else {
                        self@.nodes[j].fail_to is None
                    },
            decreases pre.max_pattern_len + 1 - depth,
        {
            proof {
                assert(pre.level_entry(level@[0], depth));
                assert(pre.paths[level@[0].1 as int].len() <= pre.max_pattern_len);
            }
            let next = self.process_level(&level, Ghost(pre), Ghost(depth));
            level = next;
            proof {
                depth = depth + 1;
            }
        }
        proof {
            let v4 = self@;
            assert forall|i: int| v4.valid(i) implies #[trigger] v4.fail_ok(i) by {
                assert(v4.nodes[i] == v4.nodes[i]);
                if v4.paths[i].len() >= depth {
                    lemma_ancestor_at(pre, i, depth);
                    let j = choose|j: int| pre.valid(j) && (#[trigger] pre.paths[j]).len() == depth;
                    assert(exists|q: int| 0 <= q < level@.len() && (#[trigger] level@[q]).1 == j);
                }
            }
        }
    }

    /// Set the failure links of the nodes of one depth, given those of all
    /// shallower nodes, and return the queue of the next depth.
    #[verifier::rlimit(30)]
    fn process_level(&mut self, level: &Vec<(NodeId, NodeId, char)>, Ghost(pre): Ghost<TrieView>, Ghost(depth): Ghost<int>) -> (next: Vec<(NodeId, NodeId, char)>)
        requires
            pre.shape_wf(),
            old(self)@.shape_wf(),
            old(self)@.paths == pre.paths,
            old(self)@.nodes.len() == pre.nodes.len(),
            forall|i: int|
                #![trigger old(self)@.nodes[i]]
                old(self)@.valid(i) ==> same_content(old(self)@.nodes[i], pre.nodes[i]),
            depth >= 1,
            forall|q: int| 0 <= q < level@.len() ==> pre.level_entry(#[trigger] level@[q], depth),
            forall|j: int|
                pre.valid(j) && (#[trigger] pre.paths[j]).len() == depth ==> exists|q: int|
                    0 <= q < level@.len() && (#[trigger] level@[q]).1 == j,
            forall|j: int|
                #![trigger old(self)@.nodes[j]]
                old(self)@.valid(j) ==> if old(self)@.paths[j].len() < depth {
                    old(self)@.fail_ok(j)
                } else {
                    old(self)@.nodes[j].fail_to is None
                },
        ensures
            final(self)@.shape_wf(),
            final(self)@.paths == old(self)@.paths,
            final(self)@.options == old(self)@.options,
            final(self)@.max_pattern_len == old(self)@.max_pattern_len,
            final(self)@.nodes.len() == old(self)@.nodes.len(),
            forall|i: int|
                #![trigger final(self)@.nodes[i]]
                final(self)@.valid(i) ==> same_content(final(self)@.nodes[i], old(self)@.nodes[i])
                    && final(self)@.nodes[i].dct_to == old(self)@.nodes[i].dct_to,
            forall|q: int| 0 <= q < next@.len() ==> pre.level_entry(#[trigger] next@[q], depth + 1),
            forall|j: int|
                pre.valid(j) && (#[trigger] pre.paths[j]).len() == depth + 1 ==> exists|q: int|
                    0 <= q < next@.len() && (#[trigger] next@[q]).1 == j,
            forall|j: int|
                #![trigger final(self)@.nodes[j]]
                final(self)@.valid(j) ==> if final(self)@.paths[j].len() < depth + 1 {
                    final(self)@.fail_ok(j)
                } else {
                    final(self)@.nodes[j].fail_to is None
                },
    {
        let ghost start = self@;
        let mut next: Vec<(NodeId, NodeId, char)> = Vec::new();
        let m = level.len();
        let mut q: usize = 0;
        while q < m
            invariant
                pre.shape_wf(),
                m == level@.len(),
                q <= m,
                self@.shape_wf(),
                self@.paths == pre.paths,
                self@.options == start.options,
                self@.max_pattern_len == start.max_pattern_len,
                self@.nodes.len() == pre.nodes.len(),
                forall|i: int|
                    #![trigger self@.nodes[i]]
                    self@.valid(i) ==> same_content(self@.nodes[i], start.nodes[i]) && self@.nodes[i].dct_to == start.nodes[i].dct_to,
                start.nodes.len() == pre.nodes.len(),
                forall|i: int|
                    #![trigger start.nodes[i]]
                    start.valid(i) ==> same_content(start.nodes[i], pre.nodes[i]),
                depth >= 1,
                forall|q2: int| 0 <= q2 < level@.len() ==> pre.level_entry(#[trigger] level@[q2], depth),
                forall|j: int|
                    #![trigger self@.nodes[j]]
                    self@.valid(j) ==> if self@.paths[j].len() < depth {
                        self@.fail_ok(j)
                    } else if self@.paths[j].len() == depth {
                        self@.nodes[j].fail_to is None || self@.fail_ok(j)
                    } else {
                        self@.nodes[j].fail_to is None
                    },
                forall|q2: int| 0 <= q2 < q ==> self@.fail_ok(#[trigger] level@[q2].1 as int),
                forall|x: int| 0 <= x < next@.len() ==> pre.level_entry(#[trigger] next@[x], depth + 1),
                forall|q2: int, kk: int|
                    0 <= q2 < q && 0 <= kk < pre.nodes[level@[q2].1 as int].links.len() ==> in_queue(next@,
                        (#[trigger] pre.nodes[level@[q2].1 as int].links[kk]).1),
            decreases m - q,
        {
            let (p, c, a) = level[q];
            let ghost v0 = self@;
            let ghost next0 = next@;
            proof {
                assert(level@[q as int] == (p, c, a));
                assert(pre.level_entry(level@[q as int], depth));
                assert(same_content(v0.nodes[c as int], start.nodes[c as int]));
                assert(same_content(start.nodes[c as int], pre.nodes[c as int]));
                assert(v0.nodes[c as int].links == pre.nodes[c as int].links);
            }
            self.push_children(c, &mut next);
            proof {
                assert forall|x: int| 0 <= x < next@.len() implies pre.level_entry(#[trigger] next@[x], depth + 1) by {
                    if x >= next0.len() {
                        let kk = x - next0.len();
                        assert(next@[next0.len() + kk] == next@[x]);
                        let l = v0.nodes[c as int].links[kk];
                        assert(0 < l.1 < v0.nodes.len() && v0.paths[l.1 as int] == v0.paths[c as int].push(l.0));
                    } else {
                        assert(next@[x] == next0[x]);
                    }
                }
                assert forall|j: int|
                    v0.valid(j) && (#[trigger] v0.paths[j]).len() <= v0.paths[p as int].len() implies v0.fail_ok(j) by {
                    assert(v0.nodes[j] == v0.nodes[j]);
                }
            }
            let f = self.failure_target(p, a);
            let ghost v1 = self@;
            self.nodes[c].fail_to = Some(f);
            proof {
                let v2 = self@;
                assert(v2.nodes =~= v1.nodes.update(c as int, v2.nodes[c as int]));
                assert(v1.paths[p as int].push(a) == v1.paths[c as int]);
                assert(v2.fail_ok(c as int));
                assert forall|j: int| #![trigger v2.nodes[j]] v2.valid(j) && j != c implies v2.nodes[j] == v1.nodes[j] && (v2.fail_ok(j) == v1.fail_ok(j)) by {
                }
                assert forall|i: int| v2.valid(i) implies (#[trigger] v2.nodes[i]).wf() by {
                    if i != c { assert(v2.nodes[i] == v1.nodes[i]); }
                }
                assert forall|i: int, kk: int| v2.valid(i) && 0 <= kk < v2.nodes[i].links.len() implies {
                    let l = #[trigger] v2.nodes[i].links[kk];
                    0 < l.1 < v2.nodes.len() && v2.paths[l.1 as int] == v2.paths[i].push(l.0)
                } by {
                    assert(v2.nodes[i].links == v1.nodes[i].links);
                }
                assert forall|j: int| v2.valid(j) && j != 0 implies #[trigger] v2.has_parent(j) by {
                    assert(v1.has_parent(j));
                    let q3 = choose|q3: int| v1.valid(q3) && #[trigger] v1.edge(q3, v1.paths[j].last(), j);
                    assert(v2.nodes[q3].links == v1.nodes[q3].links);
                    assert(v2.edge(q3, v2.paths[j].last(), j));
                }
                assert forall|q2: int| 0 <= q2 < q + 1 implies v2.fail_ok(#[trigger] level@[q2].1 as int) by {
                    if q2 < q {
                        assert(v1.fail_ok(level@[q2].1 as int));
                    }
                }
                assert forall|q2: int, kk: int|
                    0 <= q2 < q + 1 && 0 <= kk < pre.nodes[level@[q2].1 as int].links.len() implies in_queue(next@,
                        (#[trigger] pre.nodes[level@[q2].1 as int].links[kk]).1) by {
                    if q2 < q {
                        assert(in_queue(next0, pre.nodes[level@[q2].1 as int].links[kk].1));
                        let x = choose|x: int| 0 <= x < next0.len() && next0[x].1 == pre.nodes[level@[q2].1 as int].links[kk].1;
                        assert(next@[x] == next0[x]);
                    } else {
                        assert(level@[q2].1 == c);
                        assert(next@[next0.len() + kk].1 == v0.nodes[c as int].links[kk].1);
                    }
                }
            }
            q += 1;
        }
        proof {
            let v3 = self@;
            assert forall|j: int|
                pre.valid(j) && (#[trigger] pre.paths[j]).len() == depth + 1 implies exists|x: int|
                    0 <= x < next@.len() && (#[trigger] next@[x]).1 == j by {
                lemma_parent(pre, j);
                let par = choose|par: int|
                    pre.valid(par) && #[trigger] pre.paths[par] == pre.paths[j].drop_last() && pre.edge(par, pre.paths[j].last(), j)
                        && has_label(pre.nodes[par].links, pre.paths[j].last());
                assert(pre.paths[par].len() == depth);
                let q2 = choose|q2: int| 0 <= q2 < level@.len() && (#[trigger] level@[q2]).1 == par;
                let kk = choose|kk: int| 0 <= kk < pre.nodes[par].links.len() && pre.nodes[par].links[kk] == Link(pre.paths[j].last(), j as usize);
                assert(pre.nodes[level@[q2].1 as int].links[kk].1 == j);
                assert(in_queue(next@, pre.nodes[level@[q2].1 as int].links[kk].1));
            }
            assert forall|j: int|
                #![trigger v3.nodes[j]]
                v3.valid(j) implies if v3.paths[j].len() < depth + 1 {
                    v3.fail_ok(j)
                } else {
                    v3.nodes[j].fail_to is None
                } by {
                if v3.paths[j].len() == depth {
                    assert(pre.paths[j].len() == depth);
                    let q2 = choose|q2: int| 0 <= q2 < level@.len() && (#[trigger] level@[q2]).1 == j;
                    assert(v3.fail_ok(level@[q2].1 as int));
                }
            }
        }
        next
    }
}


impl TrieView {
    /// `d` is the dictionary-suffix link a node spelling `w` should have:
    /// the node spelling the longest proper suffix of `w` that terminates a
    /// pattern, or none when no such node exists.
    pub open spec fn dct_target_ok(self, w: Seq<char>, d: Option<NodeId>) -> bool {
        match d {
            Some(t) => {
                &&& self.valid(t as int)
                &&& t != 0
                &&& self.nodes[t as int].is_terminal()
                &&& is_proper_suffix(self.paths[t as int], w)
                &&& forall|j: int|
                    self.valid(j) && self.nodes[j].is_terminal() && is_proper_suffix(#[trigger] self.paths[j], w)
                        ==> self.paths[j].len() <= self.paths[t as int].len()
            },
            None => forall|j: int|
                self.valid(j) && self.nodes[j].is_terminal() ==> !is_proper_suffix(#[trigger] self.paths[j], w),
        }
    }

    pub open spec fn dct_ok(self, i: int) -> bool {
        self.dct_target_ok(self.paths[i], self.nodes[i].dct_to)
    }

    /// A complete automaton: a prefix tree whose failure and
    /// dictionary-suffix links are all set as they should be.
    pub open spec fn wf(self) -> bool {
        &&& self.shape_wf()
        &&& self.max_pattern_len < usize::MAX
        &&& forall|i: int| self.valid(i) ==> #[trigger] self.fail_ok(i)
        &&& forall|i: int| self.valid(i) ==> #[trigger] self.dct_ok(i)
    }
}

impl TrieRoot {
    /// Walk the failure chain of node `i` up to the first node that
    /// terminates a pattern, or to the root.
    fn dct_target(&self, i: NodeId) -> (r: Option<NodeId>)
        requires
            self@.shape_wf(),
            forall|j: int| self@.valid(j) ==> #[trigger] self@.fail_ok(j),
            self@.valid(i as int),
            i != 0,
        ensures
            self@.dct_target_ok(self@.paths[i as int], r),
    {
        let ghost v = self@;
        let ghost w = v.paths[i as int];
        proof {
            assert(v.fail_ok(i as int));
            assert(self.nodes@[i as int]@ == v.nodes[i as int]);
        }
        let mut cur = self.nodes[i].fail_to.unwrap();
        loop
            invariant
                v == self@,
                w == v.paths[i as int],
                v.shape_wf(),
                forall|j: int| v.valid(j) ==> #[trigger] v.fail_ok(j),
                v.valid(cur as int),
                is_proper_suffix(v.paths[cur as int], w),
                forall|j: int|
                    v.valid(j) && j != 0 && v.nodes[j].is_terminal() && is_proper_suffix(#[trigger] v.paths[j], w)
                        ==> v.paths[j].len() <= v.paths[cur as int].len(),
            decreases v.paths[cur as int].len(),
        {
            if cur == 0 {
                proof {
                    assert forall|j: int| v.valid(j) && v.nodes[j].is_terminal() implies !is_proper_suffix(
                        #[trigger] v.paths[j],
                        w,
                    ) by {
                        if j != 0 && is_proper_suffix(v.paths[j], w) {
                            assert(v.paths[j].len() <= 0);
                            lemma_root_path(v, j);
                        }
                    }
                }
                return None;
            }
            proof {
                assert(self.nodes@[cur as int]@ == v.nodes[cur as int]);
            }
            if self.nodes[cur].value_keyword().is_some() {
                proof {
                    assert forall|j: int|
                        v.valid(j) && v.nodes[j].is_terminal() && is_proper_suffix(#[trigger] v.paths[j], w) implies v.paths[j].len()
                            <= v.paths[cur as int].len() by {
                        if j == 0 {
                        }
                    }
                }
                return Some(cur);
            }
            proof {
                assert(v.fail_ok(cur as int));
                let f = v.nodes[cur as int].fail_to->0 as int;
                lemma_suffix_trans(v.paths[f], v.paths[cur as int], w);
                assert forall|j: int|
                    v.valid(j) && j != 0 && v.nodes[j].is_terminal() && is_proper_suffix(#[trigger] v.paths[j], w) implies v.paths[j].len()
                        <= v.paths[f].len() by {
                    if v.paths[j].len() == v.paths[cur as int].len() {
                        lemma_suffix_of_suffix(v.paths[j], v.paths[cur as int], w);
                        lemma_unique_path(v, j, cur as int);
                    } else if v.paths[j].len() < v.paths[cur as int].len() {
                        lemma_suffix_of_suffix(v.paths[j], v.paths[cur as int], w);
                        assert(is_proper_suffix(v.paths[j], v.paths[cur as int]));
                    }
                }
            }
            cur = self.nodes[cur].fail_to.unwrap();
        }
    }

    /// Set the dictionary-suffix link of every node. Edge lists are sorted
    /// already: edges are inserted at their place.
    fn finalize_links(&mut self)
        requires
            old(self)@.shape_wf(),
            forall|j: int| old(self)@.valid(j) ==> #[trigger] old(self)@.fail_ok(j),
            old(self)@.nodes[0].dct_to is None,
            old(self)@.max_pattern_len < usize::MAX,
        ensures
            final(self)@.wf(),
            final(self)@.paths == old(self)@.paths,
            final(self)@.options == old(self)@.options,
            final(self)@.max_pattern_len == old(self)@.max_pattern_len,
            final(self)@.nodes.len() == old(self)@.nodes.len(),
            forall|i: int|
                #![trigger final(self)@.nodes[i]]
                final(self)@.valid(i) ==> same_content(final(self)@.nodes[i], old(self)@.nodes[i]),
    {
        let ghost pre = self@;
        let n = self.nodes.len();
        let mut i: usize = 1;
        proof {
            assert(pre.dct_ok(0)) by {
                assert forall|j: int| pre.valid(j) && pre.nodes[j].is_terminal() implies !is_proper_suffix(
                    #[trigger] pre.paths[j],
                    pre.paths[0],
                ) by {}
            }
        }
        while i < n
            invariant
                pre.shape_wf(),
                forall|j: int| pre.valid(j) ==> #[trigger] pre.fail_ok(j),
                n == self@.nodes.len(),
                1 <= i <= n,
                self@.shape_wf(),
                self@.paths == pre.paths,
                self@.options == pre.options,
                self@.max_pattern_len == pre.max_pattern_len,
                self@.nodes.len() == pre.nodes.len(),
                forall|k: int|
                    #![trigger self@.nodes[k]]
                    self@.valid(k) ==> same_content(self@.nodes[k], pre.nodes[k]) && self@.nodes[k].fail_to == pre.nodes[k].fail_to,
                forall|k: int| 0 <= k < i ==> #[trigger] self@.dct_ok(k),
            decreases n - i,
        {
            let ghost v0 = self@;
            proof {
                assert forall|j: int| v0.valid(j) implies #[trigger] v0.fail_ok(j) by {
                    assert(v0.nodes[j].fail_to == pre.nodes[j].fail_to);
                    assert(pre.fail_ok(j));
                }
            }
            let d = self.dct_target(i);
            self.nodes[i].dct_to = d;
            proof {
                let v1 = self@;
                assert(v1.nodes =~= v0.nodes.update(i as int, v1.nodes[i as int]));
                assert forall|k: int| #![trigger v1.nodes[k]] v1.valid(k) && k != i implies v1.nodes[k] == v0.nodes[k] by {}
                assert forall|k: int| 0 <= k < i + 1 implies #[trigger] v1.dct_ok(k) by {
                    if k < i {
                        assert(v0.dct_ok(k));
                        assert forall|j: int| v1.valid(j) implies (#[trigger] v1.nodes[j]).is_terminal() == v0.nodes[j].is_terminal() by {}
                    } else {
                        assert forall|j: int| v1.valid(j) implies (#[trigger] v1.nodes[j]).is_terminal() == v0.nodes[j].is_terminal() by {}
                    }
                }
                assert forall|k: int| v1.valid(k) implies (#[trigger] v1.nodes[k]).wf() by {
                    if k != i {
                        assert(v1.nodes[k] == v0.nodes[k]);
                    } else {
                        assert(v0.nodes[k].wf());
                        assert(same_content(v1.nodes[k], v0.nodes[k]));
                    }
                }
                assert forall|k: int, kk: int| v1.valid(k) && 0 <= kk < v1.nodes[k].links.len() implies {
                    let l = #[trigger] v1.nodes[k].links[kk];
                    0 < l.1 < v1.nodes.len() && v1.paths[l.1 as int] == v1.paths[k].push(l.0)
                } by {
                    assert(v1.nodes[k].links == v0.nodes[k].links);
                }
                assert forall|k: int|
                    v1.valid(k) && (#[trigger] v1.nodes[k]).value is Some implies v1.nodes[k].value == Some(v1.paths[k]) by {
                    assert(v1.nodes[k].value == v0.nodes[k].value);
                }
                assert forall|j: int| v1.valid(j) && j != 0 implies #[trigger] v1.has_parent(j) by {
                    assert(v0.has_parent(j));
                    let q3 = choose|q3: int| v0.valid(q3) && #[trigger] v0.edge(q3, v0.paths[j].last(), j);
                    assert(v1.nodes[q3].links == v0.nodes[q3].links);
                    assert(v1.edge(q3, v1.paths[j].last(), j));
                }
            }
            i += 1;
        }
        proof {
            let v2 = self@;
            assert forall|k: int| v2.valid(k) implies #[trigger] v2.fail_ok(k) by {
                assert(v2.nodes[k].fail_to == pre.nodes[k].fail_to);
                assert(pre.fail_ok(k));
            }
        }
    }
}


/// The options in force: those given, or case-sensitive search without
/// bounds checks.
pub open spec fn effective_options(opts: Option<SearchOptions>) -> SearchOptions {
    match opts {
        Some(o) => o,
        None => SearchOptions { case_sensitive: true, check_bounds: false },
    }
}

/// The pattern an entry contributes: its text, lower-cased when case is
/// ignored, in NFC.
pub open spec fn entry_key(e: (String, Option<String>), case_sensitive: bool) -> Seq<char> {
    nfc_of(if case_sensitive { e.0@ } else { lower_of(e.0@) })
}

/// The keyword of an entry: the one given, else its pattern.
pub open spec fn entry_keyword(e: (String, Option<String>), case_sensitive: bool) -> Seq<char> {
    match e.1 {
        Some(k) => k@,
        None => entry_key(e, case_sensitive),
    }
}

/// The patterns of a dictionary, in order.
pub open spec fn keys_of(d: Seq<(String, Option<String>)>, case_sensitive: bool) -> Seq<Seq<char>> {
    Seq::new(d.len(), |i: int| entry_key(d[i], case_sensitive))
}

/// Total number of characters of a sequence of patterns.
pub open spec fn total_len(keys: Seq<Seq<char>>) -> int
    decreases keys.len(),
{
    if keys.len() == 0 {
        0
    } else {
        total_len(keys.drop_last()) + keys.last().len()
    }
}

/// Two patterns are empty.
pub open spec fn two_empty(keys: Seq<Seq<char>>) -> bool {
    exists|i: int, j: int| 0 <= i < j < keys.len() && (#[trigger] keys[i]).len() == 0 && (#[trigger] keys[j]).len() == 0
}

/// Some pattern is empty.
pub open spec fn some_empty(keys: Seq<Seq<char>>) -> bool {
    exists|i: int| 0 <= i < keys.len() && (#[trigger] keys[i]).len() == 0
}

/// Some pattern occurs twice.
pub open spec fn has_duplicate(keys: Seq<Seq<char>>) -> bool {
    exists|i: int, j: int| 0 <= i < j < keys.len() && #[trigger] keys[i] == #[trigger] keys[j]
}

/// The error with which construction from these patterns fails, if any:
/// an empty dictionary or an empty pattern is invalid (two empty patterns
/// are a duplicate); a dictionary too large for node identifiers is
/// refused; a pattern given twice is a duplicate.
pub open spec fn build_error(keys: Seq<Seq<char>>) -> Option<SearchError> {
    if keys.len() == 0 {
        Some(SearchError::InvalidDictionary)
    } else if two_empty(keys) {
        Some(SearchError::DuplicateNode)
    } else if some_empty(keys) {
        Some(SearchError::InvalidDictionary)
    } else if total_len(keys) + 2 > usize::MAX {
        Some(SearchError::InvalidNodeId(usize::MAX as usize))
    } else if has_duplicate(keys) {
        Some(SearchError::DuplicateNode)
    } else {
        None
    }
}

impl TrieView {
    /// Some node spells `key`, terminates it, and carries keyword `kw`.
    pub open spec fn holds_key(self, key: Seq<char>, kw: Seq<char>) -> bool {
        exists|j: int|
            self.valid(j) && #[trigger] self.paths[j] == key && self.nodes[j].value == Some(key)
                && self.nodes[j].keyword == Some(kw)
    }

    /// Node `j` spells one of the first `k` patterns, with its keyword.
    pub open spec fn terminal_from(self, j: int, keys: Seq<Seq<char>>, kws: Seq<Seq<char>>, k: int) -> bool {
        exists|i: int| 0 <= i < k && self.paths[j] == #[trigger] keys[i] && self.nodes[j].keyword == Some(kws[i])
    }

    /// The first `k` patterns of `keys` are in the automaton, each at the
    /// node it spells, with its keyword from `kws`; no other node
    /// terminates a pattern; and every node spells a prefix of a pattern.
    #[verifier::opaque]
    pub open spec fn holds_entries(self, keys: Seq<Seq<char>>, kws: Seq<Seq<char>>, k: int) -> bool {
        &&& forall|i: int| 0 <= i < k ==> #[trigger] self.holds_key(keys[i], kws[i])
        &&& forall|j: int|
            self.valid(j) && (#[trigger] self.nodes[j]).is_terminal() ==> self.terminal_from(j, keys, kws, k)
        &&& forall|j: int|
            self.valid(j) ==> (#[trigger] self.paths[j]).len() == 0 || prefix_of_some(self.paths[j], keys, k)
    }

    /// The automaton holds exactly the patterns of dictionary `d` with
    /// their keywords, under the options `opts` asked for.
    pub open spec fn built_from(self, d: Seq<(String, Option<String>)>, opts: Option<SearchOptions>) -> bool {
        let cs = effective_options(opts).case_sensitive;
        &&& self.wf()
        &&& self.options == effective_options(opts)
        &&& self.holds_entries(keys_of(d, cs), keywords_of(d, cs), d.len() as int)
    }
}

/// `s` begins one of the first `k` patterns.
pub open spec fn prefix_of_some(s: Seq<char>, keys: Seq<Seq<char>>, k: int) -> bool {
    exists|i: int| 0 <= i < k && is_prefix(s, #[trigger] keys[i])
}

/// The keywords of a dictionary, in order.
pub open spec fn keywords_of(d: Seq<(String, Option<String>)>, case_sensitive: bool) -> Seq<Seq<char>> {
    Seq::new(d.len(), |i: int| entry_keyword(d[i], case_sensitive))
}

/// Holding entries depends only on paths, values and keywords.
pub proof fn lemma_holds_entries_content(a: TrieView, b: TrieView, keys: Seq<Seq<char>>, kws: Seq<Seq<char>>, k: int)
    requires
        a.holds_entries(keys, kws, k),
        a.paths == b.paths,
        a.nodes.len() == b.nodes.len(),
        forall|i: int| #![trigger b.nodes[i]] b.valid(i) ==> same_content(b.nodes[i], a.nodes[i]),
    ensures
        b.holds_entries(keys, kws, k),
{
    reveal(TrieView::holds_entries);
    assert forall|i: int| 0 <= i < k implies #[trigger] b.holds_key(keys[i], kws[i]) by {
        assert(a.holds_key(keys[i], kws[i]));
        let j = choose|j: int|
            a.valid(j) && #[trigger] a.paths[j] == keys[i] && a.nodes[j].value == Some(keys[i])
                && a.nodes[j].keyword == Some(kws[i]);
        assert(same_content(b.nodes[j], a.nodes[j]));
        assert(b.paths[j] == keys[i]);
    }
    assert forall|j: int| b.valid(j) && (#[trigger] b.nodes[j]).is_terminal() implies b.terminal_from(j, keys, kws, k) by {
        assert(same_content(b.nodes[j], a.nodes[j]));
        assert(a.nodes[j].is_terminal());
        assert(a.terminal_from(j, keys, kws, k));
        let i = choose|i: int| 0 <= i < k && a.paths[j] == #[trigger] keys[i] && a.nodes[j].keyword == Some(kws[i]);
        assert(b.paths[j] == keys[i]);
    }
    assert forall|j: int| b.valid(j) implies (#[trigger] b.paths[j]).len() == 0 || prefix_of_some(b.paths[j], keys, k) by {
        assert(a.paths[j] == b.paths[j]);
    }
}

/// Adding a pattern to a prefix of a sequence adds its length.
pub proof fn lemma_total_len_take(keys: Seq<Seq<char>>, k: int)
    requires
        0 <= k < keys.len(),
    ensures
        total_len(keys.take(k + 1)) == total_len(keys.take(k)) + keys[k].len(),
{
    assert(keys.take(k + 1).drop_last() =~= keys.take(k));
}

/// The total length of a prefix is at most the whole's.
pub proof fn lemma_total_len_mono(keys: Seq<Seq<char>>, k: int)
    requires
        0 <= k <= keys.len(),
    ensures
        0 <= total_len(keys.take(k)) <= total_len(keys),
    decreases keys.len() - k,
{
    if k < keys.len() {
        lemma_total_len_take(keys, k);
        lemma_total_len_mono(keys, k + 1);
    } else {
        assert(keys.take(k) =~= keys);
    }
    lemma_total_len_nonneg(keys.take(k));
}

pub proof fn lemma_total_len_nonneg(keys: Seq<Seq<char>>)
    ensures
        total_len(keys) >= 0,
    decreases keys.len(),
{
    if keys.len() > 0 {
        lemma_total_len_nonneg(keys.drop_last());
    }
}

/// The normalized pattern (as characters and as a string) and keyword of an
/// entry.
fn prepare_entry(e: &(String, Option<String>), case_sensitive: bool) -> (r: (Vec<char>, String, String))
    ensures
        r.0@ == entry_key(*e, case_sensitive),
        r.1@ == entry_key(*e, case_sensitive),
        r.2@ == entry_keyword(*e, case_sensitive),
{
    let folded = if case_sensitive {
        e.0.clone()
    } else {
        lowercase(e.0.as_str())
    };
    let norm = normalize(folded.as_str());
    let chars = chars_of(norm.as_str());
    let kw = match &e.1 {
        Some(k) => k.clone(),
        None => norm.clone(),
    };
    (chars, norm, kw)
}

/// Given a vector of patterns, return a vector of (pattern, keyword) entries
/// without keywords.
pub fn add_keyword_slot(patterns: Vec<String>) -> (r: Vec<(String, Option<String>)>)
    ensures
        r@.len() == patterns@.len(),
        forall|i: int| 0 <= i < r@.len() ==> #[trigger] r@[i] == (patterns@[i], None::<String>),
{
    let mut new: Vec<(String, Option<String>)> = Vec::with_capacity(patterns.len());
    let mut k: usize = 0;
    while k < patterns.len()
        invariant
            k <= patterns@.len(),
            new@.len() == k,
            forall|i: int| 0 <= i < k ==> #[trigger] new@[i] == (patterns@[i], None::<String>),
        decreases patterns@.len() - k,
    {
        new.push((patterns[k].clone(), None));
        k += 1;
    }
    new
}

/// The prepared entries of a dictionary (pattern as characters and as a
/// string, keyword), with how many of the patterns are empty (counting up
/// to two), whether their total length leaves no room for node
/// identifiers, and the longest pattern length.
#[verifier::rlimit(40)]
fn prepare_entries(dictionary: &Vec<(String, Option<String>)>, cs: bool) -> (r: (
    Vec<(Vec<char>, String, String)>,
    usize,
    bool,
    usize,
))
    ensures
        ({
            let keys = keys_of(dictionary@, cs);
            &&& r.0@.len() == dictionary@.len()
            &&& forall|i: int|
                0 <= i < dictionary@.len() ==> {
                    let e = #[trigger] r.0@[i];
                    &&& e.0@ == keys[i]
                    &&& e.1@ == keys[i]
                    &&& e.2@ == keywords_of(dictionary@, cs)[i]
                }
            &&& r.1 <= 2
            &&& (r.1 == 0 ==> !some_empty(keys))
            &&& (r.1 == 1 ==> some_empty(keys) && !two_empty(keys))
            &&& (r.1 == 2 ==> two_empty(keys))
            &&& (r.2 <==> total_len(keys) + 2 > usize::MAX)
            &&& forall|i: int| 0 <= i < keys.len() ==> (#[trigger] keys[i]).len() <= r.3
            &&& (r.3 == 0 || exists|i: int| 0 <= i < keys.len() && (#[trigger] keys[i]).len() == r.3)
        }),
{
    let n = dictionary.len();
    let ghost keys = keys_of(dictionary@, cs);
    let mut prepared: Vec<(Vec<char>, String, String)> = Vec::with_capacity(n);
    let mut empties: usize = 0;
    let mut total: usize = 0;
    let mut overflow = false;
    let mut max_len: usize = 0;
    let mut k: usize = 0;
    while k < n
        invariant
            n == dictionary@.len(),
            keys == keys_of(dictionary@, cs),
            k <= n,
            prepared@.len() == k,
            forall|i: int|
                0 <= i < k ==> {
                    let e = #[trigger] prepared@[i];
                    &&& e.0@ == keys[i]
                    &&& e.1@ == keys[i]
                    &&& e.2@ == keywords_of(dictionary@, cs)[i]
                },
            empties <= 2,
            empties == 0 ==> !some_empty(keys.take(k as int)),
            empties == 1 ==> some_empty(keys.take(k as int)) && !two_empty(keys.take(k as int)),
            empties == 2 ==> two_empty(keys.take(k as int)),
            !overflow ==> total == total_len(keys.take(k as int)) && total + 2 <= usize::MAX,
            overflow ==> total_len(keys.take(k as int)) + 2 > usize::MAX,
            forall|i: int| 0 <= i < k ==> (#[trigger] keys[i]).len() <= max_len,
            max_len == 0 || exists|i: int| 0 <= i < k && (#[trigger] keys[i]).len() == max_len,
        decreases n - k,
    {
        let e = prepare_entry(&dictionary[k], cs);
        let len = e.0.len();
        let ghost tk = keys.take(k as int);
        let ghost tk1 = keys.take(k + 1);
        proof {
            assert(tk1 =~= tk.push(keys[k as int]));
            assert(keys[k as int] == entry_key(dictionary@[k as int], cs));
            lemma_total_len_take(keys, k as int);
            lemma_total_len_nonneg(tk);
            if overflow {
                lemma_total_len_mono(keys, k as int);
            }
        }
        if len == 0 {
            proof {
                assert(tk1[k as int].len() == 0);
                if empties == 1 {
                    let i = choose|i: int| 0 <= i < tk.len() && (#[trigger] tk[i]).len() == 0;
                    assert(tk1[i] == tk[i]);
                }
            }
            if empties < 2 {
                empties += 1;
            }
        } else {
            proof {
                if empties >= 1 {
                    let i = choose|i: int| 0 <= i < tk.len() && (#[trigger] tk[i]).len() == 0;
                    assert(tk1[i] == tk[i]);
                }
                if empties == 2 {
                    let (i, j) = choose|i: int, j: int| 0 <= i < j < tk.len() && (#[trigger] tk[i]).len() == 0 && (#[trigger] tk[j]).len() == 0;
                    assert(tk1[i] == tk[i] && tk1[j] == tk[j]);
                }
                if empties < 2 && two_empty(tk1) {
                    let (i, j) = choose|i: int, j: int| 0 <= i < j < tk1.len() && (#[trigger] tk1[i]).len() == 0 && (#[trigger] tk1[j]).len() == 0;
                    assert(tk[i] == tk1[i] && tk[j] == tk1[j]);
                }
                if empties == 0 && some_empty(tk1) {
                    let i = choose|i: int| 0 <= i < tk1.len() && (#[trigger] tk1[i]).len() == 0;
                    assert(tk[i] == tk1[i]);
                }
            }
        }
        proof {
            if len == 0 && empties == 2 {
                if two_empty(tk) {
                    let (i, j) = choose|i: int, j: int| 0 <= i < j < tk.len() && (#[trigger] tk[i]).len() == 0 && (#[trigger] tk[j]).len() == 0;
                    assert(tk1[i] == tk[i] && tk1[j] == tk[j]);
                } else {
                    let i = choose|i: int| 0 <= i < tk.len() && (#[trigger] tk[i]).len() == 0;
                    assert(tk1[i] == tk[i]);
                    assert(tk1[k as int].len() == 0);
                }
            }
            if len == 0 && empties == 1 {
                let i = choose|i: int| 0 <= i < tk1.len() && (#[trigger] tk1[i]).len() == 0;
                assert(tk1[k as int].len() == 0);
            }
        }
        if !overflow {
            if len > usize::MAX - 2 - total {
                overflow = true;
            } else {
                total = total + len;
            }
        }
        if len > max_len {
            max_len = len;
        }
        prepared.push(e);
        k += 1;
    }
    proof {
        assert(keys.take(n as int) =~= keys);
    }
    (prepared, empties, overflow, max_len)
}

/// Insert the prepared patterns into a tree holding the root alone; false
/// when a pattern occurs twice.
#[verifier::rlimit(40)]
fn insert_entries(
    pt: &mut TrieRoot,
    prepared: &Vec<(Vec<char>, String, String)>,
    Ghost(keys): Ghost<Seq<Seq<char>>>,
    Ghost(kws): Ghost<Seq<Seq<char>>>,
) -> (ok: bool)
    requires
        old(pt)@.shape_wf(),
        old(pt)@.nodes.len() == 1,
        old(pt)@.nodes[0].fail_to is None,
        old(pt)@.nodes[0].dct_to is None,
        prepared@.len() == keys.len(),
        keys.len() == kws.len(),
        forall|i: int|
            0 <= i < keys.len() ==> {
                let e = #[trigger] prepared@[i];
                &&& e.0@ == keys[i]
                &&& e.1@ == keys[i]
                &&& e.2@ == kws[i]
            },
        forall|i: int| 0 <= i < keys.len() ==> (#[trigger] keys[i]).len() <= old(pt)@.max_pattern_len,
        !some_empty(keys),
        total_len(keys) + 2 <= usize::MAX,
    ensures
        ok <==> !has_duplicate(keys),
        ok ==> {
            &&& final(pt)@.shape_wf()
            &&& final(pt)@.options == old(pt)@.options
            &&& final(pt)@.max_pattern_len == old(pt)@.max_pattern_len
            &&& final(pt)@.nodes[0].dct_to is None
            &&& forall|i: int| final(pt)@.valid(i) ==> (#[trigger] final(pt)@.nodes[i]).fail_to is None
            &&& final(pt)@.holds_entries(keys, kws, keys.len() as int)
        },
{
    let ghost pre = pt@;
    let n = prepared.len();
    let mut k: usize = 0;
    proof {
        reveal(TrieView::holds_entries);
        assert forall|i: int| pt@.valid(i) implies (#[trigger] pt@.nodes[i]).fail_to is None && pt@.nodes[i].dct_to is None by {
            assert(i == 0);
        }
        assert(keys.take(0) =~= Seq::<Seq<char>>::empty());
        assert forall|j: int| pt@.valid(j) && (#[trigger] pt@.nodes[j]).is_terminal() implies false by {
            assert(j == 0);
        }
        assert forall|j: int| pt@.valid(j) implies (#[trigger] pt@.paths[j]).len() == 0 by {
            assert(j == 0);
        }
    }
    while k < n
        invariant
            n == prepared@.len(),
            n == keys.len(),
            k <= n,
            !some_empty(keys),
            total_len(keys) + 2 <= usize::MAX,
            forall|i: int|
                0 <= i < n ==> {
                    let e = #[trigger] prepared@[i];
                    &&& e.0@ == keys[i]
                    &&& e.1@ == keys[i]
                    &&& e.2@ == kws[i]
                },
            forall|i: int| 0 <= i < n ==> (#[trigger] keys[i]).len() <= pre.max_pattern_len,
            pt@.shape_wf(),
            pt@.options == pre.options,
            pt@.max_pattern_len == pre.max_pattern_len,
            pt@.nodes[0].dct_to is None,
            forall|i: int| pt@.valid(i) ==> (#[trigger] pt@.nodes[i]).fail_to is None && pt@.nodes[i].dct_to is None,
            pt@.nodes.len() <= 1 + total_len(keys.take(k as int)),
            forall|a: int, b: int| 0 <= a < b < k ==> #[trigger] keys[a] != #[trigger] keys[b],
            pt@.holds_entries(keys, kws, k as int),
        decreases n - k,
    {
        let ghost v0 = pt@;
        proof {
            let e = prepared@[k as int];
            assert(keys[k as int].len() > 0);
            lemma_total_len_take(keys, k as int);
            lemma_total_len_mono(keys, k + 1);
        }
        let res = pt.add_pattern(&prepared[k].0, prepared[k].1.clone(), prepared[k].2.clone());
        if res.is_err() {
            proof {
                lemma_insert_duplicate(v0, keys, kws, k as int);
            }
            return false;
        }
        proof {
            lemma_insert_step(v0, pt@, keys, kws, k as int);
        }
        k += 1;
    }
    proof {
        assert(!has_duplicate(keys));
    }
    true
}

/// A pattern whose node already terminates a pattern repeats an earlier one.
proof fn lemma_insert_duplicate(v0: TrieView, keys: Seq<Seq<char>>, kws: Seq<Seq<char>>, k: int)
    requires
        0 <= k < keys.len(),
        v0.holds_entries(keys, kws, k),
        v0.has_pattern(keys[k]),
    ensures
        has_duplicate(keys),
{
    reveal(TrieView::holds_entries);
    let j = choose|j: int| v0.valid(j) && #[trigger] v0.paths[j] == keys[k] && v0.nodes[j].is_terminal();
    assert(v0.terminal_from(j, keys, kws, k));
    let i = choose|i: int| 0 <= i < k && v0.paths[j] == #[trigger] keys[i] && v0.nodes[j].keyword == Some(kws[i]);
    assert(keys[i] == keys[k]);
}

/// Inserting a new pattern `keys[k]` with keyword `kws[k]` extends the
/// entries held by one.
proof fn lemma_insert_step(v0: TrieView, v1: TrieView, keys: Seq<Seq<char>>, kws: Seq<Seq<char>>, k: int)
    requires
        0 <= k < keys.len(),
        v0.holds_entries(keys, kws, k),
        forall|a: int, b: int| 0 <= a < b < k ==> #[trigger] keys[a] != #[trigger] keys[b],
        !v0.has_pattern(keys[k]),
        v1.has_path(keys[k]),
        v0.paths.len() <= v1.paths.len(),
        v0.nodes.len() == v0.paths.len(),
        v1.nodes.len() == v1.paths.len(),
        forall|i: int| 0 <= i < v0.paths.len() ==> #[trigger] v1.paths[i] == v0.paths[i],
        forall|i: int| v0.nodes.len() <= i < v1.nodes.len() ==> is_prefix(#[trigger] v1.paths[i], keys[k]),
        forall|i: int|
            #![trigger v1.nodes[i]]
            v1.valid(i) ==> if v1.paths[i] == keys[k] {
                v1.nodes[i].value == Some(keys[k]) && v1.nodes[i].keyword == Some(kws[k])
            } else {
                v1.nodes[i].value == (if v0.valid(i) {
                    v0.nodes[i].value
                } else {
                    None
                }) && v1.nodes[i].keyword == (if v0.valid(i) {
                    v0.nodes[i].keyword
                } else {
                    None
                })
            },
    ensures
        v1.holds_entries(keys, kws, k + 1),
        forall|a: int, b: int| 0 <= a < b < k + 1 ==> #[trigger] keys[a] != #[trigger] keys[b],
{
    reveal(TrieView::holds_entries);
    assert forall|a: int, b: int| 0 <= a < b < k + 1 implies #[trigger] keys[a] != #[trigger] keys[b] by {
        if b == k && keys[a] == keys[b] {
            assert(v0.holds_key(keys[a], kws[a]));
            let j = choose|j: int|
                v0.valid(j) && #[trigger] v0.paths[j] == keys[a] && v0.nodes[j].value == Some(keys[a])
                    && v0.nodes[j].keyword == Some(kws[a]);
            assert(v0.has_pattern(keys[k]));
        }
    }
    assert forall|i: int| 0 <= i < k + 1 implies #[trigger] v1.holds_key(keys[i], kws[i]) by {
        if i < k {
            assert(v0.holds_key(keys[i], kws[i]));
            let j = choose|j: int|
                v0.valid(j) && #[trigger] v0.paths[j] == keys[i] && v0.nodes[j].value == Some(keys[i])
                    && v0.nodes[j].keyword == Some(kws[i]);
            assert(v1.paths[j] == v0.paths[j]);
            assert(v1.nodes[j] == v1.nodes[j]);
            assert(keys[i] != keys[k]);
        } else {
            let j0 = choose|j0: int| v1.valid(j0) && #[trigger] v1.paths[j0] == keys[k];
            assert(v1.nodes[j0] == v1.nodes[j0]);
        }
    }
    assert forall|j: int| v1.valid(j) implies (#[trigger] v1.paths[j]).len() == 0 || prefix_of_some(v1.paths[j], keys, k + 1) by {
        if j < v0.nodes.len() {
            assert(v1.paths[j] == v0.paths[j]);
            if v0.paths[j].len() != 0 {
                assert(prefix_of_some(v0.paths[j], keys, k));
                let i = choose|i: int| 0 <= i < k && is_prefix(v0.paths[j], #[trigger] keys[i]);
                assert(keys[i] == keys[i]);
            }
        } else {
            assert(is_prefix(v1.paths[j], keys[k]));
        }
    }
    assert forall|j: int| v1.valid(j) && (#[trigger] v1.nodes[j]).is_terminal() implies v1.terminal_from(j, keys, kws, k + 1) by {
        if v1.paths[j] == keys[k] {
            assert(v1.paths[j] == keys[k]);
        } else {
            assert(v0.valid(j));
            assert(v0.nodes[j].is_terminal());
            assert(v1.paths[j] == v0.paths[j]);
            assert(v0.terminal_from(j, keys, kws, k));
            let i = choose|i: int| 0 <= i < k && v0.paths[j] == #[trigger] keys[i] && v0.nodes[j].keyword == Some(kws[i]);
            assert(keys[i] == keys[i]);
        }
    }
}

/// Instantiate a prefix tree for search from the given dictionary of
/// (pattern, optional keyword) entries. Patterns are lower-cased when the
/// search ignores case, then NFC-normalized; a missing keyword defaults to
/// the normalized pattern. Fails on an empty dictionary, an empty pattern or
/// a duplicate pattern (see `build_error` for which error comes first).
///
/// Patterns are inserted in the order given, and a duplicate is caught when
/// the node it spells already terminates a pattern, so no sorting pass is
/// needed: node numbering follows the entry order, while the patterns held
/// and the matches reported do not depend on it.
pub fn create_prefix_tree(dictionary: Vec<(String, Option<String>)>, opts: Option<SearchOptions>) -> (r:
    SearchResult<TrieRoot>)
    ensures
        match r {
            Ok(t) => build_error(keys_of(dictionary@, effective_options(opts).case_sensitive)) is None
                && t@.built_from(dictionary@, opts),
            Err(e) => build_error(keys_of(dictionary@, effective_options(opts).case_sensitive)) == Some(e),
        },
{
    let n = dictionary.len();
    if n == 0 {
        return Err(SearchError::InvalidDictionary);
    }
    let opts_obj = match opts {
        Some(o) => o,
        None => SearchOptions::default(),
    };
    let cs = opts_obj.case_sensitive;
    let ghost keys = keys_of(dictionary@, cs);
    let ghost kws = keywords_of(dictionary@, cs);
    let (prepared, empties, overflow, max_len) = prepare_entries(&dictionary, cs);
    if empties >= 2 {
        return Err(SearchError::DuplicateNode);
    }
    if empties == 1 {
        return Err(SearchError::InvalidDictionary);
    }
    if overflow {
        return Err(SearchError::InvalidNodeId(usize::MAX));
    }
    proof {
        lemma_no_empty(keys);
        if max_len > 0 {
            let i = choose|i: int| 0 <= i < n && (#[trigger] keys[i]).len() == max_len;
            lemma_total_len_take(keys, i);
            lemma_total_len_mono(keys, i + 1);
            lemma_total_len_nonneg(keys.take(i));
        }
    }
    match build_trie(&prepared, opts_obj, max_len, Ghost(keys), Ghost(kws)) {
        Some(pt) => Ok(pt),
        None => Err(SearchError::DuplicateNode),
    }
}

/// Build the automaton for prepared patterns that are neither empty nor
/// too long in total; none when a pattern occurs twice.
fn build_trie(
    prepared: &Vec<(Vec<char>, String, String)>,
    opts: SearchOptions,
    max_len: usize,
    Ghost(keys): Ghost<Seq<Seq<char>>>,
    Ghost(kws): Ghost<Seq<Seq<char>>>,
) -> (r: Option<TrieRoot>)
    requires
        prepared@.len() == keys.len(),
        keys.len() == kws.len(),
        forall|i: int|
            0 <= i < keys.len() ==> {
                let e = #[trigger] prepared@[i];
                &&& e.0@ == keys[i]
                &&& e.1@ == keys[i]
                &&& e.2@ == kws[i]
            },
        forall|i: int| 0 <= i < keys.len() ==> (#[trigger] keys[i]).len() <= max_len,
        max_len < usize::MAX,
        !some_empty(keys),
        total_len(keys) + 2 <= usize::MAX,
    ensures
        r is Some <==> !has_duplicate(keys),
        r matches Some(t) ==> t@.wf() && t@.options == opts && t@.holds_entries(keys, kws, keys.len() as int),
{
    let mut pt = TrieRoot::new(opts);
    pt.max_pattern_len = max_len;
    if !insert_entries(&mut pt, prepared, Ghost(keys), Ghost(kws)) {
        return None;
    }
    let ghost v0 = pt@;
    pt.compute_failure_links();
    pt.finalize_links();
    proof {
        lemma_holds_entries_content(v0, pt@, keys, kws, keys.len() as int);
    }
    Some(pt)
}

/// Without empty patterns, no two are empty.
pub proof fn lemma_no_empty(keys: Seq<Seq<char>>)
    requires
        !some_empty(keys),
    ensures
        !two_empty(keys),
{
    if two_empty(keys) {
        let (i, j) = choose|i: int, j: int| 0 <= i < j < keys.len() && (#[trigger] keys[i]).len() == 0 && (#[trigger] keys[j]).len() == 0;
        assert(keys[i].len() == 0);
    }
}


impl TrieView {
    /// The node that the non-empty string `s` spells, if any.
    pub open spec fn lookup(self, s: Seq<char>) -> Option<NodeId> {
        if s.len() > 0 && self.has_path(s) {
            Some((choose|i: int| self.valid(i) && #[trigger] self.paths[i] == s) as NodeId)
        } else {
            None
        }
    }

    /// The keyword of the pattern `s`.
    pub open spec fn keyword_of(self, s: Seq<char>) -> Seq<char> {
        self.nodes[choose|i: int| self.valid(i) && #[trigger] self.paths[i] == s && self.nodes[i].is_terminal()].keyword->0
    }
}

/// Every prefix of a node's path is spelled by a node.
pub proof fn lemma_prefix_node(v: TrieView, j: int, m: int)
    requires
        v.shape_wf(),
        v.valid(j),
        0 <= m <= v.paths[j].len(),
    ensures
        v.has_path(v.paths[j].take(m)),
    decreases v.paths[j].len() - m,
{
    if v.paths[j].len() == m {
        assert(v.paths[j].take(m) =~= v.paths[j]);
    } else {
        assert(j != 0);
        lemma_parent(v, j);
        let q = choose|q: int|
            v.valid(q) && #[trigger] v.paths[q] == v.paths[j].drop_last() && v.edge(q, v.paths[j].last(), j)
                && has_label(v.nodes[q].links, v.paths[j].last());
        lemma_prefix_node(v, q, m);
        assert(v.paths[q].take(m) =~= v.paths[j].take(m));
    }
}

impl TrieRoot {
    /// Get a node by its identifier; fails on an identifier outside the
    /// node vector.
    pub fn get_node(&self, node_id: NodeId) -> (r: SearchResult<&Node>)
        ensures
            match r {
                Ok(n) => node_id < self@.nodes.len() && n@ == self@.nodes[node_id as int],
                Err(e) => node_id >= self@.nodes.len() && e == SearchError::InvalidNodeId(node_id),
            },
    {
        if node_id >= self.nodes.len() {
            Err(SearchError::InvalidNodeId(node_id))
        } else {
            Ok(&self.nodes[node_id])
        }
    }

    /// Get a node whose identifier is known to be valid.
    pub(crate) fn get_node_unchecked(&self, node_id: NodeId) -> (r: &Node)
        requires
            node_id < self@.nodes.len(),
        ensures
            r@ == self@.nodes[node_id as int],
    {
        &self.nodes[node_id]
    }

    /// The node vector.
    pub fn nodes_vec(&self) -> (r: &Vec<Node>)
        ensures
            r@.len() == self@.nodes.len(),
            forall|i: int| 0 <= i < r@.len() ==> (#[trigger] r@[i])@ == self@.nodes[i],
    {
        &self.nodes
    }

    /// The identifier of the root node.
    pub fn root_node_id(&self) -> (r: NodeId)
        ensures
            r == 0,
    {
        0
    }

    /// The root node.
    pub fn root_node(&self) -> (r: &Node)
        requires
            self@.wf(),
        ensures
            r@ == self@.nodes[0],
    {
        &self.nodes[0]
    }

    /// The total number of nodes in the prefix tree.
    pub fn total_nodes(&self) -> (r: usize)
        ensures
            r == self@.nodes.len(),
    {
        self.nodes.len()
    }

    /// The search options of the automaton.
    pub fn options(&self) -> (r: SearchOptions)
        ensures
            r == self@.options,
    {
        self.options
    }

    /// The length of the longest pattern, in characters.
    pub fn max_pattern_len(&self) -> (r: usize)
        ensures
            r == self@.max_pattern_len,
    {
        self.max_pattern_len
    }

    /// The node at the end of the path spelled by `path`, following edges
    /// from the root; none for the empty path or a path the tree lacks.
    pub fn node_by_path(&self, path: &str) -> (r: Option<NodeId>)
        requires
            self@.wf(),
        ensures
            r == self@.lookup(path@),
    {
        let chars = chars_of(path);
        let n = chars.len();
        if n == 0 {
            return None;
        }
        let ghost v = self@;
        let ghost s = path@;
        let mut current: usize = 0;
        let mut idx: usize = 0;
        while idx < n
            invariant
                v == self@,
                v.wf(),
                s == chars@,
                s == path@,
                n == s.len(),
                idx <= n,
                v.valid(current as int),
                v.paths[current as int] == s.take(idx as int),
            decreases n - idx,
        {
            let c = chars[idx];
            proof {
                assert(self.nodes@[current as int]@ == v.nodes[current as int]);
            }
            match self.nodes[current].follow_link(c) {
                Some(nid) => {
                    proof {
                        lemma_edge_path(v, current as int, c);
                        assert(s.take(idx + 1) =~= s.take(idx as int).push(c));
                    }
                    current = nid;
                },
                None => {
                    proof {
                        if v.has_path(s) {
                            let j = choose|j: int| v.valid(j) && #[trigger] v.paths[j] == s;
                            lemma_prefix_node(v, j, idx + 1);
                            let q = choose|q: int| v.valid(q) && #[trigger] v.paths[q] == s.take(idx + 1);
                            assert(q != 0) by {
                                if q == 0 {
                                    assert(v.paths[0].len() == 0);
                                }
                            }
                            lemma_parent(v, q);
                            let par = choose|par: int|
                                v.valid(par) && #[trigger] v.paths[par] == v.paths[q].drop_last() && v.edge(par, v.paths[q].last(), q)
                                    && has_label(v.nodes[par].links, v.paths[q].last());
                            assert(v.paths[par] =~= s.take(idx as int));
                            lemma_unique_path(v, par, current as int);
                            assert(v.paths[q].last() == c);
                            assert(has_label(v.nodes[current as int].links, c));
                        }
                    }
                    return None;
                },
            }
            idx += 1;
        }
        proof {
            assert(s.take(n as int) =~= s);
            let j = choose|j: int| v.valid(j) && #[trigger] v.paths[j] == s;
            lemma_unique_path(v, j, current as int);
        }
        Some(current)
    }
}

} // verus!
