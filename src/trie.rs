//! The pattern segment trie: an index of rule paths whose segments are
//! literal strings or globs, answering whether some rule path matches a
//! concrete segment sequence.
use vstd::prelude::*;

use core::cmp::Ordering;

use crate::error::ConfigurationError;
use crate::glob::{glob_accepts, glob_is_valid, SegmentGlob, MAX_GLOB_BYTES};
use vstd::utf8::encode_utf8;
use crate::order::{compare_keys, key_lt, lemma_key_lt_irreflexive, lemma_key_lt_transitive};
use crate::pattern::{
    has_char, is_glob, path_matches, rules_match, segment_matches, views_of, Segments, WILDCARD,
};

verus! {

/// A pattern is acceptable as a rule segment: a literal, or a valid glob of
/// at most `MAX_GLOB_BYTES` bytes.
pub open spec fn pattern_is_valid(p: Seq<char>) -> bool {
    is_glob(p) ==> encode_utf8(p).len() <= MAX_GLOB_BYTES && glob_is_valid(p)
}

/// Every segment pattern of `key` is acceptable.
pub open spec fn key_is_valid(key: Segments) -> bool {
    forall|i: int| 0 <= i < key.len() ==> pattern_is_valid(#[trigger] key[i])
}

/// `p` is the first pattern of `key` that is not acceptable.
pub open spec fn first_invalid_pattern(key: Segments, p: Seq<char>) -> bool {
    exists|i: int|
        0 <= i < key.len() && key[i] == p && !pattern_is_valid(p) && forall|k: int|
            0 <= k < i ==> pattern_is_valid(#[trigger] key[k])
}

/// The literal keys are in strictly increasing order.
pub open spec fn keys_sorted(v: Seq<(String, usize)>) -> bool {
    forall|i: int, j: int| 0 <= i < j < v.len() ==> key_lt(v[i].0@, v[j].0@)
}

/// No two glob children are compiled from the same pattern.
pub open spec fn globs_distinct(v: Seq<(SegmentGlob, usize)>) -> bool {
    forall|i: int, j: int| 0 <= i < j < v.len() ==> v[i].0@ != v[j].0@
}

/// One node of the trie: its children, keyed by a literal segment or by a
/// compiled glob, and whether a rule path ends here. Children are indices
/// into the trie's node arena.
pub struct TrieNode {
    literal_children: Vec<(String, usize)>,
    glob_children: Vec<(SegmentGlob, usize)>,
    terminal: bool,
}

impl TrieNode {
    /// A node with no children, where no rule path ends.
    pub fn new() -> (r: TrieNode)
        ensures
            r.is_empty(),
    {
        TrieNode { literal_children: Vec::new(), glob_children: Vec::new(), terminal: false }
    }

    pub closed spec fn is_empty(self) -> bool {
        &&& self.literal_children@.len() == 0
        &&& self.glob_children@.len() == 0
        &&& !self.terminal
    }

    /// An edge leads from this node to node `m`.
    pub closed spec fn has_edge(self, m: int) -> bool {
        ||| exists|j: int|
            0 <= j < self.literal_children@.len() && #[trigger] self.literal_children@[j].1 == m
        ||| exists|j: int|
            0 <= j < self.glob_children@.len() && #[trigger] self.glob_children@[j].1 == m
    }
}

/// The literal edge `j` of node `n` leads to a later node whose path extends
/// that of `n` by the (literal) key.
spec fn literal_edge_ok(
    nodes: Seq<TrieNode>,
    paths: Seq<Segments>,
    n: int,
    j: int,
) -> bool {
    let (key, c) = nodes[n].literal_children@[j];
    &&& n < c < nodes.len()
    &&& paths[c as int] == paths[n].push(key@)
    &&& !is_glob(key@)
}

/// The glob edge `j` of node `n` leads to a later node whose path extends that
/// of `n` by the (valid glob) pattern.
spec fn glob_edge_ok(nodes: Seq<TrieNode>, paths: Seq<Segments>, n: int, j: int) -> bool {
    let (g, c) = nodes[n].glob_children@[j];
    &&& n < c < nodes.len()
    &&& paths[c as int] == paths[n].push(g@)
    &&& is_glob(g@)
    &&& pattern_is_valid(g@)
}

/// The shape of the arena: a root with the empty path, edges that lead to
/// later nodes and extend paths by their pattern, sorted literal keys, and a
/// parent for every other node.
spec fn arena_wf(nodes: Seq<TrieNode>, paths: Seq<Segments>, parents: Seq<usize>) -> bool {
    &&& nodes.len() >= 1
    &&& paths.len() == nodes.len()
    &&& parents.len() == nodes.len()
    &&& paths[0] == Seq::<Seq<char>>::empty()
    &&& forall|n: int, j: int|
        0 <= n < nodes.len() && 0 <= j < nodes[n].literal_children@.len() ==> #[trigger] literal_edge_ok(
            nodes,
            paths,
            n,
            j,
        )
    &&& forall|n: int, j: int|
        0 <= n < nodes.len() && 0 <= j < nodes[n].glob_children@.len() ==> #[trigger] glob_edge_ok(
            nodes,
            paths,
            n,
            j,
        )
    &&& forall|n: int| 0 <= n < nodes.len() ==> keys_sorted(#[trigger] nodes[n].literal_children@)
    &&& forall|n: int| 0 <= n < nodes.len() ==> globs_distinct(#[trigger] nodes[n].glob_children@)
    &&& forall|m: int|
        0 < m < nodes.len() ==> #[trigger] parents[m] < m && nodes[parents[m] as int].has_edge(m)
}

/// A trie of rule paths, stored as an arena of nodes whose root is node 0.
pub struct Trie {
    nodes: Vec<TrieNode>,
    /// The patterns on the way from the root to each node.
    paths: Ghost<Seq<Segments>>,
    /// For each node but the root, a node with an edge to it.
    parents: Ghost<Seq<usize>>,
}

impl Trie {
    pub closed spec fn wf(&self) -> bool {
        arena_wf(self.nodes@, self.paths@, self.parents@)
    }

    /// The rule paths that have been inserted.
    pub closed spec fn rules(&self) -> Set<Segments> {
        Set::new(
            |p: Segments|
                exists|m: int|
                    0 <= m < self.nodes@.len() && #[trigger] self.nodes@[m].terminal
                        && self.paths@[m] == p,
        )
    }

    /// An empty trie: no rule path.
    pub fn new() -> (r: Trie)
        ensures
            r.wf(),
            r.rules() == Set::<Segments>::empty(),
    {
        let mut nodes = Vec::new();
        nodes.push(TrieNode::new());
        let ghost paths = seq![Seq::<Seq<char>>::empty()];
        let ghost parents = seq![0usize];
        let r = Trie { nodes, paths: Ghost(paths), parents: Ghost(parents) };
        assert(r.rules() =~= Set::<Segments>::empty());
        r
    }

    /// Two tries whose old nodes keep their paths and terminal flags, and whose
    /// new nodes are not terminal, hold the same rule paths.
    proof fn lemma_rules_kept(before: &Trie, after: &Trie)
        requires
            before.nodes@.len() <= after.nodes@.len(),
            after.paths@.len() == after.nodes@.len(),
            forall|m: int|
                0 <= m < before.nodes@.len() ==> #[trigger] after.nodes@[m].terminal
                    == before.nodes@[m].terminal && after.paths@[m] == before.paths@[m],
            forall|m: int|
                before.nodes@.len() <= m < after.nodes@.len() ==> !#[trigger] after.nodes@[m].terminal,
        ensures
            after.rules() == before.rules(),
    {
        assert forall|p: Segments| after.rules().contains(p) implies before.rules().contains(p) by {
            let m = choose|m: int|
                0 <= m < after.nodes@.len() && #[trigger] after.nodes@[m].terminal && after.paths@[m]
                    == p;
            assert(before.nodes@[m].terminal);
        }
        assert forall|p: Segments| before.rules().contains(p) implies after.rules().contains(p) by {
            let m = choose|m: int|
                0 <= m < before.nodes@.len() && #[trigger] before.nodes@[m].terminal
                    && before.paths@[m] == p;
            assert(after.nodes@[m].terminal);
        }
        assert(after.rules() =~= before.rules());
    }

    /// Node `n` has a literal child under `segment`.
    spec fn has_literal(self, n: int, segment: Seq<char>) -> bool {
        exists|j: int|
            0 <= j < self.nodes@[n].literal_children@.len()
                && #[trigger] self.nodes@[n].literal_children@[j].0@ == segment
    }

    /// Node `n` has a glob child compiled from `pattern`.
    spec fn has_glob(self, n: int, pattern: Seq<char>) -> bool {
        exists|j: int|
            0 <= j < self.nodes@[n].glob_children@.len() && #[trigger] self.nodes@[n].glob_children@[j].0@
                == pattern
    }

    /// `after` is this trie with one more node, `c`, empty; the other nodes but
    /// `n` are unchanged, and `n` keeps its terminal flag.
    spec fn adds_child(self, after: Trie, n: int, c: int) -> bool {
        &&& after.nodes@.len() == self.nodes@.len() + 1
        &&& c == self.nodes@.len()
        &&& after.nodes@[c].is_empty()
        &&& forall|m: int| 0 <= m < self.nodes@.len() && m != n ==> #[trigger] after.nodes@[m] == self.nodes@[m]
        &&& after.nodes@[n].terminal == self.nodes@[n].terminal
    }

    /// `after` and `c` are what looking up or adding the literal child of node
    /// `n` under `segment` gives: the existing child, the trie unchanged; or a
    /// new node, whose key is inserted among the literal keys of `n`, and
    /// nothing else changed.
    spec fn literal_step(self, after: Trie, n: int, segment: Seq<char>, c: int) -> bool {
        let old_keys = self.nodes@[n].literal_children@;
        let new_keys = after.nodes@[n].literal_children@;
        if self.has_literal(n, segment) {
            &&& after == self
            &&& forall|j: int|
                0 <= j < old_keys.len() && #[trigger] old_keys[j].0@ == segment ==> old_keys[j].1 == c
        } else {
            &&& self.adds_child(after, n, c)
            &&& after.nodes@[n].glob_children == self.nodes@[n].glob_children
            &&& exists|pos: int|
                0 <= pos <= old_keys.len() && new_keys == old_keys.insert(pos, new_keys[pos])
                    && #[trigger] new_keys[pos].0@ == segment && new_keys[pos].1 == c
        }
    }

    /// `after` and `r` are what looking up or adding the glob child of node
    /// `n` under `pattern` gives: the existing child, the trie unchanged; or a
    /// new node with a glob compiled from `pattern` pushed onto the glob
    /// children of `n`, nothing else changed; or an error, the trie unchanged.
    spec fn glob_step(
        self,
        after: Trie,
        n: int,
        pattern: Seq<char>,
        r: Result<usize, ConfigurationError>,
    ) -> bool {
        let old_globs = self.nodes@[n].glob_children@;
        let new_globs = after.nodes@[n].glob_children@;
        if self.has_glob(n, pattern) {
            &&& after == self
            &&& forall|j: int|
                0 <= j < old_globs.len() && #[trigger] old_globs[j].0@ == pattern ==> r == Ok::<
                    usize,
                    ConfigurationError,
                >(old_globs[j].1)
        } else {
            match r {
                Ok(c) => {
                    &&& self.adds_child(after, n, c as int)
                    &&& after.nodes@[n].literal_children == self.nodes@[n].literal_children
                    &&& new_globs == old_globs.push(new_globs[old_globs.len() as int])
                    &&& new_globs[old_globs.len() as int].0@ == pattern
                    &&& new_globs[old_globs.len() as int].1 == c
                },
                Err(_) => after == self,
            }
        }
    }

    /// The child of node `n` under the literal `segment`, created if missing.
    fn get_or_insert_literal(&mut self, n: usize, segment: &str) -> (c: usize)
        requires
            old(self).wf(),
            n < old(self).nodes@.len(),
            !is_glob(segment@),
        ensures
            final(self).wf(),
            final(self).rules() == old(self).rules(),
            c < final(self).nodes@.len(),
            final(self).paths@[c as int] == old(self).paths@[n as int].push(segment@),
            old(self).literal_step(*final(self), n as int, segment@, c as int),
    {
        let ghost before = *self;
        proof {
            lemma_key_lt_irreflexive(segment@);
            assert(keys_sorted(self.nodes@[n as int].literal_children@));
        }
        match find_literal(&self.nodes[n].literal_children, segment) {
            Ok(pos) => {
                proof {
                    let keys = self.nodes@[n as int].literal_children@;
                    assert(literal_edge_ok(self.nodes@, self.paths@, n as int, pos as int));
                    assert(keys[pos as int].0@ == segment@);
                    assert(self.has_literal(n as int, segment@));
                    assert forall|j: int|
                        0 <= j < keys.len() && #[trigger] keys[j].0@ == segment@ implies keys[j].1
                        == keys[pos as int].1 by {
                        if j < pos {
                            assert(key_lt(keys[j].0@, keys[pos as int].0@));
                        } else if j > pos {
                            assert(key_lt(keys[pos as int].0@, keys[j].0@));
                        }
                    }
                }
                self.nodes[n].literal_children[pos].1
            },
            Err(pos) => {
                proof {
                    let keys = self.nodes@[n as int].literal_children@;
                    assert forall|j: int| 0 <= j < keys.len() implies #[trigger] keys[j].0@ != segment@ by {
                        if j < pos {
                            assert(key_lt(keys[j].0@, segment@));
                        } else {
                            assert(key_lt(segment@, keys[j].0@));
                        }
                    }
                    assert(!self.has_literal(n as int, segment@));
                }
                let c = self.nodes.len();
                self.nodes.push(TrieNode::new());
                let ghost path = self.paths@[n as int].push(segment@);
                self.paths = Ghost(self.paths@.push(path));
                self.parents = Ghost(self.parents@.push(n));
                let key = segment.to_owned();
                self.nodes[n].literal_children.insert(pos, (key, c));
                proof {
                    let nodes = self.nodes@;
                    let paths = self.paths@;
                    let parents = self.parents@;
                    assert(forall|m: int|
                        0 <= m < before.nodes@.len() && m != n ==> nodes[m] == before.nodes@[m]);
                    assert(nodes[c as int].is_empty());
                    assert forall|a: int, j: int|
                        0 <= a < nodes.len() && 0 <= j
                            < nodes[a].literal_children@.len() implies #[trigger] literal_edge_ok(
                        nodes,
                        paths,
                        a,
                        j,
                    ) by {
                        if a == n {
                            if j < pos {
                                assert(literal_edge_ok(before.nodes@, before.paths@, a, j));
                            } else if j > pos {
                                assert(literal_edge_ok(before.nodes@, before.paths@, a, j - 1));
                            }
                        } else {
                            assert(literal_edge_ok(before.nodes@, before.paths@, a, j));
                        }
                    }
                    assert forall|a: int, j: int|
                        0 <= a < nodes.len() && 0 <= j
                            < nodes[a].glob_children@.len() implies #[trigger] glob_edge_ok(
                        nodes,
                        paths,
                        a,
                        j,
                    ) by {
                        assert(glob_edge_ok(before.nodes@, before.paths@, a, j));
                    }
                    assert forall|a: int| 0 <= a < nodes.len() implies globs_distinct(
                        #[trigger] nodes[a].glob_children@,
                    ) by {
                        if a < before.nodes@.len() {
                            assert(globs_distinct(before.nodes@[a].glob_children@));
                        }
                    }
                    assert forall|a: int| 0 <= a < nodes.len() implies keys_sorted(
                        #[trigger] nodes[a].literal_children@,
                    ) by {
                        if a == n {
                            let v = nodes[a].literal_children@;
                            let w = before.nodes@[a].literal_children@;
                            assert forall|i: int, j: int| 0 <= i < j < v.len() implies key_lt(
                                v[i].0@,
                                v[j].0@,
                            ) by {
                                if i < pos && j > pos {
                                    lemma_key_lt_transitive(w[i].0@, segment@, w[j - 1].0@);
                                }
                            }
                        }
                    }
                    assert forall|m: int| 0 < m < nodes.len() implies #[trigger] parents[m] < m
                        && nodes[parents[m] as int].has_edge(m) by {
                        if m == c {
                            assert(nodes[n as int].literal_children@[pos as int].1 == c);
                        } else if parents[m] == n {
                            lemma_insert_literal_keeps_edge(
                                before.nodes@[n as int],
                                nodes[n as int],
                                pos as int,
                                (key, c),
                                m,
                            );
                        }
                    }
                    Self::lemma_rules_kept(&before, self);
                    let new_keys = nodes[n as int].literal_children@;
                    assert(new_keys[pos as int].0@ == segment@);
                    assert(new_keys == before.nodes@[n as int].literal_children@.insert(
                        pos as int,
                        new_keys[pos as int],
                    ));
                }
                c
            },
        }
    }

    /// The child of node `n` under the glob `pattern`, compiled and created if
    /// missing; an error when `pattern` is not an acceptable glob.
    fn get_or_insert_glob(&mut self, n: usize, pattern: &str) -> (r: Result<usize, ConfigurationError>)
        requires
            old(self).wf(),
            n < old(self).nodes@.len(),
            is_glob(pattern@),
        ensures
            final(self).wf(),
            final(self).rules() == old(self).rules(),
            r is Ok <==> pattern_is_valid(pattern@),
            r matches Ok(c) ==> c < final(self).nodes@.len() && final(self).paths@[c as int]
                == old(self).paths@[n as int].push(pattern@),
            r matches Err(ConfigurationError::InvalidGlob(p)) ==> p@ == pattern@,
            old(self).glob_step(*final(self), n as int, pattern@, r),
    {
        let ghost before = *self;
        if let Some(k) = find_glob(&self.nodes[n], pattern) {
            proof {
                let globs = self.nodes@[n as int].glob_children@;
                assert(glob_edge_ok(self.nodes@, self.paths@, n as int, k as int));
                assert(globs[k as int].0@ == pattern@);
                assert(self.has_glob(n as int, pattern@));
                assert(globs_distinct(globs));
                assert forall|j: int| 0 <= j < globs.len() && #[trigger] globs[j].0@ == pattern@ implies j
                    == k by {
                    if j < k {
                        assert(globs[j].0@ != globs[k as int].0@);
                    } else if j > k {
                        assert(globs[k as int].0@ != globs[j].0@);
                    }
                }
            }
            return Ok(self.nodes[n].glob_children[k].1);
        }
        if pattern.as_bytes().len() > MAX_GLOB_BYTES {
            return Err(ConfigurationError::InvalidGlob(pattern.to_owned()));
        }
        match SegmentGlob::compile(pattern) {
            Err(_) => Err(ConfigurationError::InvalidGlob(pattern.to_owned())),
            Ok(glob) => {
                let c = self.nodes.len();
                self.nodes.push(TrieNode::new());
                let ghost path = self.paths@[n as int].push(pattern@);
                self.paths = Ghost(self.paths@.push(path));
                self.parents = Ghost(self.parents@.push(n));
                let ghost g = glob;
                self.nodes[n].glob_children.push((glob, c));
                proof {
                    let nodes = self.nodes@;
                    let paths = self.paths@;
                    let parents = self.parents@;
                    assert(forall|m: int|
                        0 <= m < before.nodes@.len() && m != n ==> nodes[m] == before.nodes@[m]);
                    assert(nodes[c as int].is_empty());
                    assert forall|a: int, j: int|
                        0 <= a < nodes.len() && 0 <= j
                            < nodes[a].literal_children@.len() implies #[trigger] literal_edge_ok(
                        nodes,
                        paths,
                        a,
                        j,
                    ) by {
                        assert(literal_edge_ok(before.nodes@, before.paths@, a, j));
                    }
                    assert forall|a: int, j: int|
                        0 <= a < nodes.len() && 0 <= j
                            < nodes[a].glob_children@.len() implies #[trigger] glob_edge_ok(
                        nodes,
                        paths,
                        a,
                        j,
                    ) by {
                        if a != n || j < before.nodes@[n as int].glob_children@.len() {
                            assert(glob_edge_ok(before.nodes@, before.paths@, a, j));
                        } else {
                            assert(nodes[a].glob_children@[j].0@ == pattern@);
                        }
                    }
                    assert forall|a: int| 0 <= a < nodes.len() implies globs_distinct(
                        #[trigger] nodes[a].glob_children@,
                    ) by {
                        if a < before.nodes@.len() {
                            let w = before.nodes@[a].glob_children@;
                            assert(globs_distinct(w));
                            if a == n {
                                let v = nodes[a].glob_children@;
                                assert forall|i: int, j: int| 0 <= i < j < v.len() implies v[i].0@
                                    != v[j].0@ by {
                                    if j == w.len() {
                                        assert(v[i] == w[i]);
                                        assert(w[i].0@ != pattern@);
                                    } else {
                                        assert(v[i] == w[i] && v[j] == w[j]);
                                    }
                                }
                            }
                        }
                    }
                    assert forall|a: int| 0 <= a < nodes.len() implies keys_sorted(
                        #[trigger] nodes[a].literal_children@,
                    ) by {
                        if a < before.nodes@.len() {
                            assert(keys_sorted(before.nodes@[a].literal_children@));
                        }
                    }
                    assert forall|m: int| 0 < m < nodes.len() implies #[trigger] parents[m] < m
                        && nodes[parents[m] as int].has_edge(m) by {
                        if m == c {
                            let last = before.nodes@[n as int].glob_children@.len() as int;
                            assert(nodes[n as int].glob_children@[last].1 == c);
                        } else if parents[m] == n {
                            lemma_push_glob_keeps_edge(
                                before.nodes@[n as int],
                                nodes[n as int],
                                (g, c),
                                m,
                            );
                        }
                    }
                    Self::lemma_rules_kept(&before, self);
                    let last = before.nodes@[n as int].glob_children@.len() as int;
                    assert(nodes[n as int].glob_children@ == before.nodes@[n as int].glob_children@.push(
                        nodes[n as int].glob_children@[last],
                    ));
                }
                Ok(c)
            },
        }
    }

    /// Adds the rule path `segments`. Fails, leaving the rule paths as they
    /// were, when a segment pattern holds the wildcard but is not a valid
    /// glob; the error carries the first such pattern.
    pub fn insert(&mut self, segments: &[&str]) -> (r: Result<(), ConfigurationError>)
        requires
            old(self).wf(),
        ensures
            final(self).wf(),
            r is Ok <==> key_is_valid(views_of(segments@)),
            r is Ok ==> final(self).rules() == old(self).rules().insert(views_of(segments@)),
            r is Err ==> final(self).rules() == old(self).rules(),
            r matches Err(ConfigurationError::InvalidGlob(p)) ==> first_invalid_pattern(
                views_of(segments@),
                p@,
            ),
    {
        let ghost key = views_of(segments@);
        let mut node: usize = 0;
        let mut i: usize = 0;
        proof {
            assert(key.take(0) =~= Seq::<Seq<char>>::empty());
        }
        while i < segments.len()
            invariant
                self.wf(),
                key == views_of(segments@),
                i <= segments@.len(),
                node < self.nodes@.len(),
                self.paths@[node as int] == key.take(i as int),
                self.rules() == old(self).rules(),
                forall|k: int| 0 <= k < i ==> pattern_is_valid(#[trigger] key[k]),
            decreases segments@.len() - i,
        {
            match self.insert_segment(node, segments[i]) {
                Ok(c) => {
                    proof {
                        assert(key.take(i + 1) =~= key.take(i as int).push(key[i as int]));
                    }
                    node = c;
                },
                Err(e) => {
                    proof {
                        assert(e matches ConfigurationError::InvalidGlob(p) ==> key[i as int]
                            == p@);
                    }
                    return Err(e);
                },
            }
            i = i + 1;
        }
        let ghost before = *self;
        self.nodes[node].terminal = true;
        proof {
            assert(key.take(i as int) =~= key);
            let nodes = self.nodes@;
            assert(forall|m: int| 0 <= m < nodes.len() && m != node ==> nodes[m] == before.nodes@[m]);
            assert(nodes[node as int].literal_children == before.nodes@[node as int].literal_children);
            assert(nodes[node as int].glob_children == before.nodes@[node as int].glob_children);
            assert forall|a: int, j: int|
                0 <= a < nodes.len() && 0 <= j < nodes[a].literal_children@.len() implies #[trigger] literal_edge_ok(
                nodes,
                self.paths@,
                a,
                j,
            ) by {
                assert(literal_edge_ok(before.nodes@, before.paths@, a, j));
            }
            assert forall|a: int, j: int|
                0 <= a < nodes.len() && 0 <= j < nodes[a].glob_children@.len() implies #[trigger] glob_edge_ok(
                nodes,
                self.paths@,
                a,
                j,
            ) by {
                assert(glob_edge_ok(before.nodes@, before.paths@, a, j));
            }
            assert forall|m: int| 0 < m < nodes.len() implies #[trigger] self.parents@[m] < m
                && nodes[self.parents@[m] as int].has_edge(m) by {
                let q = self.parents@[m] as int;
                assert(before.nodes@[q].has_edge(m));
                if q == node {
                    if exists|j: int|
                        0 <= j < nodes[q].literal_children@.len() && #[trigger] before.nodes@[q].literal_children@[j].1 == m {
                        let j = choose|j: int|
                            0 <= j < nodes[q].literal_children@.len() && #[trigger] before.nodes@[q].literal_children@[j].1 == m;
                        assert(nodes[q].literal_children@[j].1 == m);
                    } else {
                        let j = choose|j: int|
                            0 <= j < nodes[q].glob_children@.len() && #[trigger] before.nodes@[q].glob_children@[j].1 == m;
                        assert(nodes[q].glob_children@[j].1 == m);
                    }
                }
            }
            assert forall|p: Segments| self.rules().contains(p) <==> before.rules().insert(key).contains(p) by {
                if self.rules().contains(p) && p != key {
                    let m = choose|m: int|
                        0 <= m < nodes.len() && #[trigger] nodes[m].terminal && self.paths@[m] == p;
                    assert(m != node);
                    assert(before.nodes@[m].terminal);
                }
                if before.rules().contains(p) {
                    let m = choose|m: int|
                        0 <= m < before.nodes@.len() && #[trigger] before.nodes@[m].terminal
                            && before.paths@[m] == p;
                    assert(nodes[m].terminal);
                }
                if p == key {
                    assert(nodes[node as int].terminal);
                }
            }
            assert(self.rules() =~= before.rules().insert(key));
        }
        Ok(())
    }

    /// Node `m` lies at depth `i`, and its path matches the first `i`
    /// segments of `key`.
    spec fn reached(&self, m: int, key: Segments, i: int) -> bool {
        &&& 0 <= m < self.nodes@.len()
        &&& self.paths@[m].len() == i
        &&& path_matches(self.paths@[m], key.take(i))
    }

    /// The parent of a reached node is reached one level up.
    proof fn lemma_parent_reached(&self, m: int, key: Segments, i: int)
        requires
            self.wf(),
            0 < m < self.nodes@.len(),
            0 <= i < key.len(),
            self.reached(m, key, i + 1),
        ensures
            self.reached(self.parents@[m] as int, key, i),
    {
        let q = self.parents@[m] as int;
        let node = self.nodes@[q];
        assert(node.has_edge(m));
        if exists|j: int| 0 <= j < node.literal_children@.len() && #[trigger] node.literal_children@[j].1 == m {
            let j = choose|j: int|
                0 <= j < node.literal_children@.len() && #[trigger] node.literal_children@[j].1 == m;
            assert(literal_edge_ok(self.nodes@, self.paths@, q, j));
            lemma_path_matches_pop(self.paths@[q], node.literal_children@[j].0@, key, i);
        } else {
            let j = choose|j: int|
                0 <= j < node.glob_children@.len() && #[trigger] node.glob_children@[j].1 == m;
            assert(glob_edge_ok(self.nodes@, self.paths@, q, j));
            lemma_path_matches_pop(self.paths@[q], node.glob_children@[j].0@, key, i);
        }
    }

    /// Appends to `next` the children of node `n` whose pattern matches
    /// `segment`, the segment `i` of `key`.
    fn expand(&self, n: usize, segment: &str, next: &mut Vec<usize>, Ghost(key): Ghost<Segments>, Ghost(i): Ghost<int>)
        requires
            self.wf(),
            0 <= i < key.len(),
            key[i] == segment@,
            self.reached(n as int, key, i),
        ensures
            final(next)@.len() >= old(next)@.len(),
            forall|k: int| 0 <= k < old(next)@.len() ==> final(next)@[k] == old(next)@[k],
            forall|k: int|
                old(next)@.len() <= k < final(next)@.len() ==> self.reached(
                    #[trigger] final(next)@[k] as int,
                    key,
                    i + 1,
                ),
            forall|m: usize|
                0 < m < self.nodes@.len() && self.parents@[m as int] == n && self.reached(
                    m as int,
                    key,
                    i + 1,
                ) ==> #[trigger] final(next)@.contains(m),
    {
        let ghost start = next@;
        let node = &self.nodes[n];
        let found = find_literal(&node.literal_children, segment);
        if let Ok(pos) = found {
            proof {
                assert(literal_edge_ok(self.nodes@, self.paths@, n as int, pos as int));
                lemma_path_matches_push(self.paths@[n as int], segment@, key, i);
            }
            next.push(node.literal_children[pos].1);
        }
        let ghost after_literal = next@;
        let mut g: usize = 0;
        while g < node.glob_children.len()
            invariant
                self.wf(),
                0 <= i < key.len(),
                key[i] == segment@,
                self.reached(n as int, key, i),
                node == self.nodes@[n as int],
                g <= node.glob_children@.len(),
                next@.len() >= after_literal.len(),
                after_literal.len() >= start.len(),
                forall|k: int| 0 <= k < start.len() ==> after_literal[k] == start[k],
                forall|k: int|
                    start.len() <= k < after_literal.len() ==> self.reached(
                        #[trigger] after_literal[k] as int,
                        key,
                        i + 1,
                    ),
                forall|k: int| 0 <= k < after_literal.len() ==> next@[k] == after_literal[k],
                forall|k: int|
                    after_literal.len() <= k < next@.len() ==> self.reached(
                        #[trigger] next@[k] as int,
                        key,
                        i + 1,
                    ),
                forall|j: int|
                    0 <= j < g && self.reached(node.glob_children@[j].1 as int, key, i + 1)
                        ==> #[trigger] next@.contains(node.glob_children@[j].1),
            decreases node.glob_children@.len() - g,
        {
            let ghost before = next@;
            if node.glob_children[g].0.is_match(segment) {
                proof {
                    assert(glob_edge_ok(self.nodes@, self.paths@, n as int, g as int));
                    lemma_path_matches_push(self.paths@[n as int], node.glob_children@[g as int].0@, key, i);
                }
                next.push(node.glob_children[g].1);
                proof {
                    assert(next@[before.len() as int] == node.glob_children@[g as int].1);
                    assert forall|j: int|
                        0 <= j < g + 1 && self.reached(node.glob_children@[j].1 as int, key, i + 1)
                            implies #[trigger] next@.contains(node.glob_children@[j].1) by {
                        if j < g {
                            assert(before.contains(node.glob_children@[j].1));
                            let k = choose|k: int| 0 <= k < before.len() && #[trigger] before[k] == node.glob_children@[j].1;
                            assert(next@[k] == before[k]);
                        }
                    }
                }
            } else {
                proof {
                    assert(glob_edge_ok(self.nodes@, self.paths@, n as int, g as int));
                    let c = node.glob_children@[g as int].1 as int;
                    if self.reached(c, key, i + 1) {
                        lemma_path_matches_pop(self.paths@[n as int], node.glob_children@[g as int].0@, key, i);
                    }
                }
            }
            g = g + 1;
        }
        proof {
            assert forall|k: int| start.len() <= k < next@.len() implies self.reached(
                #[trigger] next@[k] as int,
                key,
                i + 1,
            ) by {
                if k < after_literal.len() {
                    assert(next@[k] == after_literal[k]);
                }
            }
            assert forall|m: usize|
                0 < m < self.nodes@.len() && self.parents@[m as int] == n && self.reached(
                    m as int,
                    key,
                    i + 1,
                ) implies #[trigger] next@.contains(m) by {
                assert(node.has_edge(m as int));
                if exists|j: int| 0 <= j < node.literal_children@.len() && #[trigger] node.literal_children@[j].1 == m {
                    let j = choose|j: int|
                        0 <= j < node.literal_children@.len() && #[trigger] node.literal_children@[j].1 == m;
                    assert(literal_edge_ok(self.nodes@, self.paths@, n as int, j));
                    lemma_path_matches_pop(self.paths@[n as int], node.literal_children@[j].0@, key, i);
                    assert(keys_sorted(node.literal_children@));
                    lemma_key_lt_irreflexive(segment@);
                    match found {
                        Ok(pos) => {
                            if pos != j {
                                assert(key_lt(node.literal_children@[j].0@, node.literal_children@[pos as int].0@)
                                    || key_lt(node.literal_children@[pos as int].0@, node.literal_children@[j].0@));
                            }
                            assert(after_literal[start.len() as int] == m);
                            assert(next@[start.len() as int] == m);
                        },
                        Err(pos) => {
                            assert(j < pos || j >= pos);
                        },
                    }
                } else {
                    let j = choose|j: int|
                        0 <= j < node.glob_children@.len() && #[trigger] node.glob_children@[j].1 == m;
                    assert(next@.contains(node.glob_children@[j].1));
                }
            }
        }
    }

    /// Whether some rule path matches `segments`: same length, and each
    /// pattern matching its segment. Explores every matching branch, one depth
    /// at a time, with a worklist of nodes.
    pub fn contains(&self, segments: &[&str]) -> (r: bool)
        requires
            self.wf(),
        ensures
            r == rules_match(self.rules(), views_of(segments@)),
    {
        let ghost key = views_of(segments@);
        let mut frontier: Vec<usize> = Vec::new();
        frontier.push(0);
        proof {
            assert(key.take(0) =~= Seq::<Seq<char>>::empty());
            assert(self.reached(0, key, 0));
            assert forall|m: usize| m < self.nodes@.len() && self.reached(m as int, key, 0) implies #[trigger] frontier@.contains(
                m,
            ) by {
                if m != 0 {
                    self.lemma_depth_positive(m as int);
                }
                assert(frontier@[0] == 0);
            }
        }
        let mut i: usize = 0;
        while i < segments.len()
            invariant
                self.wf(),
                key == views_of(segments@),
                i <= segments@.len(),
                forall|k: int| 0 <= k < frontier@.len() ==> self.reached(#[trigger] frontier@[k] as int, key, i as int),
                forall|m: usize|
                    m < self.nodes@.len() && self.reached(m as int, key, i as int) ==> #[trigger] frontier@.contains(
                        m,
                    ),
            decreases segments@.len() - i,
        {
            let segment = segments[i];
            let mut next: Vec<usize> = Vec::new();
            let mut j: usize = 0;
            while j < frontier.len()
                invariant
                    self.wf(),
                    key == views_of(segments@),
                    i < segments@.len(),
                    segment@ == key[i as int],
                    j <= frontier@.len(),
                    forall|k: int| 0 <= k < frontier@.len() ==> self.reached(#[trigger] frontier@[k] as int, key, i as int),
                    forall|k: int| 0 <= k < next@.len() ==> self.reached(#[trigger] next@[k] as int, key, i + 1),
                    forall|m: usize|
                        0 < m < self.nodes@.len() && self.reached(m as int, key, i + 1) && frontier@.take(j as int).contains(
                            self.parents@[m as int],
                        ) ==> #[trigger] next@.contains(m),
                decreases frontier@.len() - j,
            {
                let ghost before = next@;
                self.expand(frontier[j], segment, &mut next, Ghost(key), Ghost(i as int));
                proof {
                    assert forall|m: usize|
                        0 < m < self.nodes@.len() && self.reached(m as int, key, i + 1) && frontier@.take(j + 1).contains(
                            self.parents@[m as int],
                        ) implies #[trigger] next@.contains(m) by {
                        let q = self.parents@[m as int];
                        let k = choose|k: int| 0 <= k < j + 1 && #[trigger] frontier@.take(j + 1)[k] == q;
                        if k < j {
                            assert(frontier@.take(j as int)[k] == q);
                            assert(frontier@.take(j as int).contains(q));
                            assert(before.contains(m));
                            let w = choose|w: int| 0 <= w < before.len() && #[trigger] before[w] == m;
                            assert(next@[w] == m);
                        }
                    }
                }
                j = j + 1;
            }
            proof {
                assert forall|m: usize|
                    m < self.nodes@.len() && self.reached(m as int, key, i + 1) implies #[trigger] next@.contains(
                        m,
                    ) by {
                    if m == 0 {
                        assert(self.paths@[0].len() == 0);
                    }
                    self.lemma_parent_reached(m as int, key, i as int);
                    let q = self.parents@[m as int];
                    assert(frontier@.contains(q));
                    let k = choose|k: int| 0 <= k < frontier@.len() && #[trigger] frontier@[k] == q;
                    assert(frontier@.take(j as int) =~= frontier@);
                    assert(frontier@.take(j as int)[k] == q);
                }
            }
            frontier = next;
            i = i + 1;
        }
        proof {
            assert(key.take(i as int) =~= key);
        }
        let mut j: usize = 0;
        while j < frontier.len()
            invariant
                self.wf(),
                key == views_of(segments@),
                i == segments@.len(),
                key.take(i as int) == key,
                j <= frontier@.len(),
                forall|k: int| 0 <= k < frontier@.len() ==> self.reached(#[trigger] frontier@[k] as int, key, i as int),
                forall|m: usize|
                    m < self.nodes@.len() && self.reached(m as int, key, i as int) ==> #[trigger] frontier@.contains(
                        m,
                    ),
                forall|k: int| 0 <= k < j ==> !self.nodes@[#[trigger] frontier@[k] as int].terminal,
            decreases frontier@.len() - j,
        {
            if self.nodes[frontier[j]].terminal {
                proof {
                    let m = frontier@[j as int] as int;
                    assert(self.rules().contains(self.paths@[m]));
                }
                return true;
            }
            j = j + 1;
        }
        proof {
            if rules_match(self.rules(), key) {
                let p = choose|p: Segments| #[trigger] self.rules().contains(p) && path_matches(p, key);
                let m = choose|m: int|
                    0 <= m < self.nodes@.len() && #[trigger] self.nodes@[m].terminal && self.paths@[m] == p;
                assert(self.nodes@.len() == self.nodes.len());
                assert(self.reached((m as usize) as int, key, i as int));
                assert(frontier@.contains(m as usize));
                let k = choose|k: int| 0 <= k < frontier@.len() && #[trigger] frontier@[k] == m as usize;
                assert(!self.nodes@[frontier@[k] as int].terminal);
            }
        }
        false
    }

    /// Every node but the root lies below it.
    proof fn lemma_depth_positive(&self, m: int)
        requires
            self.wf(),
            0 <= m < self.nodes@.len(),
        ensures
            m > 0 ==> self.paths@[m].len() > 0,
    {
        if m > 0 {
            let q = self.parents@[m] as int;
            let node = self.nodes@[q];
            assert(node.has_edge(m));
            if exists|j: int| 0 <= j < node.literal_children@.len() && #[trigger] node.literal_children@[j].1 == m {
                let j = choose|j: int|
                    0 <= j < node.literal_children@.len() && #[trigger] node.literal_children@[j].1 == m;
                assert(literal_edge_ok(self.nodes@, self.paths@, q, j));
            } else {
                let j = choose|j: int|
                    0 <= j < node.glob_children@.len() && #[trigger] node.glob_children@[j].1 == m;
                assert(glob_edge_ok(self.nodes@, self.paths@, q, j));
            }
        }
    }

    /// The child of node `n` under `segment_pattern`, created if missing.
    fn insert_segment(&mut self, n: usize, segment_pattern: &str) -> (r: Result<
        usize,
        ConfigurationError,
    >)
        requires
            old(self).wf(),
            n < old(self).nodes@.len(),
        ensures
            final(self).wf(),
            final(self).rules() == old(self).rules(),
            r is Ok <==> pattern_is_valid(segment_pattern@),
            r matches Ok(c) ==> c < final(self).nodes@.len() && final(self).paths@[c as int]
                == old(self).paths@[n as int].push(segment_pattern@),
            r matches Err(ConfigurationError::InvalidGlob(p)) ==> p@ == segment_pattern@,
            if is_glob(segment_pattern@) {
                old(self).glob_step(*final(self), n as int, segment_pattern@, r)
            } else {
                r matches Ok(c) && old(self).literal_step(*final(self), n as int, segment_pattern@, c as int)
            },
    {
        if has_char(segment_pattern, WILDCARD) {
            self.get_or_insert_glob(n, segment_pattern)
        } else {
            Ok(self.get_or_insert_literal(n, segment_pattern))
        }
    }
}

/// The index of the glob child of `node` compiled from `pattern`, if any.
fn find_glob(node: &TrieNode, pattern: &str) -> (r: Option<usize>)
    ensures
        r matches Some(k) ==> k < node.glob_children@.len() && node.glob_children@[k as int].0@
            == pattern@,
        r is None ==> forall|k: int|
            0 <= k < node.glob_children@.len() ==> #[trigger] node.glob_children@[k].0@ != pattern@,
{
    let mut k: usize = 0;
    while k < node.glob_children.len()
        invariant
            k <= node.glob_children@.len(),
            forall|j: int| 0 <= j < k ==> #[trigger] node.glob_children@[j].0@ != pattern@,
        decreases node.glob_children@.len() - k,
    {
        match compare_keys(node.glob_children[k].0.pattern(), pattern) {
            Ordering::Equal => {
                return Some(k);
            },
            _ => {},
        }
        k = k + 1;
    }
    None
}

/// Inserting an edge into the literal children of a node keeps every edge it
/// had.
proof fn lemma_insert_literal_keeps_edge(
    before: TrieNode,
    after: TrieNode,
    pos: int,
    e: (String, usize),
    m: int,
)
    requires
        0 <= pos <= before.literal_children@.len(),
        after.literal_children@ == before.literal_children@.insert(pos, e),
        after.glob_children@ == before.glob_children@,
        before.has_edge(m),
    ensures
        after.has_edge(m),
{
    if exists|j: int|
        0 <= j < before.literal_children@.len() && #[trigger] before.literal_children@[j].1 == m {
        let j = choose|j: int|
            0 <= j < before.literal_children@.len() && #[trigger] before.literal_children@[j].1
                == m;
        if j < pos {
            assert(after.literal_children@[j].1 == m);
        } else {
            assert(after.literal_children@[j + 1].1 == m);
        }
    } else {
        let j = choose|j: int|
            0 <= j < before.glob_children@.len() && #[trigger] before.glob_children@[j].1 == m;
        assert(after.glob_children@[j].1 == m);
    }
}

/// Pushing an edge onto the glob children of a node keeps every edge it had.
proof fn lemma_push_glob_keeps_edge(before: TrieNode, after: TrieNode, e: (SegmentGlob, usize), m: int)
    requires
        after.literal_children@ == before.literal_children@,
        after.glob_children@ == before.glob_children@.push(e),
        before.has_edge(m),
    ensures
        after.has_edge(m),
{
    if exists|j: int|
        0 <= j < before.literal_children@.len() && #[trigger] before.literal_children@[j].1 == m {
        let j = choose|j: int|
            0 <= j < before.literal_children@.len() && #[trigger] before.literal_children@[j].1
                == m;
        assert(after.literal_children@[j].1 == m);
    } else {
        let j = choose|j: int|
            0 <= j < before.glob_children@.len() && #[trigger] before.glob_children@[j].1 == m;
        assert(after.glob_children@[j].1 == m);
    }
}

/// A path matching a prefix of `s` extends, by a pattern matching the next
/// segment, to a path matching the next prefix.
pub proof fn lemma_path_matches_push(p: Segments, x: Seq<char>, s: Segments, i: int)
    requires
        0 <= i < s.len(),
        path_matches(p, s.take(i)),
        segment_matches(x, s[i]),
    ensures
        path_matches(p.push(x), s.take(i + 1)),
{
    assert forall|k: int| 0 <= k < p.len() + 1 implies segment_matches(
        #[trigger] p.push(x)[k],
        s.take(i + 1)[k],
    ) by {
        if k < p.len() {
            assert(segment_matches(p[k], s.take(i)[k]));
        }
    }
}

/// The converse: a path matching a prefix of `s` is a matching path for the
/// shorter prefix, extended by a pattern matching the last segment.
pub proof fn lemma_path_matches_pop(p: Segments, x: Seq<char>, s: Segments, i: int)
    requires
        0 <= i < s.len(),
        path_matches(p.push(x), s.take(i + 1)),
    ensures
        path_matches(p, s.take(i)),
        segment_matches(x, s[i]),
{
    assert(segment_matches(p.push(x)[i], s.take(i + 1)[i]));
    assert forall|k: int| 0 <= k < p.len() implies segment_matches(#[trigger] p[k], s.take(i)[k]) by {
        assert(segment_matches(p.push(x)[k], s.take(i + 1)[k]));
    }
}

/// Looks `s` up among sorted literal keys: `Ok` with its index when present,
/// otherwise `Err` with the index at which it would keep the order.
pub fn find_literal(children: &Vec<(String, usize)>, s: &str) -> (r: Result<usize, usize>)
    requires
        keys_sorted(children@),
    ensures
        r matches Ok(pos) ==> pos < children@.len() && children@[pos as int].0@ == s@,
        r matches Err(pos) ==> {
            &&& pos <= children@.len()
            &&& forall|k: int| 0 <= k < pos ==> key_lt(children@[k].0@, s@)
            &&& forall|k: int| pos <= k < children@.len() ==> key_lt(s@, children@[k].0@)
        },
{
    let mut lo: usize = 0;
    let mut hi: usize = children.len();
    while lo < hi
        invariant
            keys_sorted(children@),
            lo <= hi <= children@.len(),
            forall|k: int| 0 <= k < lo ==> key_lt(children@[k].0@, s@),
            forall|k: int| hi <= k < children@.len() ==> key_lt(s@, children@[k].0@),
        decreases hi - lo,
    {
        let mid = lo + (hi - lo) / 2;
        match compare_keys(children[mid].0.as_str(), s) {
            Ordering::Equal => {
                return Ok(mid);
            },
            Ordering::Less => {
                proof {
                    assert forall|k: int| 0 <= k < mid + 1 implies key_lt(children@[k].0@, s@) by {
                        if k < mid {
                            lemma_key_lt_transitive(
                                children@[k].0@,
                                children@[mid as int].0@,
                                s@,
                            );
                        }
                    }
                }
                lo = mid + 1;
            },
            Ordering::Greater => {
                proof {
                    assert forall|k: int| mid <= k < children@.len() implies key_lt(
                        s@,
                        children@[k].0@,
                    ) by {
                        if k > mid {
                            lemma_key_lt_transitive(
                                s@,
                                children@[mid as int].0@,
                                children@[k].0@,
                            );
                        }
                    }
                }
                hi = mid;
            },
        }
    }
    Err(lo)
}

} // verus!
