//! The trie compiled from a dictionary: a forest with one root per distinct
//! first character, held as an arena of nodes.
use vstd::prelude::*;

use crate::matching::{
    is_match, lemma_longest_flat, lemma_shortest_first, lemma_shortest_none, longest_upto, probe,
};
use crate::text::to_chars;
use crate::MatchType;

verus! {

/// The character sequences of the strings of `ws`.
pub open spec fn views(ws: Seq<String>) -> Seq<Seq<char>> {
    ws.map_values(|s: String| s@)
}

/// The dictionary that a list of strings stands for: each of its non-empty
/// strings.
pub open spec fn dict_of(ws: Seq<Seq<char>>) -> Set<Seq<char>> {
    Set::new(|w: Seq<char>| w.len() > 0 && ws.contains(w))
}

/// No two entries share a key.
pub open spec fn keys_unique(es: Seq<(char, usize)>) -> bool {
    forall|a: int, b: int|
        0 <= a < es.len() && 0 <= b < es.len() && a != b ==> #[trigger] es[a].0 != #[trigger] es[b].0
}

/// The entry of `es` whose key is `c`, if any.
fn find_child(es: &Vec<(char, usize)>, c: char) -> (r: Option<usize>)
    ensures
        r is None ==> forall|k: int| 0 <= k < es@.len() ==> (#[trigger] es@[k]).0 != c,
        r is Some ==> es@.contains((c, r->0)),
{
    let mut k: usize = 0;
    while k < es.len()
        invariant
            k <= es.len(),
            forall|m: int| 0 <= m < k ==> (#[trigger] es@[m]).0 != c,
        decreases es.len() - k,
    {
        if es[k].0 == c {
            assert(es@[k as int] == (c, es@[k as int].1));
            return Some(es[k].1);
        }
        k = k + 1;
    }
    None
}

/// One character on the path of some dictionary word.
struct TrieNode {
    word: char,
    /// The path down to this node is a whole dictionary word.
    is_end: bool,
    /// (next character, node index), keys unique.
    children: Vec<(char, usize)>,
}

/// A compiled dictionary. Its view is the set of (non-empty) dictionary words.
pub struct SensitiveWordMap {
    roots: Vec<(char, usize)>,
    nodes: Vec<TrieNode>,
    /// The characters spelled from a root down to each node.
    paths: Ghost<Seq<Seq<char>>>,
    /// The parent of each node that is not a root.
    parents: Ghost<Seq<int>>,
    words: Ghost<Set<Seq<char>>>,
}

impl View for SensitiveWordMap {
    type V = Set<Seq<char>>;

    closed spec fn view(&self) -> Set<Seq<char>> {
        self.words@
    }
}

impl SensitiveWordMap {
    spec fn has_node(&self, p: Seq<char>) -> bool {
        exists|i: int| 0 <= i < self.nodes.len() && self.paths@[i] == p
    }

    spec fn node_wf(&self, i: int) -> bool {
        let n = self.nodes@[i];
        let p = self.paths@[i];
        &&& p.len() >= 1
        &&& n.word == p.last()
        &&& n.is_end == self.words@.contains(p)
        &&& keys_unique(n.children@)
        &&& forall|k: int|
            0 <= k < n.children@.len() ==> (#[trigger] n.children@[k]).1 < self.nodes.len()
                && self.paths@[n.children@[k].1 as int] == p.push(n.children@[k].0)
        &&& p.len() == 1 ==> self.roots@.contains((n.word, i as usize))
        &&& p.len() > 1 ==> {
            &&& 0 <= self.parents@[i] < self.nodes.len()
            &&& self.paths@[self.parents@[i]] == p.drop_last()
            &&& self.nodes@[self.parents@[i]].children@.contains((n.word, i as usize))
        }
    }

    /// The arena is a trie of exactly the words of the view.
    pub closed spec fn wf(&self) -> bool {
        &&& self.paths@.len() == self.nodes.len()
        &&& self.parents@.len() == self.nodes.len()
        &&& keys_unique(self.roots@)
        &&& forall|k: int|
            0 <= k < self.roots@.len() ==> (#[trigger] self.roots@[k]).1 < self.nodes.len()
                && self.paths@[self.roots@[k].1 as int] == seq![self.roots@[k].0]
        &&& forall|i: int| 0 <= i < self.nodes.len() ==> #[trigger] self.node_wf(i)
        &&& forall|i: int, j: int|
            0 <= i < self.nodes.len() && 0 <= j < self.nodes.len() && i != j
                ==> #[trigger] self.paths@[i] != #[trigger] self.paths@[j]
        &&& forall|w: Seq<char>| #[trigger] self.words@.contains(w) ==> w.len() > 0
        &&& forall|w: Seq<char>, k: int|
            self.words@.contains(w) && 1 <= k <= w.len() ==> #[trigger] self.has_node(
                w.subrange(0, k),
            )
    }

    proof fn lemma_has_node_grows(&self, other: &Self)
        requires
            self.paths@.len() == self.nodes.len(),
            other.paths@.len() == other.nodes.len(),
            self.nodes.len() <= other.nodes.len(),
            forall|i: int| 0 <= i < self.nodes.len() ==> other.paths@[i] == self.paths@[i],
        ensures
            forall|p: Seq<char>| #[trigger] self.has_node(p) ==> other.has_node(p),
    {
        assert forall|p: Seq<char>| #[trigger] self.has_node(p) implies other.has_node(p) by {
            let i = choose|i: int| 0 <= i < self.nodes.len() && self.paths@[i] == p;
            assert(other.paths@[i] == p);
        }
    }

    /// A node without a child for `c` begins no word along `c`.
    proof fn lemma_no_child(&self, i: int, c: char)
        requires
            self.wf(),
            0 <= i < self.nodes.len(),
            forall|k: int|
                0 <= k < self.nodes@[i].children@.len() ==> (#[trigger] self.nodes@[i].children@[k]).0
                    != c,
        ensures
            forall|w: Seq<char>|
                #[trigger] self.words@.contains(w) && w.len() > self.paths@[i].len() ==> w.subrange(
                    0,
                    self.paths@[i].len() + 1 as int,
                ) != self.paths@[i].push(c),
    {
        let p = self.paths@[i];
        assert forall|w: Seq<char>| #[trigger]
            self.words@.contains(w) && w.len() > p.len() implies w.subrange(0, p.len() + 1 as int)
            != p.push(c) by {
            if w.subrange(0, p.len() + 1 as int) == p.push(c) {
                let q = w.subrange(0, p.len() + 1 as int);
                assert(self.node_wf(i));
                assert(self.has_node(q));
                let j = choose|j: int| 0 <= j < self.nodes.len() && self.paths@[j] == q;
                assert(self.node_wf(j));
                assert(q.drop_last() =~= p);
                let pj = self.parents@[j];
                assert(self.paths@[pj] == self.paths@[i]);
                assert(pj == i);
                assert(self.nodes@[j].word == c);
                let es = self.nodes@[i].children@;
                let k = choose|k: int| 0 <= k < es.len() && es[k] == (c, j as usize);
                assert(es[k].0 == c);
            }
        }
    }

    /// Without a root for `c`, no word begins with `c`.
    proof fn lemma_no_root(&self, c: char)
        requires
            self.wf(),
            forall|k: int| 0 <= k < self.roots@.len() ==> (#[trigger] self.roots@[k]).0 != c,
        ensures
            forall|w: Seq<char>| #[trigger] self.words@.contains(w) ==> w[0] != c,
    {
        assert forall|w: Seq<char>| #[trigger] self.words@.contains(w) implies w[0] != c by {
            if w[0] == c {
                let q = w.subrange(0, 1);
                assert(self.has_node(q));
                let j = choose|j: int| 0 <= j < self.nodes.len() && self.paths@[j] == q;
                assert(self.node_wf(j));
                assert(q =~= seq![c]);
                let rs = self.roots@;
                let k = choose|k: int| 0 <= k < rs.len() && rs[k] == (c, j as usize);
                assert(rs[k].0 == c);
            }
        }
    }

    /// Appends a node for `paths[parent] + c` as a child of `parent`.
    fn add_child(&mut self, parent: usize, c: char) -> (j: usize)
        requires
            old(self).wf(),
            parent < old(self).nodes.len(),
            forall|k: int|
                0 <= k < old(self).nodes@[parent as int].children@.len()
                    ==> (#[trigger] old(self).nodes@[parent as int].children@[k]).0 != c,
        ensures
            final(self).wf(),
            final(self)@ == old(self)@,
            j == old(self).nodes.len(),
            final(self).paths@ == old(self).paths@.push(old(self).paths@[parent as int].push(c)),
    {
        let ghost before = *self;
        let ghost p = self.paths@[parent as int];
        let ghost q = p.push(c);
        proof {
            self.lemma_no_child(parent as int, c);
            assert(self.node_wf(parent as int));
            assert(!self.words@.contains(q)) by {
                if self.words@.contains(q) {
                    assert(q.subrange(0, p.len() + 1 as int) =~= q);
                }
            }
        }
        let j = self.nodes.len();
        self.nodes.push(TrieNode { word: c, is_end: false, children: Vec::new() });
        self.paths = Ghost(self.paths@.push(q));
        self.parents = Ghost(self.parents@.push(parent as int));
        self.nodes[parent].children.push((c, j));
        proof {
            let n = before.nodes.len() as int;
            assert(self.nodes.len() == n + 1);
            assert forall|i: int| 0 <= i < n implies self.paths@[i] != q by {
                if before.paths@[i] == q {
                    assert(before.node_wf(i));
                    assert(q.drop_last() =~= p);
                    let pi = before.parents@[i];
                    assert(before.paths@[pi] == p);
                    assert(pi == parent as int);
                    let es = before.nodes@[parent as int].children@;
                    let k = choose|k: int| 0 <= k < es.len() && es[k] == (c, i as usize);
                    assert(es[k].0 == c);
                }
            }
            assert forall|i: int| 0 <= i < self.nodes.len() implies #[trigger] self.node_wf(i) by {
                if i < n {
                    assert(before.node_wf(i));
                    assert(self.paths@[i] == before.paths@[i]);
                    assert(self.nodes@[i].word == before.nodes@[i].word);
                    assert(self.nodes@[i].is_end == before.nodes@[i].is_end);
                    if i == parent as int {
                        let es = self.nodes@[i].children@;
                        assert(es == before.nodes@[i].children@.push((c, j)));
                        assert forall|k: int| 0 <= k < es.len() implies (#[trigger] es[k]).1
                            < self.nodes.len() && self.paths@[es[k].1 as int] == self.paths@[i].push(
                            es[k].0,
                        ) by {
                            if k < es.len() - 1 {
                                assert(es[k] == before.nodes@[i].children@[k]);
                            }
                        }
                    } else {
                        assert(self.nodes@[i].children@ == before.nodes@[i].children@);
                    }
                    if self.paths@[i].len() > 1 {
                        let pi = before.parents@[i];
                        let old_es = before.nodes@[pi].children@;
                        let e = (before.nodes@[i].word, i as usize);
                        assert(old_es.contains(e));
                        let kk = choose|kk: int| 0 <= kk < old_es.len() && old_es[kk] == e;
                        assert(self.parents@[i] == pi);
                        if pi == parent as int {
                            assert(self.nodes@[pi].children@ == old_es.push((c, j)));
                            assert(self.nodes@[pi].children@[kk] == e);
                        } else {
                            assert(self.nodes@[pi].children@ == old_es);
                        }
                    }
                } else {
                    assert(i == n);
                    assert(q.drop_last() =~= p);
                    let es = self.nodes@[parent as int].children@;
                    assert(es[es.len() - 1] == (c, j));
                }
            }
            before.lemma_has_node_grows(self);
            assert forall|v: Seq<char>, k: int|
                self.words@.contains(v) && 1 <= k <= v.len() implies #[trigger] self.has_node(
                v.subrange(0, k),
            ) by {
                assert(before.has_node(v.subrange(0, k)));
            }
        }
        j
    }

    /// Appends a root node for the one-character path `c`.
    fn add_root(&mut self, c: char) -> (j: usize)
        requires
            old(self).wf(),
            forall|k: int| 0 <= k < old(self).roots@.len() ==> (#[trigger] old(self).roots@[k]).0 != c,
        ensures
            final(self).wf(),
            final(self)@ == old(self)@,
            j == old(self).nodes.len(),
            final(self).paths@ == old(self).paths@.push(seq![c]),
    {
        let ghost before = *self;
        let ghost q = seq![c];
        proof {
            self.lemma_no_root(c);
            assert(!self.words@.contains(q)) by {
                if self.words@.contains(q) {
                    assert(q[0] == c);
                }
            }
        }
        let j = self.nodes.len();
        self.nodes.push(TrieNode { word: c, is_end: false, children: Vec::new() });
        self.paths = Ghost(self.paths@.push(q));
        self.parents = Ghost(self.parents@.push(-1));
        self.roots.push((c, j));
        proof {
            let n = before.nodes.len() as int;
            assert(self.nodes.len() == n + 1);
            assert forall|i: int| 0 <= i < n implies self.paths@[i] != q by {
                if before.paths@[i] == q {
                    assert(before.node_wf(i));
                    let rs = before.roots@;
                    let k = choose|k: int| 0 <= k < rs.len() && rs[k] == (c, i as usize);
                    assert(rs[k].0 == c);
                }
            }
            assert forall|k: int| 0 <= k < self.roots@.len() implies (#[trigger] self.roots@[k]).1
                < self.nodes.len() && self.paths@[self.roots@[k].1 as int] == seq![self.roots@[k].0] by {
                if k < self.roots@.len() - 1 {
                    assert(self.roots@[k] == before.roots@[k]);
                }
            }
            assert forall|i: int| 0 <= i < self.nodes.len() implies #[trigger] self.node_wf(i) by {
                if i < n {
                    assert(before.node_wf(i));
                    assert(self.nodes@[i] == before.nodes@[i]);
                    assert(self.paths@[i] == before.paths@[i]);
                    if self.paths@[i].len() == 1 {
                        let e = (before.nodes@[i].word, i as usize);
                        let rs = before.roots@;
                        let kk = choose|kk: int| 0 <= kk < rs.len() && rs[kk] == e;
                        assert(self.roots@[kk] == e);
                    } else {
                        let pi = before.parents@[i];
                        assert(self.nodes@[pi] == before.nodes@[pi]);
                    }
                } else {
                    assert(self.roots@[self.roots@.len() - 1] == (c, j));
                }
            }
            before.lemma_has_node_grows(self);
            assert forall|v: Seq<char>, k: int|
                self.words@.contains(v) && 1 <= k <= v.len() implies #[trigger] self.has_node(
                v.subrange(0, k),
            ) by {
                assert(before.has_node(v.subrange(0, k)));
            }
        }
        j
    }

    /// Makes the path of `node`, which is `w`, a word.
    fn mark_end(&mut self, node: usize, Ghost(w): Ghost<Seq<char>>)
        requires
            old(self).wf(),
            node < old(self).nodes.len(),
            old(self).paths@[node as int] == w,
            forall|k: int| 1 <= k <= w.len() ==> #[trigger] old(self).has_node(w.subrange(0, k)),
        ensures
            final(self).wf(),
            final(self)@ == old(self)@.insert(w),
    {
        let ghost before = *self;
        self.nodes[node].is_end = true;
        self.words = Ghost(self.words@.insert(w));
        proof {
            assert(before.node_wf(node as int));
            assert forall|i: int| 0 <= i < self.nodes.len() implies #[trigger] self.node_wf(i) by {
                assert(before.node_wf(i));
                assert(self.nodes@[i].children@ == before.nodes@[i].children@);
                assert(self.nodes@[i].word == before.nodes@[i].word);
                if i != node as int {
                    assert(self.paths@[i] != w);
                    assert(self.nodes@[i].is_end == before.nodes@[i].is_end);
                }
                if self.paths@[i].len() > 1 {
                    let pi = self.parents@[i];
                    assert(self.nodes@[pi].children@ == before.nodes@[pi].children@);
                }
            }
            assert forall|v: Seq<char>, k: int|
                self.words@.contains(v) && 1 <= k <= v.len() implies #[trigger] self.has_node(
                v.subrange(0, k),
            ) by {
                assert(before.has_node(v.subrange(0, k)));
                let i = choose|i: int|
                    0 <= i < before.nodes.len() && before.paths@[i] == v.subrange(0, k);
                assert(self.paths@[i] == v.subrange(0, k));
            }
        }
    }

    /// Marks the path `chars[..pos]`, held by `node`, and extends it by the
    /// rest of `chars`, creating the nodes that are missing.
    fn recursive_build_map(&mut self, node: usize, chars: &Vec<char>, pos: usize)
        requires
            old(self).wf(),
            node < old(self).nodes.len(),
            1 <= pos <= chars.len(),
            old(self).paths@[node as int] == chars@.subrange(0, pos as int),
            forall|k: int| 1 <= k <= pos ==> #[trigger] old(self).has_node(chars@.subrange(0, k)),
        ensures
            final(self).wf(),
            final(self)@ == old(self)@.insert(chars@),
        decreases chars.len() - pos,
    {
        if pos == chars.len() {
            assert(chars@.subrange(0, pos as int) =~= chars@);
            self.mark_end(node, Ghost(chars@));
        } else {
            let c = chars[pos];
            let ghost before = *self;
            proof {
                assert(self.node_wf(node as int));
                assert(chars@.subrange(0, pos + 1) =~= chars@.subrange(0, pos as int).push(c));
            }
            let j = match find_child(&self.nodes[node].children, c) {
                Some(j) => {
                    proof {
                        let es = self.nodes@[node as int].children@;
                        let k = choose|k: int| 0 <= k < es.len() && es[k] == (c, j);
                        assert(es[k].1 == j);
                    }
                    j
                },
                None => self.add_child(node, c),
            };
            proof {
                before.lemma_has_node_grows(self);
                assert(self.paths@[j as int] == chars@.subrange(0, pos + 1));
                assert forall|k: int| 1 <= k <= pos + 1 implies #[trigger] self.has_node(
                    chars@.subrange(0, k),
                ) by {
                    if k <= pos {
                        assert(before.has_node(chars@.subrange(0, k)));
                    }
                }
            }
            self.recursive_build_map(j, chars, pos + 1);
        }
    }

    /// Adds `key` to the dictionary, unless it is empty.
    fn insert_word(&mut self, key: &String)
        requires
            old(self).wf(),
        ensures
            final(self).wf(),
            final(self)@ == if key@.len() > 0 {
                old(self)@.insert(key@)
            } else {
                old(self)@
            },
    {
        let chars = to_chars(key.as_str());
        if chars.len() > 0 {
            let c = chars[0];
            let ghost before = *self;
            let j = match find_child(&self.roots, c) {
                Some(j) => {
                    proof {
                        let rs = self.roots@;
                        let k = choose|k: int| 0 <= k < rs.len() && rs[k] == (c, j);
                        assert(rs[k].1 == j);
                    }
                    j
                },
                None => self.add_root(c),
            };
            proof {
                before.lemma_has_node_grows(self);
                assert(chars@.subrange(0, 1) =~= seq![c]);
                assert(self.paths@[j as int] == chars@.subrange(0, 1));
                assert forall|k: int| 1 <= k <= 1 implies #[trigger] self.has_node(
                    chars@.subrange(0, k),
                ) by {
                    assert(k == 1);
                }
            }
            self.recursive_build_map(j, &chars, 1);
        }
    }

    /// The empty dictionary.
    pub fn new() -> (r: Self)
        ensures
            r.wf(),
            r@ == Set::<Seq<char>>::empty(),
    {
        SensitiveWordMap {
            roots: Vec::new(),
            nodes: Vec::new(),
            paths: Ghost(Seq::empty()),
            parents: Ghost(Seq::empty()),
            words: Ghost(Set::empty()),
        }
    }
}

/// Compiles the dictionary `set` into a trie.
pub fn build_sensitive_word_map(set: Vec<String>) -> (r: SensitiveWordMap)
    ensures
        r.wf(),
        r@ == dict_of(views(set@)),
{
    let mut map = SensitiveWordMap::new();
    let mut i: usize = 0;
    while i < set.len()
        invariant
            i <= set.len(),
            map.wf(),
            map@ == dict_of(views(set@.subrange(0, i as int))),
        decreases set.len() - i,
    {
        let ghost before = map@;
        map.insert_word(&set[i]);
        proof {
            let w = set@[i as int]@;
            let a = views(set@.subrange(0, i as int));
            let b = views(set@.subrange(0, i + 1));
            assert(b =~= a.push(w));
            assert forall|v: Seq<char>| #[trigger] map@.contains(v) <==> dict_of(b).contains(v) by {
                if v == w {
                    assert(b[b.len() - 1] == w);
                } else if a.contains(v) {
                    let k = choose|k: int| 0 <= k < a.len() && a[k] == v;
                    assert(b[k] == v);
                } else if b.contains(v) {
                    let k = choose|k: int| 0 <= k < b.len() && b[k] == v;
                    assert(k < a.len());
                    assert(a[k] == v);
                }
            }
            assert(map@ =~= dict_of(b));
        }
        i = i + 1;
    }
    proof {
        assert(set@.subrange(0, set.len() as int) =~= set@);
    }
    map
}

/// Along the path of `node`, which spells `txt[begin..i]`, no longer word
/// than `i - begin` characters matches at `begin` when the trie has no
/// continuation for `txt[i]`.
proof fn lemma_no_extension(map: &SensitiveWordMap, node: int, txt: Seq<char>, begin: int, i: int)
    requires
        map.wf(),
        0 <= node < map.nodes.len(),
        0 <= begin < i <= txt.len(),
        map.paths@[node] == txt.subrange(begin, i),
        i < txt.len() ==> forall|k: int|
            0 <= k < map.nodes@[node].children@.len() ==> (#[trigger] map.nodes@[node].children@[k]).0
                != txt[i],
    ensures
        forall|l: int| l > i - begin ==> !#[trigger] is_match(map@, txt, begin, l),
{
    if i < txt.len() {
        let p = map.paths@[node];
        map.lemma_no_child(node, txt[i]);
        assert forall|l: int| l > i - begin implies !#[trigger] is_match(map@, txt, begin, l) by {
            if is_match(map@, txt, begin, l) {
                let w = txt.subrange(begin, begin + l);
                assert(map.words@.contains(w));
                assert(w.subrange(0, p.len() + 1 as int) =~= p.push(txt[i]));
            }
        }
    }
}

/// Continues a probe that started at `begin` and has reached `node`, whose
/// path spells `txt[begin..i]`; `last` is the length confirmed so far.
fn recursive_find_map(
    map: &SensitiveWordMap,
    node: usize,
    txt: &Vec<char>,
    begin: usize,
    i: usize,
    last: usize,
    match_type: &MatchType,
) -> (r: usize)
    requires
        map.wf(),
        node < map.nodes.len(),
        begin < i <= txt.len(),
        map.paths@[node as int] == txt@.subrange(begin as int, i as int),
        *match_type is MinMatchType ==> last == 0 && forall|l: int|
            1 <= l <= i - begin ==> !#[trigger] is_match(map@, txt@, begin as int, l),
        *match_type is MaxMatchType ==> last == longest_upto(map@, txt@, begin as int, i - begin),
    ensures
        r == probe(map@, txt@, begin as int, *match_type),
    decreases txt.len() - i,
{
    let ghost d = map@;
    let ghost t = txt@;
    let ghost b = begin as int;
    if i < txt.len() {
        let c = txt[i];
        match find_child(&map.nodes[node].children, c) {
            Some(j) => {
                let len = i + 1 - begin;
                proof {
                    assert(map.node_wf(node as int));
                    let es = map.nodes@[node as int].children@;
                    let k = choose|k: int| 0 <= k < es.len() && es[k] == (c, j);
                    assert(es[k].1 == j);
                    assert(map.paths@[j as int] =~= t.subrange(b, i + 1));
                    assert(map.node_wf(j as int));
                    assert(map.nodes@[j as int].is_end == is_match(d, t, b, len as int));
                }
                if map.nodes[j].is_end {
                    match match_type {
                        MatchType::MinMatchType => {
                            proof {
                                lemma_shortest_first(d, t, b, 1, len as int);
                            }
                            return len;
                        },
                        MatchType::MaxMatchType => {
                            return recursive_find_map(map, j, txt, begin, i + 1, len, match_type);
                        },
                    }
                }
                recursive_find_map(map, j, txt, begin, i + 1, last, match_type)
            },
            None => {
                proof {
                    lemma_no_extension(map, node as int, t, b, i as int);
                    if *match_type is MinMatchType {
                        lemma_shortest_none(d, t, b, 1);
                    } else {
                        lemma_longest_flat(d, t, b, i - b, t.len() - b);
                    }
                }
                last
            },
        }
    } else {
        proof {
            lemma_no_extension(map, node as int, t, b, i as int);
            if *match_type is MinMatchType {
                lemma_shortest_none(d, t, b, 1);
            } else {
                lemma_longest_flat(d, t, b, i - b, t.len() - b);
            }
        }
        last
    }
}

/// Length of the dictionary word that starts at `begin_index` in `txt`, the
/// shortest or the longest as `match_type` says, or 0 where none starts there.
pub fn check_sensitive_word(
    map: &SensitiveWordMap,
    txt: &Vec<char>,
    begin_index: usize,
    match_type: &MatchType,
) -> (r: usize)
    requires
        map.wf(),
    ensures
        r == probe(map@, txt@, begin_index as int, *match_type),
{
    let ghost d = map@;
    let ghost t = txt@;
    let ghost b = begin_index as int;
    if begin_index >= txt.len() {
        return 0;
    }
    let c = txt[begin_index];
    match find_child(&map.roots, c) {
        None => {
            proof {
                map.lemma_no_root(c);
                assert forall|l: int| !#[trigger] is_match(d, t, b, l) by {
                    if is_match(d, t, b, l) {
                        assert(t.subrange(b, b + l)[0] == c);
                    }
                }
                lemma_shortest_none(d, t, b, 1);
                lemma_longest_flat(d, t, b, 0, t.len() - b);
            }
            0
        },
        Some(j) => {
            proof {
                let rs = map.roots@;
                let k = choose|k: int| 0 <= k < rs.len() && rs[k] == (c, j);
                assert(rs[k].1 == j);
                assert(map.paths@[j as int] =~= t.subrange(b, b + 1));
                assert(map.node_wf(j as int));
                assert(map.nodes@[j as int].is_end == is_match(d, t, b, 1));
            }
            if map.nodes[j].is_end {
                match match_type {
                    MatchType::MinMatchType => {
                        proof {
                            lemma_shortest_first(d, t, b, 1, 1);
                        }
                        return 1;
                    },
                    MatchType::MaxMatchType => {
                        return recursive_find_map(map, j, txt, begin_index, begin_index + 1, 1, match_type);
                    },
                }
            }
            assert(longest_upto(d, t, b, 1) == 0) by {
                assert(longest_upto(d, t, b, 0) == 0);
            }
            recursive_find_map(map, j, txt, begin_index, begin_index + 1, 0, match_type)
        },
    }
}

} // verus!
