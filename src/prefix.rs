//! A prefix tree (trie) from character strings to values.
//!
//! Nodes live in one vector, the root at index 0; edges live in another, each
//! a triple `(from, label, to)`. A key is looked up by following, for each of
//! its characters, the first edge out of the current node with that label.
use vstd::prelude::*;

verus! {

/// An edge `(from, label, to)` between two nodes of the arena.
pub type Edge = (usize, char, usize);

/// The node reached from node `n` by the first edge labelled `c`.
pub open spec fn step(edges: Seq<Edge>, n: int, c: char) -> Option<int>
    decreases edges.len(),
{
    if edges.len() == 0 {
        None
    } else if edges[0].0 == n && edges[0].1 == c {
        Some(edges[0].2 as int)
    } else {
        step(edges.drop_first(), n, c)
    }
}

/// The node reached from node `n` by following the characters of `key`.
pub open spec fn walk(edges: Seq<Edge>, n: int, key: Seq<char>) -> Option<int>
    decreases key.len(),
{
    if key.len() == 0 {
        Some(n)
    } else {
        match step(edges, n, key[0]) {
            Some(m) => walk(edges, m, key.drop_first()),
            None => None,
        }
    }
}

/// The characters that label some edge.
pub open spec fn edge_chars(edges: Seq<Edge>) -> Set<char> {
    Set::new(|c: char| exists|e: int| 0 <= e < edges.len() && (#[trigger] edges[e]).1 == c)
}

/// The characters that occur in some key of `m`.
pub open spec fn key_chars<T>(m: Map<Seq<char>, T>) -> Set<char> {
    Set::new(|c: char| exists|k: Seq<char>| #[trigger] m.contains_key(k) && k.contains(c))
}

/// The value that the last entry with key `k` carries, if any entry has it.
pub open spec fn last_value<T>(entries: Seq<(Seq<char>, T)>, k: Seq<char>) -> Option<T>
    decreases entries.len(),
{
    if entries.len() == 0 {
        None
    } else if entries.last().0 == k {
        Some(entries.last().1)
    } else {
        last_value(entries.drop_last(), k)
    }
}

/// The mapping that inserting `entries` in order leaves behind.
pub open spec fn entries_map<T>(entries: Seq<(Seq<char>, T)>) -> Map<Seq<char>, T> {
    Map::new(|k: Seq<char>| last_value(entries, k) is Some, |k: Seq<char>| last_value(entries, k)->0)
}

/// The keys of `entries` as character sequences.
pub open spec fn entries_view<T>(entries: Seq<(&str, T)>) -> Seq<(Seq<char>, T)> {
    entries.map_values(|p: (&str, T)| (p.0@, p.1))
}

struct PrefixNode<T> {
    value: Option<T>,
}

impl<T> PrefixNode<T> {
    fn root() -> (r: PrefixNode<T>)
        ensures
            r.value is None,
    {
        PrefixNode { value: None }
    }

    fn new(value: Option<T>) -> (r: PrefixNode<T>)
        ensures
            r.value == value,
    {
        PrefixNode { value }
    }
}

/// A mapping from strings to values, stored as a trie.
pub struct PrefixTree<T> {
    nodes: Vec<PrefixNode<T>>,
    edges: Vec<Edge>,
    /// The key that leads from the root to each node.
    paths: Ghost<Seq<Seq<char>>>,
}

impl<T> PrefixTree<T> {
    /// The value stored under `key`.
    pub closed spec fn get(&self, key: Seq<char>) -> Option<T> {
        match walk(self.edges@, 0, key) {
            Some(n) => if 0 <= n < self.nodes.len() {
                self.nodes@[n].value
            } else {
                None
            },
            None => None,
        }
    }

    /// Well-formedness of the arena alone.
    closed spec fn wf_arena(&self) -> bool {
        &&& self.nodes.len() >= 1
        &&& self.paths@.len() == self.nodes.len()
        &&& self.paths@[0] == Seq::<char>::empty()
        &&& forall|e: int|
            0 <= e < self.edges.len() ==> {
                &&& (#[trigger] self.edges@[e]).0 < self.nodes.len()
                &&& self.edges@[e].2 < self.nodes.len()
                &&& self.paths@[self.edges@[e].2 as int] == self.paths@[self.edges@[e].0 as int].push(
                    self.edges@[e].1,
                )
            }
    }

    /// The tree is well formed: its arena is, and its edges are labelled with
    /// exactly the characters of its keys.
    pub closed spec fn wf(&self) -> bool {
        &&& self.wf_arena()
        &&& edge_chars(self.edges@) == key_chars(self@)
    }
}

impl<T> View for PrefixTree<T> {
    type V = Map<Seq<char>, T>;

    closed spec fn view(&self) -> Map<Seq<char>, T> {
        Map::new(|k: Seq<char>| self.get(k) is Some, |k: Seq<char>| self.get(k)->0)
    }
}

proof fn lemma_step_edge(edges: Seq<Edge>, n: int, c: char)
    requires
        step(edges, n, c) is Some,
    ensures
        exists|e: int|
            0 <= e < edges.len() && edges[e].0 == n && edges[e].1 == c && edges[e].2 == step(
                edges,
                n,
                c,
            )->0,
    decreases edges.len(),
{
    if edges[0].0 == n && edges[0].1 == c {
        assert(edges[0].2 == step(edges, n, c)->0);
    } else {
        lemma_step_edge(edges.drop_first(), n, c);
        let e = choose|e: int|
            0 <= e < edges.drop_first().len() && edges.drop_first()[e].0 == n
                && edges.drop_first()[e].1 == c && edges.drop_first()[e].2 == step(
                edges.drop_first(),
                n,
                c,
            )->0;
        assert(edges[e + 1] == edges.drop_first()[e]);
    }
}

proof fn lemma_step_push(edges: Seq<Edge>, x: Edge, n: int, c: char)
    ensures
        step(edges.push(x), n, c) == (if step(edges, n, c) is Some {
            step(edges, n, c)
        } else if x.0 == n && x.1 == c {
            Some(x.2 as int)
        } else {
            None
        }),
    decreases edges.len(),
{
    assert(edges.push(x)[0] == (if edges.len() == 0 {
        x
    } else {
        edges[0]
    }));
    if edges.len() == 0 {
        assert(edges.push(x).drop_first() =~= Seq::<Edge>::empty());
        assert(step(edges.push(x).drop_first(), n, c) is None);
    } else {
        assert(edges.push(x).drop_first() =~= edges.drop_first().push(x));
        lemma_step_push(edges.drop_first(), x, n, c);
        if !(edges[0].0 == n && edges[0].1 == c) {
            assert(step(edges.push(x), n, c) == step(edges.drop_first().push(x), n, c));
        }
    }
}

proof fn lemma_walk_concat(edges: Seq<Edge>, n: int, k1: Seq<char>, k2: Seq<char>)
    ensures
        walk(edges, n, k1 + k2) == (match walk(edges, n, k1) {
            Some(m) => walk(edges, m, k2),
            None => None,
        }),
    decreases k1.len(),
{
    if k1.len() == 0 {
        assert(k1 + k2 =~= k2);
    } else {
        assert((k1 + k2)[0] == k1[0]);
        assert((k1 + k2).drop_first() =~= k1.drop_first() + k2);
        match step(edges, n, k1[0]) {
            Some(m) => lemma_walk_concat(edges, m, k1.drop_first(), k2),
            None => {},
        }
    }
}

impl<T> PrefixTree<T> {
    /// Following `key` from node `a` leads to the node whose path is the path
    /// of `a` followed by `key`.
    proof fn lemma_walk_path(&self, a: int, key: Seq<char>)
        requires
            self.wf_arena(),
            0 <= a < self.nodes.len(),
            walk(self.edges@, a, key) is Some,
        ensures
            0 <= walk(self.edges@, a, key)->0 < self.nodes.len(),
            self.paths@[walk(self.edges@, a, key)->0] == self.paths@[a] + key,
        decreases key.len(),
    {
        if key.len() == 0 {
            assert(self.paths@[a] + key =~= self.paths@[a]);
        } else {
            let m = step(self.edges@, a, key[0])->0;
            lemma_step_edge(self.edges@, a, key[0]);
            let e = choose|e: int|
                0 <= e < self.edges@.len() && self.edges@[e].0 == a && self.edges@[e].1 == key[0]
                    && self.edges@[e].2 == m;
            assert(self.edges@[e].0 < self.nodes.len());
            self.lemma_walk_path(m, key.drop_first());
            assert(self.paths@[a].push(key[0]) + key.drop_first() =~= self.paths@[a] + key);
        }
    }

    /// Every character of a key that leads somewhere labels an edge.
    proof fn lemma_walk_chars(&self, a: int, key: Seq<char>)
        requires
            walk(self.edges@, a, key) is Some,
        ensures
            forall|j: int| 0 <= j < key.len() ==> edge_chars(self.edges@).contains(#[trigger] key[j]),
        decreases key.len(),
    {
        if key.len() > 0 {
            let m = step(self.edges@, a, key[0])->0;
            lemma_step_edge(self.edges@, a, key[0]);
            self.lemma_walk_chars(m, key.drop_first());
            assert forall|j: int| 0 <= j < key.len() implies edge_chars(self.edges@).contains(
                #[trigger] key[j],
            ) by {
                if j > 0 {
                    assert(key[j] == key.drop_first()[j - 1]);
                }
            }
        }
    }
}

/// Pushing an edge out of `p` to a fresh node `l`, where `p` had no edge with
/// that label, keeps every walk of the old edges and adds only walks to `l`.
proof fn lemma_walk_push(edges: Seq<Edge>, x: Edge, l: int, a: int, key: Seq<char>)
    requires
        x.2 == l,
        x.0 < l,
        step(edges, x.0 as int, x.1) is None,
        forall|e: int| 0 <= e < edges.len() ==> (#[trigger] edges[e]).0 < l && edges[e].2 < l,
    ensures
        walk(edges, a, key) is Some ==> walk(edges.push(x), a, key) == walk(edges, a, key),
        walk(edges.push(x), a, key) is Some ==> walk(edges.push(x), a, key)->0 == l || walk(
            edges,
            a,
            key,
        ) == walk(edges.push(x), a, key),
    decreases key.len(),
{
    if key.len() > 0 {
        lemma_step_push(edges, x, a, key[0]);
        match step(edges, a, key[0]) {
            Some(m) => {
                lemma_walk_push(edges, x, l, m, key.drop_first());
            },
            None => {
                if x.0 == a && x.1 == key[0] && key.len() == 1 {
                    assert(walk(edges.push(x), l, key.drop_first()) == Some(l));
                }
                if x.0 == a && x.1 == key[0] && key.len() > 1 {
                    let rest = key.drop_first();
                    lemma_step_push(edges, x, l, rest[0]);
                    if step(edges, l, rest[0]) is Some {
                        lemma_step_edge(edges, l, rest[0]);
                    }
                    assert(step(edges.push(x), l, rest[0]) is None);
                    assert(walk(edges.push(x), l, rest) is None);
                }
            },
        }
    }
}

/// The characters of `s`, in order.
pub fn chars_of(s: &str) -> (r: Vec<char>)
    ensures
        r@ == s@,
{
    let mut out: Vec<char> = Vec::new();
    for c in it: s.chars()
        invariant
            it.seq() == s@,
            out@ == s@.take(it.index()),
    {
        out.push(c);
        assert(out@ =~= s@.take(it.index() + 1));
    }
    assert(out@ =~= s@);
    out
}

impl<T> PrefixTree<T> {
    /// An empty tree.
    pub fn new() -> (r: PrefixTree<T>)
        ensures
            r.wf(),
            r@ == Map::<Seq<char>, T>::empty(),
    {
        let mut nodes: Vec<PrefixNode<T>> = Vec::new();
        nodes.push(PrefixNode::root());
        let ghost paths = seq![Seq::<char>::empty()];
        let r = PrefixTree { nodes, edges: Vec::new(), paths: Ghost(paths) };
        assert(r@ =~= Map::<Seq<char>, T>::empty());
        assert(edge_chars(r.edges@) =~= key_chars(r@));
        r
    }

    /// The node reached from node `n` by its first edge labelled `c`.
    fn find_child(&self, n: usize, c: char) -> (r: Option<usize>)
        requires
            self.wf_arena(),
        ensures
            r matches Some(m) ==> step(self.edges@, n as int, c) == Some(m as int),
            r is None ==> step(self.edges@, n as int, c) is None,
    {
        let mut i: usize = 0;
        assert(self.edges@.skip(0) =~= self.edges@);
        while i < self.edges.len()
            invariant
                0 <= i <= self.edges.len(),
                step(self.edges@, n as int, c) == step(self.edges@.skip(i as int), n as int, c),
            decreases self.edges.len() - i,
        {
            let (from, label, to) = self.edges[i];
            assert(self.edges@.skip(i as int)[0] == self.edges@[i as int]);
            if from == n && label == c {
                return Some(to);
            }
            assert(self.edges@.skip(i as int).drop_first() =~= self.edges@.skip(i + 1));
            i = i + 1;
        }
        None
    }
}

impl<T> PrefixTree<T> {
    /// The node that `key` leads to, creating the missing nodes on the way.
    fn find_or_create(&mut self, key: &Vec<char>) -> (n: usize)
        requires
            old(self).wf_arena(),
        ensures
            final(self).wf_arena(),
            forall|k: Seq<char>| #[trigger] final(self).get(k) == old(self).get(k),
            n < final(self).nodes.len(),
            walk(final(self).edges@, 0, key@) == Some(n as int),
            old(self).edges@.len() <= final(self).edges@.len(),
            forall|e: int|
                0 <= e < old(self).edges@.len() ==> #[trigger] final(self).edges@[e]
                    == old(self).edges@[e],
            forall|c: char|
                #[trigger] edge_chars(final(self).edges@).contains(c) ==> edge_chars(
                    old(self).edges@,
                ).contains(c) || key@.contains(c),
    {
        let mut n: usize = 0;
        let mut i: usize = 0;
        assert(key@.take(0) =~= Seq::<char>::empty());
        while i < key.len()
            invariant
                self.wf_arena(),
                forall|k: Seq<char>| #[trigger] self.get(k) == old(self).get(k),
                0 <= i <= key.len(),
                n < self.nodes.len(),
                walk(self.edges@, 0, key@.take(i as int)) == Some(n as int),
                old(self).edges@.len() <= self.edges@.len(),
                forall|e: int|
                    0 <= e < old(self).edges@.len() ==> #[trigger] self.edges@[e]
                        == old(self).edges@[e],
                forall|c: char|
                    #[trigger] edge_chars(self.edges@).contains(c) ==> edge_chars(
                        old(self).edges@,
                    ).contains(c) || key@.contains(c),
            decreases key.len() - i,
        {
            let c = key[i];
            assert(key@.take(i + 1) =~= key@.take(i as int) + seq![c]);
            match self.find_child(n, c) {
                Some(m) => {
                    proof {
                        lemma_walk_concat(self.edges@, 0, key@.take(i as int), seq![c]);
                        assert(seq![c].drop_first() =~= Seq::<char>::empty());
                        lemma_step_edge(self.edges@, n as int, c);
                        assert(walk(self.edges@, m as int, seq![c].drop_first()) == Some(m as int));
                        assert(walk(self.edges@, n as int, seq![c]) == Some(m as int));
                    }
                    n = m;
                },
                None => {
                    let ghost pre = *self;
                    let l = self.nodes.len();
                    let x: Edge = (n, c, l);
                    self.nodes.push(PrefixNode::new(None));
                    self.edges.push(x);
                    let ghost paths = self.paths@.push(self.paths@[n as int].push(c));
                    self.paths = Ghost(paths);
                    proof {
                        assert forall|k: Seq<char>| #[trigger] self.get(k) == pre.get(k) by {
                            lemma_walk_push(pre.edges@, x, l as int, 0, k);
                            if walk(pre.edges@, 0, k) is Some {
                                pre.lemma_walk_path(0, k);
                            }
                        }
                        lemma_walk_push(pre.edges@, x, l as int, 0, key@.take(i as int));
                        lemma_walk_concat(self.edges@, 0, key@.take(i as int), seq![c]);
                        lemma_step_push(pre.edges@, x, n as int, c);
                        assert(seq![c].drop_first() =~= Seq::<char>::empty());
                        assert(walk(self.edges@, l as int, seq![c].drop_first()) == Some(l as int));
                        assert(walk(self.edges@, n as int, seq![c]) == Some(l as int));
                        assert forall|c2: char| #[trigger]
                            edge_chars(self.edges@).contains(c2) implies edge_chars(
                            old(self).edges@,
                        ).contains(c2) || key@.contains(c2) by {
                            let e = choose|e: int|
                                0 <= e < self.edges@.len() && (#[trigger] self.edges@[e]).1 == c2;
                            if e < pre.edges@.len() {
                                assert(pre.edges@[e] == self.edges@[e]);
                                assert(edge_chars(pre.edges@).contains(c2));
                            } else {
                                assert(key@[i as int] == c2);
                            }
                        }
                    }
                    n = l;
                },
            }
            i = i + 1;
        }
        assert(key@.take(key.len() as int) =~= key@);
        n
    }

    /// Stores `value` under `prefix`, replacing what was stored there.
    pub fn insert(&mut self, prefix: &str, value: T)
        requires
            old(self).wf(),
        ensures
            final(self).wf(),
            final(self)@ == old(self)@.insert(prefix@, value),
    {
        let key = chars_of(prefix);
        let ghost pre = *self;
        let n = self.find_or_create(&key);
        let ghost mid = *self;
        self.nodes.set(n, PrefixNode::new(Some(value)));
        proof {
            mid.lemma_walk_path(0, key@);
            assert(key@ =~= mid.paths@[0] + key@);
            assert(self.edges@ == mid.edges@);
            assert(self.nodes@ == mid.nodes@.update(n as int, PrefixNode { value: Some(value) }));
            assert forall|k: Seq<char>|
                #[trigger] self.get(k) == (if k == key@ {
                    Some(value)
                } else {
                    pre.get(k)
                }) by {
                assert(mid.get(k) == pre.get(k));
                if walk(mid.edges@, 0, k) is Some {
                    mid.lemma_walk_path(0, k);
                    assert(k =~= mid.paths@[0] + k);
                    if walk(mid.edges@, 0, k) == Some(n as int) {
                        assert(k == key@);
                    }
                }
            }
            assert(self@ =~= pre@.insert(prefix@, value));
            self.lemma_walk_chars(0, key@);
            assert forall|c: char| #[trigger]
                edge_chars(self.edges@).contains(c) <==> key_chars(self@).contains(c) by {
                if edge_chars(self.edges@).contains(c) {
                    if edge_chars(pre.edges@).contains(c) {
                        let k = choose|k: Seq<char>| #[trigger]
                            pre@.contains_key(k) && k.contains(c);
                        assert(self@.contains_key(k));
                    } else {
                        assert(self@.contains_key(key@));
                    }
                }
                if key_chars(self@).contains(c) {
                    let k = choose|k: Seq<char>| #[trigger] self@.contains_key(k) && k.contains(c);
                    if k == key@ {
                        let j = choose|j: int| 0 <= j < k.len() && k[j] == c;
                        assert(edge_chars(self.edges@).contains(key@[j]));
                    } else {
                        assert(pre@.contains_key(k));
                        assert(key_chars(pre@).contains(c));
                        let e = choose|e: int|
                            0 <= e < pre.edges@.len() && (#[trigger] pre.edges@[e]).1 == c;
                        assert(self.edges@[e] == pre.edges@[e]);
                    }
                }
            }
            assert(edge_chars(self.edges@) =~= key_chars(self@));
        }
    }
}

/// Whether `c` occurs in `v`.
pub(crate) fn contains_char(v: &Vec<char>, c: char) -> (r: bool)
    ensures
        r == v@.contains(c),
{
    let mut i: usize = 0;
    while i < v.len()
        invariant
            0 <= i <= v.len(),
            forall|j: int| 0 <= j < i ==> v@[j] != c,
        decreases v.len() - i,
    {
        if v[i] == c {
            return true;
        }
        i = i + 1;
    }
    false
}

impl<T> PrefixTree<T> {
    /// The value stored under exactly `prefix`. A key that only begins some
    /// stored key, and was not stored itself, has none.
    pub fn find(&self, prefix: &str) -> (r: Option<&T>)
        requires
            self.wf(),
        ensures
            r matches Some(v) ==> self@.contains_key(prefix@) && *v == self@[prefix@],
            r is None ==> !self@.contains_key(prefix@),
    {
        let key = chars_of(prefix);
        let mut n: usize = 0;
        let mut i: usize = 0;
        assert(key@.take(0) =~= Seq::<char>::empty());
        while i < key.len()
            invariant
                self.wf_arena(),
                key@ == prefix@,
                0 <= i <= key.len(),
                n < self.nodes.len(),
                walk(self.edges@, 0, key@.take(i as int)) == Some(n as int),
            decreases key.len() - i,
        {
            let c = key[i];
            assert(key@.take(i + 1) =~= key@.take(i as int) + seq![c]);
            proof {
                lemma_walk_concat(self.edges@, 0, key@.take(i as int), seq![c]);
                assert(seq![c].drop_first() =~= Seq::<char>::empty());
            }
            match self.find_child(n, c) {
                Some(m) => {
                    proof {
                        lemma_step_edge(self.edges@, n as int, c);
                        assert(walk(self.edges@, m as int, seq![c].drop_first()) == Some(m as int));
                    }
                    n = m;
                },
                None => {
                    proof {
                        assert(walk(self.edges@, n as int, seq![c]) is None);
                        assert(walk(self.edges@, 0, key@.take(i + 1)) is None);
                        assert(key@ =~= key@.take(i + 1) + key@.skip(i + 1));
                        lemma_walk_concat(self.edges@, 0, key@.take(i + 1), key@.skip(i + 1));
                        assert(self.get(prefix@) is None);
                    }
                    return None;
                },
            }
            i = i + 1;
        }
        assert(key@.take(key.len() as int) =~= key@);
        match &self.nodes[n].value {
            Some(v) => Some(v),
            None => None,
        }
    }

    /// Adds to `set` each character that labels an edge and is not there yet.
    fn add_all_chars_to_set(&self, set: &mut Vec<char>)
        requires
            old(set)@.no_duplicates(),
        ensures
            final(set)@.no_duplicates(),
            forall|c: char|
                #[trigger] final(set)@.contains(c) <==> old(set)@.contains(c) || edge_chars(
                    self.edges@,
                ).contains(c),
    {
        let mut i: usize = 0;
        while i < self.edges.len()
            invariant
                0 <= i <= self.edges.len(),
                set@.no_duplicates(),
                forall|c: char|
                    #[trigger] set@.contains(c) <==> old(set)@.contains(c) || exists|e: int|
                        0 <= e < i && (#[trigger] self.edges@[e]).1 == c,
            decreases self.edges.len() - i,
        {
            let c = self.edges[i].1;
            let ghost before = set@;
            if !contains_char(set, c) {
                set.push(c);
                proof {
                    assert forall|a: int, b: int|
                        0 <= a < b < set@.len() implies set@[a] != set@[b] by {
                        if b == before.len() {
                            assert(before[a] == set@[a]);
                        }
                    }
                }
            }
            assert forall|d: char| #[trigger]
                set@.contains(d) <==> before.contains(d) || d == c by {
                if before.contains(d) {
                    let j = choose|j: int| 0 <= j < before.len() && before[j] == d;
                    assert(set@[j] == d);
                }
                if d == c && !before.contains(d) {
                    assert(set@[before.len() as int] == d);
                }
                if set@.contains(d) {
                    let j = choose|j: int| 0 <= j < set@.len() && set@[j] == d;
                    if j < before.len() {
                        assert(before[j] == d);
                    }
                }
            }
            assert forall|d: char| #[trigger]
                set@.contains(d) <==> old(set)@.contains(d) || exists|e: int|
                    0 <= e < i + 1 && (#[trigger] self.edges@[e]).1 == d by {
                if d == c {
                    assert(self.edges@[i as int].1 == d);
                }
            }
            i = i + 1;
        }
    }

    /// Every character that occurs in some key, each once.
    pub fn get_all_chars(&self) -> (r: Vec<char>)
        requires
            self.wf(),
        ensures
            r@.no_duplicates(),
            forall|c: char| #[trigger] r@.contains(c) <==> key_chars(self@).contains(c),
    {
        let mut set: Vec<char> = Vec::new();
        self.add_all_chars_to_set(&mut set);
        set
    }

    /// A tree holding `entries` inserted in order: where a key occurs twice,
    /// the later value stands.
    pub fn from_entries(entries: Vec<(&str, T)>) -> (r: PrefixTree<T>)
        ensures
            r.wf(),
            r@ == entries_map(entries_view(entries@)),
    {
        let ghost all = entries@;
        let mut tree = PrefixTree::new();
        assert(entries_map(entries_view(all.take(0))) =~= Map::<Seq<char>, T>::empty());
        for p in it: entries
            invariant
                it.seq() == all,
                tree.wf(),
                tree@ == entries_map(entries_view(all.take(it.index()))),
        {
            let (key, value) = p;
            let ghost done = entries_view(all.take(it.index()));
            assert(entries_view(all.take(it.index() + 1)) =~= done.push((key@, value)));
            tree.insert(key, value);
            proof {
                assert(done.push((key@, value)).drop_last() =~= done);
                assert(tree@ =~= entries_map(done.push((key@, value))));
            }
        }
        assert(all.take(all.len() as int) =~= all);
        tree
    }
}

/// A tree built from entries finds, for every key that some entry has, the
/// value of the last entry with that key; and finds nothing for a string that
/// no entry has as its key, even where it begins the key of some entry.
pub proof fn lemma_registered_keys<T>(entries: Seq<(Seq<char>, T)>, k: Seq<char>)
    ensures
        (exists|i: int| 0 <= i < entries.len() && #[trigger] entries[i].0 == k) ==> ({
            let m = entries_map(entries);
            &&& m.contains_key(k)
            &&& exists|i: int|
                0 <= i < entries.len() && #[trigger] entries[i] == (k, m[k]) && forall|j: int|
                    i < j < entries.len() ==> (#[trigger] entries[j]).0 != k
        }),
        (forall|i: int| 0 <= i < entries.len() ==> (#[trigger] entries[i]).0 != k)
            ==> !entries_map(entries).contains_key(k),
    decreases entries.len(),
{
    if entries.len() > 0 {
        let n = entries.len() - 1;
        let front = entries.drop_last();
        lemma_registered_keys(front, k);
        assert forall|i: int| 0 <= i < front.len() implies #[trigger] front[i] == entries[i] by {}
        if entries[n].0 == k {
            assert(entries[n] == (k, entries_map(entries)[k]));
        } else if exists|i: int| 0 <= i < entries.len() && #[trigger] entries[i].0 == k {
            let i0 = choose|i: int| 0 <= i < entries.len() && #[trigger] entries[i].0 == k;
            assert(front[i0].0 == k);
            let i = choose|i: int|
                0 <= i < front.len() && #[trigger] front[i] == (k, entries_map(front)[k])
                    && forall|j: int| i < j < front.len() ==> (#[trigger] front[j]).0 != k;
            assert(entries[i] == (k, entries_map(entries)[k]));
            assert forall|j: int| i < j < entries.len() implies (#[trigger] entries[j]).0 != k by {
                if j < n {
                    assert(front[j] == entries[j]);
                }
            }
        } else {
            assert forall|i: int| 0 <= i < front.len() implies (#[trigger] front[i]).0 != k by {
                assert(front[i] == entries[i]);
            }
        }
    }
}

} // verus!
