use vstd::prelude::*;

verus! {

/// One node of the vocabulary trie: child edges keyed by byte, plus an
/// optional token id when the path from the root to this node spells a
/// vocabulary token.
pub struct TrieNode {
    pub kids: Vec<(u8, TrieNode)>,
    pub val: Option<usize>,
}

/// A prefix tree mapping byte strings to token ids. Exact lookup and
/// longest-prefix match walk one edge per query byte, so their cost is
/// linear in the query and independent of the vocabulary size.
pub struct Trie {
    root: TrieNode,
}

/// The child of `kids` labelled `b`, searching from position `j` on;
/// the first matching edge wins.
pub open spec fn kid_from(kids: Seq<(u8, TrieNode)>, b: u8, j: int) -> Option<TrieNode>
    decreases kids.len() - j,
{
    if j < 0 || j >= kids.len() {
        None
    } else if kids[j].0 == b {
        Some(kids[j].1)
    } else {
        kid_from(kids, b, j + 1)
    }
}

/// The child of `kids` labelled `b`.
pub open spec fn kid_of(kids: Seq<(u8, TrieNode)>, b: u8) -> Option<TrieNode> {
    kid_from(kids, b, 0)
}

/// The id stored for `key` in the subtrie rooted at `node`.
pub open spec fn node_get(node: TrieNode, key: Seq<u8>) -> Option<usize>
    decreases key.len(),
{
    if key.len() == 0 {
        node.val
    } else {
        match kid_of(node.kids@, key[0]) {
            Some(c) => node_get(c, key.drop_first()),
            None => None,
        }
    }
}

proof fn lemma_kid_found(kids: Seq<(u8, TrieNode)>, b: u8, i: int, j: int)
    requires
        0 <= i <= j < kids.len(),
        kids[j].0 == b,
        forall|m: int| i <= m < j ==> kids[m].0 != b,
    ensures
        kid_from(kids, b, i) == Some(kids[j].1),
    decreases j - i,
{
    if i < j {
        lemma_kid_found(kids, b, i + 1, j);
    }
}

proof fn lemma_kid_none(kids: Seq<(u8, TrieNode)>, b: u8, i: int)
    requires
        0 <= i,
        forall|m: int| i <= m < kids.len() ==> kids[m].0 != b,
    ensures
        kid_from(kids, b, i) is None,
    decreases kids.len() - i,
{
    if i < kids.len() {
        lemma_kid_none(kids, b, i + 1);
    }
}

/// Replacing the node of the edge at position `j` leaves every lookup for a
/// byte other than that edge's label unchanged.
proof fn lemma_kid_update(kids1: Seq<(u8, TrieNode)>, kids2: Seq<(u8, TrieNode)>, j: int, b: u8, i: int)
    requires
        kids2.len() == kids1.len(),
        0 <= j < kids1.len(),
        kids2[j].0 == kids1[j].0,
        forall|m: int| 0 <= m < kids1.len() && m != j ==> kids2[m] == kids1[m],
        b != kids1[j].0,
        0 <= i,
    ensures
        kid_from(kids2, b, i) == kid_from(kids1, b, i),
    decreases kids1.len() - i,
{
    if i < kids1.len() {
        lemma_kid_update(kids1, kids2, j, b, i + 1);
    }
}

/// Appending an edge does not change lookups for other labels.
proof fn lemma_kid_push(kids1: Seq<(u8, TrieNode)>, c: (u8, TrieNode), b: u8, i: int)
    requires
        b != c.0,
        0 <= i,
    ensures
        kid_from(kids1.push(c), b, i) == kid_from(kids1, b, i),
    decreases kids1.len() - i,
{
    if i < kids1.len() {
        lemma_kid_push(kids1, c, b, i + 1);
    } else if i == kids1.len() {
        assert(kid_from(kids1.push(c), b, i + 1) is None);
    }
}

/// If no child for `b` is found from position `i` on, no edge from there
/// carries the label `b`.
proof fn lemma_kid_none_inv(kids: Seq<(u8, TrieNode)>, b: u8, i: int)
    requires
        0 <= i,
        kid_from(kids, b, i) is None,
    ensures
        forall|m: int| i <= m < kids.len() ==> kids[m].0 != b,
    decreases kids.len() - i,
{
    if i < kids.len() {
        lemma_kid_none_inv(kids, b, i + 1);
    }
}

/// Looks up the position of the first edge labelled `b`.
fn find_kid_index(kids: &Vec<(u8, TrieNode)>, b: u8) -> (r: Option<usize>)
    ensures
        match r {
            Some(j) => {
                &&& j < kids@.len()
                &&& kids@[j as int].0 == b
                &&& (forall|m: int| 0 <= m < j ==> kids@[m].0 != b)
                &&& kid_of(kids@, b) == Some(kids@[j as int].1)
            },
            None => kid_of(kids@, b) is None,
        },
{
    let mut j: usize = 0;
    while j < kids.len()
        invariant
            j <= kids@.len(),
            forall|m: int| 0 <= m < j ==> kids@[m].0 != b,
        decreases kids@.len() - j,
    {
        if kids[j].0 == b {
            proof {
                lemma_kid_found(kids@, b, 0, j as int);
            }
            return Some(j);
        }
        j = j + 1;
    }
    proof {
        lemma_kid_none(kids@, b, 0);
    }
    None
}

/// Inserts `id` for the suffix of `key` that starts at `i`, into the
/// subtrie rooted at `node`.
fn insert_at(node: &mut TrieNode, key: &Vec<u8>, i: usize, id: usize)
    requires
        i <= key@.len(),
    ensures
        forall|s: Seq<u8>|
            #[trigger] node_get(*final(node), s) == if s == key@.skip(i as int) {
                Some(id)
            } else {
                node_get(*old(node), s)
            },
    decreases key@.len() - i,
{
    let ghost n1 = *node;
    if i == key.len() {
        node.val = Some(id);
        proof {
            assert(key@.skip(i as int) =~= Seq::<u8>::empty());
            assert forall|s: Seq<u8>|
                #[trigger] node_get(*node, s) == if s == key@.skip(i as int) {
                    Some(id)
                } else {
                    node_get(n1, s)
                } by {
                if s.len() == 0 {
                    assert(s =~= Seq::<u8>::empty());
                } else {
                    assert(s != key@.skip(i as int));
                    assert(node.kids@ == n1.kids@);
                }
            }
        }
    } else {
        let b = key[i];
        let found = find_kid_index(&node.kids, b);
        match found {
            Some(j) => {
                let ghost kids1 = node.kids@;
                let (bb, mut ch) = node.kids.remove(j);
                let ghost ch0 = ch;
                insert_at(&mut ch, key, i + 1, id);
                let ghost ch1 = ch;
                node.kids.insert(j, (bb, ch));
                proof {
                    let kids2 = node.kids@;
                    assert(kids2 =~= kids1.update(j as int, (b, ch1)));
                    lemma_insert_step_found(n1, *node, key@, i as int, id, j as int, ch0, ch1);
                }
            },
            None => {
                let mut ch = TrieNode { kids: Vec::new(), val: None };
                let ghost ch0 = ch;
                insert_at(&mut ch, key, i + 1, id);
                let ghost ch1 = ch;
                node.kids.push((b, ch));
                proof {
                    lemma_insert_step_new(n1, *node, key@, i as int, id, ch0, ch1);
                }
            },
        }
    }
}

/// After replacing the child for byte `key[i]` by `ch1`, the subtrie maps
/// `key.skip(i)` to the new id and every other string to its old id.
proof fn lemma_insert_step_found(
    n1: TrieNode,
    n2: TrieNode,
    key: Seq<u8>,
    i: int,
    id: usize,
    j: int,
    ch0: TrieNode,
    ch1: TrieNode,
)
    requires
        0 <= i < key.len(),
        n2.val == n1.val,
        0 <= j < n1.kids.len(),
        n1.kids@[j].0 == key[i],
        forall|m: int| 0 <= m < j ==> n1.kids@[m].0 != key[i],
        kid_of(n1.kids@, key[i]) == Some(ch0),
        n2.kids@ == n1.kids@.update(j, (key[i], ch1)),
        forall|s: Seq<u8>|
            #[trigger] node_get(ch1, s) == if s == key.skip(i + 1) {
                Some(id)
            } else {
                node_get(ch0, s)
            },
    ensures
        forall|s: Seq<u8>|
            #[trigger] node_get(n2, s) == if s == key.skip(i) {
                Some(id)
            } else {
                node_get(n1, s)
            },
{
    let b = key[i];
    assert forall|s: Seq<u8>|
        #[trigger] node_get(n2, s) == if s == key.skip(i) {
            Some(id)
        } else {
            node_get(n1, s)
        } by {
        assert(key.skip(i).len() == key.len() - i);
        if s.len() == 0 {
            assert(s != key.skip(i));
        } else if s[0] != b {
            assert(s != key.skip(i)) by {
                assert(key.skip(i)[0] == b);
            }
            lemma_kid_update(n1.kids@, n2.kids@, j, s[0], 0);
        } else {
            lemma_kid_found(n2.kids@, b, 0, j);
            assert(kid_of(n2.kids@, b) == Some(ch1));
            assert(node_get(n2, s) == node_get(ch1, s.drop_first()));
            assert(node_get(n1, s) == node_get(ch0, s.drop_first()));
            if s == key.skip(i) {
                assert(s.drop_first() =~= key.skip(i + 1));
            } else {
                assert(s.drop_first() != key.skip(i + 1)) by {
                    if s.drop_first() == key.skip(i + 1) {
                        assert(s =~= key.skip(i)) by {
                            assert(s.len() == key.skip(i + 1).len() + 1);
                            assert(forall|m: int| 0 <= m < s.len() ==> s[m] == key.skip(i)[m]) by {
                                assert forall|m: int| 0 <= m < s.len() implies s[m] == key.skip(i)[m] by {
                                    if m > 0 {
                                        assert(s[m] == s.drop_first()[m - 1]);
                                        assert(key.skip(i + 1)[m - 1] == key[i + 1 + (m - 1)]);
                                    }
                                }
                            }
                        }
                    }
                }
            }
        }
    }
}

/// After linking a fresh chain for byte `key[i]`, the subtrie maps
/// `key.skip(i)` to the new id and every other string to its old id.
proof fn lemma_insert_step_new(
    n1: TrieNode,
    n2: TrieNode,
    key: Seq<u8>,
    i: int,
    id: usize,
    ch0: TrieNode,
    ch1: TrieNode,
)
    requires
        0 <= i < key.len(),
        n2.val == n1.val,
        kid_of(n1.kids@, key[i]) is None,
        ch0.kids@.len() == 0,
        ch0.val is None,
        n2.kids@ == n1.kids@.push((key[i], ch1)),
        forall|s: Seq<u8>|
            #[trigger] node_get(ch1, s) == if s == key.skip(i + 1) {
                Some(id)
            } else {
                node_get(ch0, s)
            },
    ensures
        forall|s: Seq<u8>|
            #[trigger] node_get(n2, s) == if s == key.skip(i) {
                Some(id)
            } else {
                node_get(n1, s)
            },
{
    let b = key[i];
    assert forall|s: Seq<u8>| node_get(ch0, s) is None by {
        if s.len() > 0 {
            assert(kid_from(ch0.kids@, s[0], 0) is None);
        }
    }
    assert forall|s: Seq<u8>|
        #[trigger] node_get(n2, s) == if s == key.skip(i) {
            Some(id)
        } else {
            node_get(n1, s)
        } by {
        assert(key.skip(i).len() == key.len() - i);
        if s.len() == 0 {
            assert(s != key.skip(i));
        } else if s[0] != b {
            assert(s != key.skip(i)) by {
                assert(key.skip(i)[0] == b);
            }
            lemma_kid_push(n1.kids@, (b, ch1), s[0], 0);
        } else {
            lemma_kid_none_inv(n1.kids@, b, 0);
            assert(forall|m: int| 0 <= m < n1.kids@.len() ==> n2.kids@[m] == n1.kids@[m]);
            lemma_kid_found(n2.kids@, b, 0, n1.kids@.len() as int);
            assert(kid_of(n2.kids@, b) == Some(ch1));
            assert(node_get(n2, s) == node_get(ch1, s.drop_first()));
            assert(node_get(n1, s) is None);
            if s == key.skip(i) {
                assert(s.drop_first() =~= key.skip(i + 1));
            } else {
                if s.drop_first() == key.skip(i + 1) {
                    assert(s =~= key.skip(i)) by {
                        assert(s.len() == key.skip(i + 1).len() + 1);
                        assert forall|m: int| 0 <= m < s.len() implies s[m] == key.skip(i)[m] by {
                            if m > 0 {
                                assert(s[m] == s.drop_first()[m - 1]);
                                assert(key.skip(i + 1)[m - 1] == key[i + 1 + (m - 1)]);
                            }
                        }
                    }
                    assert(false);
                }
                assert(node_get(ch1, s.drop_first()) == node_get(ch0, s.drop_first()));
            }
        }
    }
}

impl Trie {
    /// The id the trie maps `key` to, if any.
    pub closed spec fn spec_get(self, key: Seq<u8>) -> Option<usize> {
        node_get(self.root, key)
    }

    /// An empty trie: no key maps to anything.
    pub fn new() -> (t: Trie)
        ensures
            forall|s: Seq<u8>| #[trigger] t.spec_get(s) is None,
    {
        let t = Trie { root: TrieNode { kids: Vec::new(), val: None } };
        proof {
            assert forall|s: Seq<u8>| #[trigger] t.spec_get(s) is None by {
                if s.len() > 0 {
                    assert(kid_from(t.root.kids@, s[0], 0) is None);
                }
            }
        }
        t
    }

    /// Maps `key` to `id`, leaving every other key unchanged.
    pub fn insert(&mut self, key: &Vec<u8>, id: usize)
        ensures
            forall|s: Seq<u8>|
                #[trigger] final(self).spec_get(s) == if s == key@ {
                    Some(id)
                } else {
                    old(self).spec_get(s)
                },
    {
        proof {
            assert(key@.skip(0) =~= key@);
        }
        insert_at(&mut self.root, key, 0, id);
    }

    /// Exact lookup of one key.
    pub fn lookup(&self, key: &Vec<u8>) -> (r: Option<usize>)
        ensures
            r == self.spec_get(key@),
    {
        let n = key.len();
        let mut cur: &TrieNode = &self.root;
        let mut i: usize = 0;
        proof {
            assert(key@.subrange(0, n as int) =~= key@);
        }
        while i < n
            invariant
                i <= n,
                n == key@.len(),
                node_get(*cur, key@.subrange(i as int, n as int)) == self.spec_get(key@),
            decreases n - i,
    {
            let b = key[i];
            let ghost s = key@.subrange(i as int, n as int);
            proof {
                assert(s.len() > 0);
                assert(s[0] == b);
                assert(s.drop_first() =~= key@.subrange(i as int + 1, n as int));
            }
            match find_kid_index(&cur.kids, b) {
                Some(j) => {
                    cur = &cur.kids[j].1;
                    i = i + 1;
                },
                None => {
                    return None;
                },
            }
        }
        proof {
            assert(key@.subrange(i as int, n as int) =~= Seq::<u8>::empty());
        }
        cur.val
    }

    /// Longest-prefix match: the longest vocabulary token that starts at
    /// `start` in `text`, with its length. Ties cannot occur since at most
    /// one token of each length starts there.
    pub fn longest_prefix(&self, text: &Vec<u8>, start: usize) -> (r: Option<(usize, usize)>)
        requires
            start <= text@.len(),
        ensures
            match r {
                Some(p) => {
                    &&& 1 <= p.1
                    &&& start + p.1 <= text@.len()
                    &&& self.spec_get(text@.subrange(start as int, start + p.1)) == Some(p.0)
                    &&& forall|m: int|
                        p.1 < m <= text@.len() - start ==> #[trigger] self.spec_get(
                            text@.subrange(start as int, start + m),
                        ) is None
                },
                None => forall|m: int|
                    1 <= m <= text@.len() - start ==> #[trigger] self.spec_get(
                        text@.subrange(start as int, start + m),
                    ) is None,
            },
    {
        let n = text.len();
        let mut cur: &TrieNode = &self.root;
        let mut i: usize = start;
        let mut best: Option<(usize, usize)> = None;
        while i < n
            invariant
                start <= i <= n,
                n == text@.len(),
                forall|s: Seq<u8>|
                    #[trigger] node_get(*cur, s) == node_get(
                        self.root,
                        text@.subrange(start as int, i as int) + s,
                    ),
                match best {
                    Some(p) => {
                        &&& 1 <= p.1 <= i - start
                        &&& self.spec_get(text@.subrange(start as int, start + p.1)) == Some(p.0)
                        &&& forall|m: int|
                            p.1 < m <= i - start ==> #[trigger] self.spec_get(
                                text@.subrange(start as int, start + m),
                            ) is None
                    },
                    None => forall|m: int|
                        1 <= m <= i - start ==> #[trigger] self.spec_get(
                            text@.subrange(start as int, start + m),
                        ) is None,
                },
            decreases n - i,
        {
            let b = text[i];
            match find_kid_index(&cur.kids, b) {
                Some(j) => {
                    let next: &TrieNode = &cur.kids[j].1;
                    proof {
                        let pre = text@.subrange(start as int, i as int);
                        assert forall|s: Seq<u8>|
                            #[trigger] node_get(*next, s) == node_get(
                                self.root,
                                text@.subrange(start as int, i as int + 1) + s,
                            ) by {
                            let s1 = seq![b] + s;
                            assert(s1.len() > 0);
                            assert(s1[0] == b);
                            assert(s1.drop_first() =~= s);
                            assert(node_get(*cur, s1) == node_get(*next, s));
                            assert(pre + s1 =~= text@.subrange(start as int, i as int + 1) + s);
                        }
                        assert(text@.subrange(start as int, i as int + 1)
                            =~= text@.subrange(start as int, i as int + 1) + Seq::<u8>::empty());
                    }
                    cur = next;
                    i = i + 1;
                    match cur.val {
                        Some(id) => {
                            proof {
                                assert(node_get(*cur, Seq::<u8>::empty()) == cur.val);
                                assert(self.spec_get(text@.subrange(start as int, i as int))
                                    == Some(id));
                            }
                            best = Some((id, i - start));
                        },
                        None => {
                            proof {
                                assert(node_get(*cur, Seq::<u8>::empty()) == cur.val);
                                assert(self.spec_get(text@.subrange(start as int, i as int))
                                    is None);
                            }
                        },
                    }
                },
                None => {
                    proof {
                        assert forall|m: int|
                            i - start < m <= n - start implies #[trigger] self.spec_get(
                            text@.subrange(start as int, start + m),
                        ) is None by {
                            let s = text@.subrange(i as int, start + m);
                            assert(s.len() > 0);
                            assert(s[0] == b);
                            assert(text@.subrange(start as int, i as int) + s
                                =~= text@.subrange(start as int, start + m));
                            assert(node_get(*cur, s) is None);
                        }
                    }
                    return best;
                },
            }
        }
        best
    }
}

} // verus!
