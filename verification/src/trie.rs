//! The radix trie: node representation, well-formedness, and the
//! mathematical lookup function that the operations are specified against.

use vstd::prelude::*;
use vstd::string::StrSliceExecFns;

verus! {

/// Holds when `p` is a prefix of `s`.
pub open spec fn prefix_of(p: Seq<char>, s: Seq<char>) -> bool {
    p.len() <= s.len() && p == s.take(p.len() as int)
}

/// Holds when the edge label `l` sends the remaining key `k` into that edge's
/// child: the label is non-empty and a prefix of the key.
pub open spec fn edge_matches(l: Seq<char>, k: Seq<char>) -> bool {
    l.len() > 0 && prefix_of(l, k)
}

/// A tree vertex: an optional stored value and labeled edges to children.
pub struct Node<V> {
    /// Edge labels paired with the child each edge leads to.
    pub children: Vec<(String, Node<V>)>,
    /// The value stored here, present only when an inserted key ends here.
    pub value: Option<V>,
}

/// The labels of a sibling list are non-empty and pairwise share no
/// non-empty common prefix (equivalently: their first characters differ).
pub open spec fn labels_wf<V>(cs: Seq<(String, Node<V>)>) -> bool {
    &&& forall|i: int| 0 <= i < cs.len() ==> (#[trigger] cs[i]).0@.len() > 0
    &&& forall|i: int, j: int|
        0 <= i < cs.len() && 0 <= j < cs.len() && i != j ==> (#[trigger] cs[i]).0@[0] != (
        #[trigger] cs[j]).0@[0]
}

/// Well-formedness of a subtree: sibling labels are non-empty and
/// prefix-disjoint, every child subtree is well-formed, and every non-root
/// node carries a value or has children.
pub open spec fn node_wf<V>(n: Node<V>) -> bool
    decreases n,
{
    &&& labels_wf(n.children@)
    &&& forall|i: int|
        0 <= i < n.children@.len() ==> node_wf((#[trigger] n.children@[i]).1)
    &&& forall|i: int|
        0 <= i < n.children@.len() ==> ((#[trigger] n.children@[i]).1.value is Some
            || n.children@[i].1.children@.len() > 0)
}

/// The value stored under key `k` in the subtree rooted at `n`, as
/// mathematics: consume the key along the (at most one) matching edge and
/// read the value where the key runs out.
pub open spec fn node_get<V>(n: Node<V>, k: Seq<char>) -> Option<V>
    decreases k.len(),
{
    if k.len() == 0 {
        n.value
    } else if exists|i: int|
        0 <= i < n.children@.len() && edge_matches((#[trigger] n.children@[i]).0@, k) {
        let i = choose|i: int|
            0 <= i < n.children@.len() && edge_matches((#[trigger] n.children@[i]).0@, k);
        node_get(n.children@[i].1, k.skip(n.children@[i].0@.len() as int))
    } else {
        None
    }
}

/// A matching edge label starts with the key's first character.
pub proof fn lemma_match_head(l: Seq<char>, k: Seq<char>)
    requires
        edge_matches(l, k),
    ensures
        k.len() > 0,
        l[0] == k[0],
{
    assert(l[0] == k.take(l.len() as int)[0]);
}

/// Under prefix-disjoint sibling labels, a matching edge is the unique one,
/// so the lookup descends exactly through it.
pub proof fn lemma_get_match<V>(n: Node<V>, k: Seq<char>, i: int)
    requires
        labels_wf(n.children@),
        0 <= i < n.children@.len(),
        edge_matches(n.children@[i].0@, k),
    ensures
        node_get(n, k) == node_get(n.children@[i].1, k.skip(n.children@[i].0@.len() as int)),
{
    lemma_match_head(n.children@[i].0@, k);
    let c = choose|c: int|
        0 <= c < n.children@.len() && edge_matches((#[trigger] n.children@[c]).0@, k);
    lemma_match_head(n.children@[c].0@, k);
    assert(c == i);
}

/// When no edge matches, a non-empty key is absent.
pub proof fn lemma_get_no_match<V>(n: Node<V>, k: Seq<char>)
    requires
        k.len() > 0,
        forall|i: int|
            0 <= i < n.children@.len() ==> !edge_matches((#[trigger] n.children@[i]).0@, k),
    ensures
        node_get(n, k) is None,
{
}

/// A prefix agrees with the longer string at every position it covers.
pub proof fn lemma_prefix_index(p: Seq<char>, s: Seq<char>, i: int)
    requires
        prefix_of(p, s),
        0 <= i < p.len(),
    ensures
        p[i] == s[i],
{
    assert(p[i] == s.take(p.len() as int)[i]);
}

/// Positionwise agreement up to the prefix's length makes a prefix.
pub proof fn lemma_prefix_intro(p: Seq<char>, s: Seq<char>)
    requires
        p.len() <= s.len(),
        forall|i: int| 0 <= i < p.len() ==> p[i] == s[i],
    ensures
        prefix_of(p, s),
{
    assert(p =~= s.take(p.len() as int));
}

/// Being a prefix is transitive.
pub proof fn lemma_prefix_trans(a: Seq<char>, b: Seq<char>, c: Seq<char>)
    requires
        prefix_of(a, b),
        prefix_of(b, c),
    ensures
        prefix_of(a, c),
{
    assert forall|i: int| 0 <= i < a.len() implies a[i] == c[i] by {
        lemma_prefix_index(a, b, i);
        lemma_prefix_index(b, c, i);
    }
    lemma_prefix_intro(a, c);
}

/// A string is its prefix followed by the rest.
pub proof fn lemma_prefix_split(p: Seq<char>, s: Seq<char>)
    requires
        prefix_of(p, s),
    ensures
        s == p + s.skip(p.len() as int),
{
    assert forall|i: int| 0 <= i < s.len() implies s[i] == (p + s.skip(p.len() as int))[i] by {
        if i < p.len() {
            lemma_prefix_index(p, s, i);
        }
    }
    assert(s =~= p + s.skip(p.len() as int));
}

/// Chopping a shared prefix `p` off both strings preserves (and reflects)
/// the prefix relation between them.
pub proof fn lemma_prefix_chop(p: Seq<char>, a: Seq<char>, b: Seq<char>)
    requires
        prefix_of(p, a),
        prefix_of(p, b),
    ensures
        prefix_of(a, b) <==> prefix_of(a.skip(p.len() as int), b.skip(p.len() as int)),
{
    let m = p.len() as int;
    let ar = a.skip(m);
    let br = b.skip(m);
    if prefix_of(a, b) {
        assert forall|i: int| 0 <= i < ar.len() implies ar[i] == br[i] by {
            assert(ar[i] == a[m + i]);
            lemma_prefix_index(a, b, m + i);
            assert(br[i] == b[m + i]);
        }
        lemma_prefix_intro(ar, br);
    }
    if prefix_of(ar, br) {
        assert forall|i: int| 0 <= i < a.len() implies a[i] == b[i] by {
            if i < m {
                lemma_prefix_index(p, a, i);
                lemma_prefix_index(p, b, i);
            } else {
                assert(a[i] == ar[i - m]);
                lemma_prefix_index(ar, br, i - m);
                assert(br[i - m] == b[i]);
            }
        }
        lemma_prefix_intro(a, b);
    }
}

/// The longest common prefix of `a` and `b`, comparing character by
/// character: the result is a prefix of both, and is as long as possible
/// (the inputs differ right after it unless one has run out).
pub fn lcp(a: &str, b: &str) -> (r: String)
    ensures
        prefix_of(r@, a@),
        prefix_of(r@, b@),
        r@.len() < a@.len() && r@.len() < b@.len() ==> a@[r@.len() as int] != b@[r@.len() as int],
{
    let alen = a.unicode_len();
    let blen = b.unicode_len();
    let mut i: usize = 0;
    loop
        invariant
            i <= alen,
            i <= blen,
            alen == a@.len(),
            blen == b@.len(),
            a@.take(i as int) == b@.take(i as int),
        ensures
            i <= alen,
            i <= blen,
            a@.take(i as int) == b@.take(i as int),
            i < alen && i < blen ==> a@[i as int] != b@[i as int],
        decreases alen - i,
    {
        if i >= alen || i >= blen {
            break ;
        }
        if a.get_char(i) != b.get_char(i) {
            break ;
        }
        proof {
            assert(a@.take(i as int + 1) =~= b@.take(i as int + 1));
        }
        i = i + 1;
    }
    let r = a.substring_char(0, i).to_owned();
    proof {
        assert(r@ == a@.take(i as int));
        assert(prefix_of(r@, b@));
    }
    r
}

/// Whether `s` starts with `p`, comparing character by character.
fn str_starts_with(s: &str, p: &str) -> (r: bool)
    ensures
        r == prefix_of(p@, s@),
{
    let slen = s.unicode_len();
    let plen = p.unicode_len();
    if plen > slen {
        return false;
    }
    let mut i: usize = 0;
    while i < plen
        invariant
            i <= plen,
            plen <= slen,
            plen == p@.len(),
            slen == s@.len(),
            forall|j: int| 0 <= j < i ==> p@[j] == s@[j],
        decreases plen - i,
    {
        if p.get_char(i) != s.get_char(i) {
            proof {
                assert(p@[i as int] != s@.take(plen as int)[i as int]);
            }
            return false;
        }
        i = i + 1;
    }
    proof {
        assert(p@ =~= s@.take(plen as int));
    }
    true
}

/// Two nodes with the same children look up non-empty keys alike.
pub proof fn lemma_get_children_eq<V>(n1: Node<V>, n2: Node<V>, q: Seq<char>)
    requires
        labels_wf(n1.children@),
        n1.children@ == n2.children@,
        q.len() > 0,
    ensures
        node_get(n1, q) == node_get(n2, q),
{
    if exists|i: int| 0 <= i < n1.children@.len() && edge_matches((#[trigger] n1.children@[i]).0@, q) {
        let i = choose|i: int|
            0 <= i < n1.children@.len() && edge_matches((#[trigger] n1.children@[i]).0@, q);
        lemma_get_match(n1, q, i);
        assert(edge_matches(n2.children@[i].0@, q));
        lemma_get_match(n2, q, i);
    } else {
        assert forall|i: int|
            0 <= i < n2.children@.len() implies !edge_matches((#[trigger] n2.children@[i]).0@, q) by {
            assert(n2.children@[i] == n1.children@[i]);
            assert(!edge_matches(n1.children@[i].0@, q));
        }
        lemma_get_no_match(n1, q);
        lemma_get_no_match(n2, q);
    }
}

/// Replacing the child at position `i` with one whose label also fails to
/// match `q` leaves the lookup of `q` unchanged.
pub proof fn lemma_get_untouched<V>(n1: Node<V>, n2: Node<V>, q: Seq<char>, i: int)
    requires
        labels_wf(n1.children@),
        labels_wf(n2.children@),
        0 <= i < n1.children@.len(),
        n2.children@.len() == n1.children@.len(),
        forall|j: int|
            0 <= j < n1.children@.len() && j != i ==> n2.children@[j] == n1.children@[j],
        !edge_matches(n1.children@[i].0@, q),
        !edge_matches(n2.children@[i].0@, q),
        q.len() > 0,
    ensures
        node_get(n1, q) == node_get(n2, q),
{
    if exists|j: int| 0 <= j < n1.children@.len() && edge_matches((#[trigger] n1.children@[j]).0@, q) {
        let j = choose|j: int|
            0 <= j < n1.children@.len() && edge_matches((#[trigger] n1.children@[j]).0@, q);
        assert(j != i);
        lemma_get_match(n1, q, j);
        assert(n2.children@[j] == n1.children@[j]);
        lemma_get_match(n2, q, j);
    } else {
        assert forall|j: int|
            0 <= j < n2.children@.len() implies !edge_matches((#[trigger] n2.children@[j]).0@, q) by {
            if j != i {
                assert(n2.children@[j] == n1.children@[j]);
                assert(!edge_matches(n1.children@[j].0@, q));
            }
        }
        lemma_get_no_match(n1, q);
        lemma_get_no_match(n2, q);
    }
}

/// Appending an edge whose label fails to match `q` leaves the lookup of
/// `q` unchanged.
pub proof fn lemma_get_pushed<V>(n1: Node<V>, n2: Node<V>, q: Seq<char>)
    requires
        labels_wf(n1.children@),
        labels_wf(n2.children@),
        n2.children@.len() == n1.children@.len() + 1,
        forall|j: int| 0 <= j < n1.children@.len() ==> n2.children@[j] == n1.children@[j],
        !edge_matches(n2.children@[n1.children@.len() as int].0@, q),
        q.len() > 0,
    ensures
        node_get(n1, q) == node_get(n2, q),
{
    if exists|j: int| 0 <= j < n1.children@.len() && edge_matches((#[trigger] n1.children@[j]).0@, q) {
        let j = choose|j: int|
            0 <= j < n1.children@.len() && edge_matches((#[trigger] n1.children@[j]).0@, q);
        lemma_get_match(n1, q, j);
        assert(n2.children@[j] == n1.children@[j]);
        lemma_get_match(n2, q, j);
    } else {
        assert forall|j: int|
            0 <= j < n2.children@.len() implies !edge_matches((#[trigger] n2.children@[j]).0@, q) by {
            if j < n1.children@.len() {
                assert(n2.children@[j] == n1.children@[j]);
                assert(!edge_matches(n1.children@[j].0@, q));
            }
        }
        lemma_get_no_match(n1, q);
        lemma_get_no_match(n2, q);
    }
}

/// When the one edge whose label starts like `q` fails to match `q`, the
/// lookup of `q` misses.
pub proof fn lemma_get_head_only<V>(n: Node<V>, q: Seq<char>, i: int)
    requires
        labels_wf(n.children@),
        0 <= i < n.children@.len(),
        q.len() > 0,
        q[0] == n.children@[i].0@[0],
        !edge_matches(n.children@[i].0@, q),
    ensures
        node_get(n, q) is None,
{
    assert forall|j: int|
        0 <= j < n.children@.len() implies !edge_matches((#[trigger] n.children@[j]).0@, q) by {
        if j != i && edge_matches(n.children@[j].0@, q) {
            lemma_match_head(n.children@[j].0@, q);
        }
    }
    lemma_get_no_match(n, q);
}

/// The radix trie: a root node whose implicit incoming edge is the empty
/// string.
pub struct Trie<V> {
    /// The root; the empty key's value, if any, is stored here.
    pub root: Node<V>,
}

impl<V> Node<V> {
    /// An empty node: no children, no value.
    pub fn new() -> (n: Node<V>)
        ensures
            n.children@.len() == 0,
            n.value is None,
            node_wf(n),
    {
        Node { children: Vec::new(), value: None }
    }
}

impl<V> Trie<V> {
    /// The radix invariant holds of every node in the trie.
    pub open spec fn wf(self) -> bool {
        node_wf(self.root)
    }

    /// The mapping from keys to values that the trie currently represents.
    pub open spec fn as_map(self) -> Map<Seq<char>, V> {
        Map::new(
            |k: Seq<char>| node_get(self.root, k) is Some,
            |k: Seq<char>| node_get(self.root, k)->0,
        )
    }

    /// An empty trie: no key maps to anything.
    pub fn new() -> (t: Trie<V>)
        ensures
            t.wf(),
            t.as_map() == Map::<Seq<char>, V>::empty(),
    {
        let t = Trie { root: Node::new() };
        proof {
            assert forall|k: Seq<char>| #[trigger] node_get(t.root, k) is None by {
                if k.len() > 0 {
                    lemma_get_no_match(t.root, k);
                }
            }
            assert(t.as_map() =~= Map::<Seq<char>, V>::empty());
        }
        t
    }

    /// Returns a reference to the value stored at exactly `key`, or `None`
    /// when no inserted key equals `key`.
    pub fn get<'a>(&'a self, key: &str) -> (r: Option<&'a V>)
        requires
            self.wf(),
        ensures
            match r {
                Some(v) => self.as_map().contains_key(key@) && *v == self.as_map()[key@],
                None => !self.as_map().contains_key(key@),
            },
    {
        Self::get_recursive(&self.root, key)
    }

    /// Inserts `value` under `key`, overwriting any value previously stored
    /// at that exact key. Succeeds for every key, the empty string included,
    /// and leaves every other key's value untouched.
    pub fn insert(&mut self, key: String, value: V)
        requires
            old(self).wf(),
        ensures
            final(self).wf(),
            final(self).as_map() == old(self).as_map().insert(key@, value),
    {
        let ghost gv = value;
        Self::insert_recursive(&mut self.root, key.as_str(), value);
        proof {
            assert(self.as_map() =~= old(self).as_map().insert(key@, gv));
        }
    }

    /// Insert `value` under the remaining `key` in the subtree at `node`:
    /// overwrite here when the key has run out, descend along an edge whose
    /// label is a full prefix of the key, split an edge that shares only part
    /// of its label with the key, and otherwise add a fresh leaf edge.
    pub fn insert_recursive(node: &mut Node<V>, key: &str, value: V)
        requires
            node_wf(*old(node)),
        ensures
            node_wf(*final(node)),
            forall|q: Seq<char>|
                (#[trigger] node_get(*final(node), q)) == if q == key@ {
                    Some(value)
                } else {
                    node_get(*old(node), q)
                },
            key@.len() == 0 ==> final(node).value is Some,
            key@.len() > 0 ==> final(node).children@.len() > 0 && final(node).value == old(
                node,
            ).value,
        decreases key@.len(),
    {
        let ghost gv = value;
        if key.is_empty() {
            node.value = Some(value);
            proof {
                assert forall|q: Seq<char>|
                    (#[trigger] node_get(*node, q)) == if q == key@ {
                        Some(gv)
                    } else {
                        node_get(*old(node), q)
                    } by {
                    if q.len() == 0 {
                        assert(q =~= key@);
                    } else {
                        lemma_get_children_eq(*old(node), *node, q);
                    }
                }
            }
            return ;
        }
        let klen = key.unicode_len();
        let n = node.children.len();
        let mut idx: usize = 0;
        while idx < n
            invariant
                n == node.children@.len(),
                idx <= n,
                *node == *old(node),
                node_wf(*node),
                value == gv,
                klen == key@.len(),
                key@.len() > 0,
                forall|j: int| 0 <= j < idx ==> (#[trigger] node.children@[j]).0@[0] != key@[0],
            decreases n - idx,
        {
            let elen = node.children[idx].0.as_str().unicode_len();
            let common = lcp(node.children[idx].0.as_str(), key);
            let clen = common.as_str().unicode_len();
            let ghost oldc = old(node).children@;
            let ghost e = oldc[idx as int].0@;
            let ghost c = oldc[idx as int].1;
            let ghost com = common@;
            proof {
                assert(e.len() == elen && com.len() == clen);
                assert(e.len() > 0);
                assert(prefix_of(com, e) && prefix_of(com, key@));
            }
            if clen == 0 {
                proof {
                    assert(e[0] != key@[0]);
                }
                idx = idx + 1;
                continue ;
            }
            proof {
                lemma_prefix_index(com, e, 0);
                lemma_prefix_index(com, key@, 0);
                assert(e[0] == key@[0]);
            }
            if clen == elen {
                // The whole edge label is a prefix of the key: descend.
                proof {
                    assert(com =~= e);
                    assert(edge_matches(e, key@));
                }
                let rem = key.substring_char(clen, klen);
                proof {
                    assert(rem@ =~= key@.skip(e.len() as int));
                    lemma_prefix_split(e, key@);
                }
                let mut pair = node.children.remove(idx);
                Self::insert_recursive(&mut pair.1, rem, value);
                let ghost gpair = pair;
                node.children.insert(idx, pair);
                proof {
                    let cv = node.children@;
                    assert(cv =~= oldc.update(idx as int, gpair));
                    assert(gpair.0 == oldc[idx as int].0);
                    assert forall|i: int|
                        0 <= i < cv.len() implies (#[trigger] cv[i]).0 == oldc[i].0 && node_wf(
                        cv[i].1) && (cv[i].1.value is Some || cv[i].1.children@.len() > 0) by {
                        if i != idx as int {
                            assert(cv[i] == oldc[i]);
                        }
                    }
                    assert forall|i: int, j: int|
                        0 <= i < cv.len() && 0 <= j < cv.len() && i != j implies (
                        #[trigger] cv[i]).0@[0] != (#[trigger] cv[j]).0@[0] by {
                        assert(cv[i].0 == oldc[i].0);
                        assert(cv[j].0 == oldc[j].0);
                    }
                    assert(labels_wf(cv));
                    assert(node_wf(*node));
                    assert forall|q: Seq<char>|
                        (#[trigger] node_get(*node, q)) == if q == key@ {
                            Some(gv)
                        } else {
                            node_get(*old(node), q)
                        } by {
                        if q.len() == 0 {
                            assert(q != key@);
                            assert(node.value == old(node).value);
                            assert(node_get(*node, q) == node_get(*old(node), q));
                        } else if edge_matches(e, q) {
                            lemma_get_match(*old(node), q, idx as int);
                            assert(cv[idx as int].0@ == e);
                            lemma_get_match(*node, q, idx as int);
                            lemma_prefix_split(e, q);
                            let qr = q.skip(e.len() as int);
                            assert(node_get(*node, q) == node_get(gpair.1, qr));
                            assert(node_get(*old(node), q) == node_get(c, qr));
                            if qr == rem@ {
                                assert(q == key@);
                                assert(node_get(gpair.1, qr) == Some(gv));
                            } else {
                                assert(q != key@);
                                assert(node_get(gpair.1, qr) == node_get(c, qr));
                            }
                        } else {
                            assert(q != key@) by {
                                if q == key@ {
                                    assert(edge_matches(e, q));
                                }
                            }
                            lemma_get_untouched(*old(node), *node, q, idx as int);
                        }
                    }
                }
                return ;
            }
            // The key diverges inside the edge label: split the edge at the
            // shared prefix.
            proof {
                assert(1 <= clen < elen);
                assert(clen <= klen);
                assert(clen < klen ==> e[clen as int] != key@[clen as int]);
            }
            let ghost os = e.skip(clen as int);
            let ghost ns = key@.skip(clen as int);
            proof {
                lemma_prefix_split(com, e);
                lemma_prefix_split(com, key@);
                assert(os.len() > 0);
                assert(os[0] == e[clen as int]);
                assert(clen < klen ==> ns[0] == key@[clen as int]);
            }
            let removed = node.children.remove(idx);
            let (elabel, echild) = removed;
            let old_suffix = elabel.as_str().substring_char(clen, elen).to_owned();
            proof {
                assert(old_suffix@ =~= os);
            }
            let mut inter = Node { children: Vec::new(), value: None };
            let p0 = (old_suffix, echild);
            let ghost gp0 = p0;
            inter.children.push(p0);
            proof {
                assert(gp0.0@ == os && gp0.1 == c);
                assert(inter.children@ =~= seq![gp0]);
            }
            if clen == klen {
                // The key itself ends where the edge splits: the new
                // intermediate node carries the value.
                inter.value = Some(value);
                proof {
                    assert(com =~= key@);
                }
            } else {
                let new_suffix = key.substring_char(clen, klen).to_owned();
                proof {
                    assert(new_suffix@ =~= ns);
                }
                let leaf = Node { children: Vec::new(), value: Some(value) };
                let p1 = (new_suffix, leaf);
                let ghost gp1 = p1;
                inter.children.push(p1);
                proof {
                    assert(gp1.0@ == ns && gp1.1.children@.len() == 0 && gp1.1.value == Some(gv));
                    assert(inter.children@ =~= seq![gp0, gp1]);
                }
            }
            let ghost ginter = inter;
            node.children.insert(idx, (common, inter));
            proof {
                let cv = node.children@;
                assert(cv[idx as int].0@ == com && cv[idx as int].1 == ginter);
                assert(cv =~= oldc.update(idx as int, cv[idx as int]));
                // Shape of the intermediate node.
                assert(ginter.children@[0].0@ == os && ginter.children@[0].1 == c);
                if clen == klen {
                    assert(ginter.children@.len() == 1 && ginter.value == Some(gv));
                } else {
                    assert(ginter.children@.len() == 2 && ginter.value is None);
                    assert(ginter.children@[1].0@ == ns);
                    assert(ginter.children@[1].1.children@.len() == 0);
                    assert(ginter.children@[1].1.value == Some(gv));
                    assert(os[0] != ns[0]);
                }
                // The intermediate node is well-formed.
                assert(labels_wf(ginter.children@));
                assert(node_wf(c));
                assert(c.value is Some || c.children@.len() > 0);
                if clen < klen {
                    assert(node_wf(ginter.children@[1].1));
                }
                assert(node_wf(ginter));
                // The updated sibling list is well-formed.
                assert forall|i: int, j: int|
                    0 <= i < cv.len() && 0 <= j < cv.len() && i != j implies (
                    #[trigger] cv[i]).0@[0] != (#[trigger] cv[j]).0@[0] by {
                    assert(com[0] == e[0]);
                    if i != idx as int {
                        assert(cv[i] == oldc[i]);
                    }
                    if j != idx as int {
                        assert(cv[j] == oldc[j]);
                    }
                }
                assert forall|i: int|
                    0 <= i < cv.len() implies (#[trigger] cv[i]).0@.len() > 0 && node_wf(cv[i].1)
                    && (cv[i].1.value is Some || cv[i].1.children@.len() > 0) by {
                    if i != idx as int {
                        assert(cv[i] == oldc[i]);
                    }
                }
                assert(labels_wf(cv));
                assert(node_wf(*node));
                // Pointwise effect on every key.
                assert forall|q: Seq<char>|
                    (#[trigger] node_get(*node, q)) == if q == key@ {
                        Some(gv)
                    } else {
                        node_get(*old(node), q)
                    } by {
                    if q.len() == 0 {
                        assert(q != key@);
                    } else if edge_matches(com, q) {
                        lemma_get_match(*node, q, idx as int);
                        let qp = q.skip(com.len() as int);
                        lemma_prefix_split(com, q);
                        lemma_prefix_index(com, q, 0);
                        assert(q[0] == e[0]);
                        if qp.len() == 0 {
                            assert(q =~= com);
                            if clen == klen {
                                assert(q == key@);
                            } else {
                                assert(q != key@);
                                assert(node_get(ginter, qp) is None);
                                assert(!edge_matches(e, q));
                                lemma_get_head_only(*old(node), q, idx as int);
                            }
                        } else if edge_matches(os, qp) {
                            lemma_get_match(ginter, qp, 0);
                            assert(qp.skip(os.len() as int) =~= q.skip(e.len() as int));
                            lemma_prefix_chop(com, e, q);
                            assert(edge_matches(e, q));
                            lemma_get_match(*old(node), q, idx as int);
                            assert(q != key@) by {
                                if q == key@ {
                                    if clen == klen {
                                        assert(qp.len() == 0);
                                    } else {
                                        assert(qp == ns);
                                        lemma_prefix_index(os, qp, 0);
                                        assert(os[0] == ns[0]);
                                    }
                                }
                            }
                        } else if clen < klen && edge_matches(ns, qp) {
                            lemma_get_match(ginter, qp, 1);
                            let leafnode = ginter.children@[1].1;
                            lemma_prefix_index(ns, qp, 0);
                            if qp == ns {
                                assert(q == key@);
                                assert(qp.skip(ns.len() as int).len() == 0);
                                assert(node_get(leafnode, qp.skip(ns.len() as int)) == Some(gv));
                            } else {
                                assert(q != key@);
                                if ns.len() == qp.len() {
                                    assert(qp =~= ns);
                                }
                                assert(qp.skip(ns.len() as int).len() > 0);
                                lemma_get_no_match(leafnode, qp.skip(ns.len() as int));
                                lemma_prefix_chop(com, e, q);
                                assert(!prefix_of(os, qp)) by {
                                    if prefix_of(os, qp) {
                                        lemma_prefix_index(os, qp, 0);
                                    }
                                }
                                assert(!edge_matches(e, q));
                                lemma_get_head_only(*old(node), q, idx as int);
                            }
                        } else {
                            lemma_get_no_match(ginter, qp);
                            assert(q != key@) by {
                                if q == key@ {
                                    if clen == klen {
                                        assert(qp.len() == 0);
                                    } else {
                                        assert(qp == ns);
                                        assert(prefix_of(ns, qp)) by {
                                            lemma_prefix_intro(ns, qp);
                                        }
                                        assert(edge_matches(ns, qp));
                                    }
                                }
                            }
                            lemma_prefix_chop(com, e, q);
                            assert(!edge_matches(e, q));
                            lemma_get_head_only(*old(node), q, idx as int);
                        }
                    } else {
                        assert(q != key@) by {
                            if q == key@ {
                                assert(edge_matches(com, q));
                            }
                        }
                        assert(!edge_matches(e, q)) by {
                            if edge_matches(e, q) {
                                lemma_prefix_trans(com, e, q);
                            }
                        }
                        lemma_get_untouched(*old(node), *node, q, idx as int);
                    }
                }
            }
            return ;
        }
        // No edge shares a prefix with the key: hang a fresh leaf off this
        // node under the whole remaining key.
        let leaf = Node { children: Vec::new(), value: Some(value) };
        let pair = (key.to_owned(), leaf);
        let ghost gpair = pair;
        let ghost oldc = old(node).children@;
        node.children.push(pair);
        proof {
            let cv = node.children@;
            assert(cv =~= oldc.push(gpair));
            assert(gpair.0@ == key@);
            assert(node_wf(gpair.1));
            assert(prefix_of(key@, key@)) by {
                lemma_prefix_intro(key@, key@);
            }
            assert forall|i: int, j: int|
                0 <= i < cv.len() && 0 <= j < cv.len() && i != j implies (#[trigger] cv[i]).0@[0]
                != (#[trigger] cv[j]).0@[0] by {
                if i < oldc.len() {
                    assert(cv[i] == oldc[i]);
                }
                if j < oldc.len() {
                    assert(cv[j] == oldc[j]);
                }
            }
            assert forall|i: int|
                0 <= i < cv.len() implies (#[trigger] cv[i]).0@.len() > 0 && node_wf(cv[i].1) && (
                cv[i].1.value is Some || cv[i].1.children@.len() > 0) by {
                if i < oldc.len() {
                    assert(cv[i] == oldc[i]);
                }
            }
            assert(labels_wf(cv));
            assert(node_wf(*node));
            assert forall|q: Seq<char>|
                (#[trigger] node_get(*node, q)) == if q == key@ {
                    Some(gv)
                } else {
                    node_get(*old(node), q)
                } by {
                if q.len() == 0 {
                    assert(q != key@);
                } else if edge_matches(key@, q) {
                    lemma_match_head(key@, q);
                    lemma_get_match(*node, q, oldc.len() as int);
                    lemma_prefix_split(key@, q);
                    let qr = q.skip(key@.len() as int);
                    if qr.len() == 0 {
                        assert(q =~= key@);
                        assert(node_get(gpair.1, qr) == Some(gv));
                    } else {
                        assert(q != key@);
                        lemma_get_no_match(gpair.1, qr);
                        assert forall|j: int|
                            0 <= j < oldc.len() implies !edge_matches(
                            (#[trigger] oldc[j]).0@, q) by {
                            if edge_matches(oldc[j].0@, q) {
                                lemma_match_head(oldc[j].0@, q);
                            }
                        }
                        lemma_get_no_match(*old(node), q);
                    }
                } else {
                    assert(q != key@);
                    lemma_get_pushed(*old(node), *node, q);
                }
            }
        }
    }

    /// Lookup in the subtree at `node`: follow the unique edge whose label
    /// is a prefix of the remaining key, and read the value where the key
    /// runs out.
    pub fn get_recursive<'a>(node: &'a Node<V>, key: &str) -> (r: Option<&'a V>)
        requires
            node_wf(*node),
        ensures
            match r {
                Some(v) => node_get(*node, key@) == Some(*v),
                None => node_get(*node, key@) is None,
            },
        decreases key@.len(),
    {
        if key.is_empty() {
            return node.value.as_ref();
        }
        let n = node.children.len();
        let mut idx: usize = 0;
        while idx < n
            invariant
                n == node.children@.len(),
                idx <= n,
                node_wf(*node),
                key@.len() > 0,
                forall|j: int|
                    0 <= j < idx ==> !edge_matches((#[trigger] node.children@[j]).0@, key@),
            decreases n - idx,
        {
            let edge: &String = &node.children[idx].0;
            if str_starts_with(key, edge.as_str()) {
                let elen = edge.as_str().unicode_len();
                let klen = key.unicode_len();
                let rem = key.substring_char(elen, klen);
                proof {
                    assert(edge_matches(node.children@[idx as int].0@, key@));
                    assert(rem@ =~= key@.skip(elen as int));
                    lemma_get_match(*node, key@, idx as int);
                }
                return Self::get_recursive(&node.children[idx].1, rem);
            }
            idx = idx + 1;
        }
        proof {
            lemma_get_no_match(*node, key@);
        }
        None
    }
}

} // verus!
