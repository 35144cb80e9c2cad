//! A trie over label sequences whose nodes may carry a prioritized match.
//! Its model is a table from label paths to the match stored at the path.
use vstd::prelude::*;
use crate::labels::{domain_path, domain_path_of, strings_view};
use crate::upstream::Upstream;

verus! {

/// An upstream together with the priority of the rule that supplied it.
#[derive(Debug)]
pub struct Matched {
    pub upstream: Upstream,
    pub priority: usize,
}

impl Matched {
    pub fn new(upstream: Upstream, priority: usize) -> (r: Matched)
        ensures
            r == (Matched { upstream, priority }),
    {
        Matched { upstream, priority }
    }
}

impl Clone for Matched {
    fn clone(&self) -> (r: Self)
        ensures
            r == *self,
    {
        Matched { upstream: self.upstream.clone(), priority: self.priority }
    }
}

/// The entry of a table at `p`, if any.
pub open spec fn get_in(t: Map<Seq<Seq<char>>, Matched>, p: Seq<Seq<char>>) -> Option<Matched> {
    if t.contains_key(p) {
        Some(t[p])
    } else {
        None
    }
}

/// Whether storing `m` at `p` replaces what `t` holds there: the slot is
/// empty, or `m` has a strictly higher priority.
pub open spec fn improves(t: Map<Seq<Seq<char>>, Matched>, p: Seq<Seq<char>>, m: Matched) -> bool {
    !t.contains_key(p) || m.priority > t[p].priority
}

/// `t` after offering `m` at `p`: the higher priority is kept, the earlier
/// entry on a tie.
pub open spec fn table_insert(
    t: Map<Seq<Seq<char>>, Matched>,
    p: Seq<Seq<char>>,
    m: Matched,
) -> Map<Seq<Seq<char>>, Matched> {
    if improves(t, p, m) {
        t.insert(p, m)
    } else {
        t
    }
}

/// `t` after offering `m` at the path of each name, in order.
pub open spec fn insert_all(
    t: Map<Seq<Seq<char>>, Matched>,
    names: Seq<Seq<char>>,
    m: Matched,
) -> Map<Seq<Seq<char>>, Matched>
    decreases names.len(),
{
    if names.len() == 0 {
        t
    } else {
        table_insert(insert_all(t, names.drop_last(), m), domain_path(names.last()), m)
    }
}

/// The deepest entry of `t` on the prefixes `q[..0]`, ..., `q[..i]`, with its depth.
pub open spec fn deepest_in(t: Map<Seq<Seq<char>>, Matched>, q: Seq<Seq<char>>, i: int) -> Option<
    (Matched, int),
>
    decreases i + 1,
{
    if i < 0 {
        None
    } else if t.contains_key(q.take(i)) {
        Some((t[q.take(i)], i))
    } else {
        deepest_in(t, q, i - 1)
    }
}

/// A found match with its depth, as the model states it.
pub open spec fn depth_view(r: Option<(Matched, usize)>) -> Option<(Matched, int)> {
    match r {
        Some((m, d)) => Some((m, d as int)),
        None => None,
    }
}

#[derive(Debug)]
pub struct Edge {
    label: String,
    node: Node,
}

/// A trie node: labelled edges to the children, and an optional match.
#[derive(Debug)]
pub struct Node {
    next: Vec<Edge>,
    matched: Option<Matched>,
}

/// Position `i` is the first edge labelled `l`.
spec fn first_with_label(edges: Seq<Edge>, l: Seq<char>, i: int) -> bool {
    &&& 0 <= i < edges.len()
    &&& edges[i].label@ == l
    &&& forall|j: int| 0 <= j < i ==> edges[j].label@ != l
}

/// The position of the first edge labelled `l`.
spec fn child_pos(edges: Seq<Edge>, l: Seq<char>) -> Option<int> {
    if exists|i: int| first_with_label(edges, l, i) {
        Some(choose|i: int| first_with_label(edges, l, i))
    } else {
        None
    }
}

/// The node reached from `n` along `p`.
spec fn node_at(n: Node, p: Seq<Seq<char>>) -> Option<Node>
    decreases p.len(),
{
    if p.len() == 0 {
        Some(n)
    } else {
        match child_pos(n.next@, p[0]) {
            Some(i) => node_at(n.next@[i].node, p.drop_first()),
            None => None,
        }
    }
}

spec fn node_get(n: Node, p: Seq<Seq<char>>) -> Option<Matched> {
    match node_at(n, p) {
        Some(m) => m.matched,
        None => None,
    }
}

proof fn lemma_first_unique(edges: Seq<Edge>, l: Seq<char>, i: int, k: int)
    requires
        first_with_label(edges, l, i),
        first_with_label(edges, l, k),
    ensures
        i == k,
{
    if i < k {
        assert(edges[i].label@ != l);
    } else if k < i {
        assert(edges[k].label@ != l);
    }
}

proof fn lemma_child_pos(edges: Seq<Edge>, l: Seq<char>, i: int)
    requires
        first_with_label(edges, l, i),
    ensures
        child_pos(edges, l) == Some(i),
{
    let k = choose|k: int| first_with_label(edges, l, k);
    lemma_first_unique(edges, l, i, k);
}

proof fn lemma_child_pos_none(edges: Seq<Edge>, l: Seq<char>)
    requires
        forall|j: int| 0 <= j < edges.len() ==> edges[j].label@ != l,
    ensures
        child_pos(edges, l) is None,
{
}

proof fn lemma_child_pos_some(edges: Seq<Edge>, l: Seq<char>)
    requires
        child_pos(edges, l) is Some,
    ensures
        first_with_label(edges, l, child_pos(edges, l)->0),
{
}

/// Edges that keep the labels of `e1` and only add edges labelled otherwise
/// than `l` have the same first edge for `l`.
proof fn lemma_child_pos_kept(e1: Seq<Edge>, e2: Seq<Edge>, l: Seq<char>)
    requires
        e1.len() <= e2.len(),
        forall|j: int| 0 <= j < e1.len() ==> #[trigger] e2[j].label@ == e1[j].label@,
        forall|j: int| e1.len() <= j < e2.len() ==> #[trigger] e2[j].label@ != l,
    ensures
        child_pos(e2, l) == child_pos(e1, l),
{
    if child_pos(e1, l) is Some {
        let i = child_pos(e1, l)->0;
        lemma_child_pos_some(e1, l);
        assert(first_with_label(e2, l, i));
        lemma_child_pos(e2, l, i);
    } else {
        if child_pos(e2, l) is Some {
            let i = child_pos(e2, l)->0;
            lemma_child_pos_some(e2, l);
            assert(i < e1.len());
            assert forall|j: int| 0 <= j < i implies e1[j].label@ != l by {
                assert(e2[j].label@ == e1[j].label@);
            }
            assert(first_with_label(e1, l, i));
            lemma_child_pos(e1, l, i);
        }
    }
}

/// Following one more label from the node reached along `a`.
proof fn lemma_node_at_push(n: Node, a: Seq<Seq<char>>, l: Seq<char>)
    ensures
        node_at(n, a.push(l)) == match node_at(n, a) {
            Some(c) => match child_pos(c.next@, l) {
                Some(j) => Some(c.next@[j].node),
                None => None,
            },
            None => None,
        },
    decreases a.len(),
{
    if a.len() == 0 {
        assert(a.push(l).drop_first() =~= Seq::<Seq<char>>::empty());
    } else {
        assert(a.push(l).drop_first() =~= a.drop_first().push(l));
        assert(a.push(l)[0] == a[0]);
        match child_pos(n.next@, a[0]) {
            Some(i) => {
                lemma_node_at_push(n.next@[i].node, a.drop_first(), l);
            },
            None => {},
        }
    }
}

/// No node lies below a missing one.
proof fn lemma_node_at_prefix(n: Node, a: Seq<Seq<char>>, b: Seq<Seq<char>>)
    requires
        b.len() <= a.len(),
        a.take(b.len() as int) == b,
        node_at(n, a) is Some,
    ensures
        node_at(n, b) is Some,
    decreases b.len(),
{
    if b.len() > 0 {
        assert(a[0] == a.take(b.len() as int)[0]);
        let i = child_pos(n.next@, a[0])->0;
        assert(a.drop_first().take(b.len() - 1) =~= b.drop_first());
        lemma_node_at_prefix(n.next@[i].node, a.drop_first(), b.drop_first());
    }
}

proof fn lemma_tables_eq(t1: Map<Seq<Seq<char>>, Matched>, t2: Map<Seq<Seq<char>>, Matched>)
    requires
        forall|p: Seq<Seq<char>>| #[trigger] get_in(t1, p) == get_in(t2, p),
    ensures
        t1 == t2,
{
    assert forall|p: Seq<Seq<char>>| t1.contains_key(p) <==> t2.contains_key(p) by {
        assert(get_in(t1, p) == get_in(t2, p));
    }
    assert forall|p: Seq<Seq<char>>| t1.contains_key(p) implies t1[p] == t2[p] by {
        assert(get_in(t1, p) == get_in(t2, p));
    }
    assert(t1 =~= t2);
}

/// Past a missing node, the deepest entry along `q` no longer changes.
proof fn lemma_deepest_stops(n: Node, q: Seq<Seq<char>>, i: int, k: int)
    requires
        0 <= i < k <= q.len(),
        node_at(n, q.take(i + 1)) is None,
    ensures
        deepest_in(n.table(), q, k) == deepest_in(n.table(), q, i),
    decreases k - i,
{
    if node_at(n, q.take(k)) is Some {
        assert(q.take(k).take(i + 1) =~= q.take(i + 1));
        lemma_node_at_prefix(n, q.take(k), q.take(i + 1));
    }
    n.lemma_table_get(q.take(k));
    if k - 1 > i {
        lemma_deepest_stops(n, q, i, k - 1);
    }
}

impl Node {
    /// The table the trie stands for.
    pub closed spec fn table(&self) -> Map<Seq<Seq<char>>, Matched> {
        Map::new(|p: Seq<Seq<char>>| node_get(*self, p) is Some, |p: Seq<Seq<char>>| node_get(*self, p)->0)
    }

    proof fn lemma_table_get(&self, p: Seq<Seq<char>>)
        ensures
            get_in(self.table(), p) == node_get(*self, p),
    {
    }

    pub fn new() -> (r: Node)
        ensures
            r.table() == Map::<Seq<Seq<char>>, Matched>::empty(),
    {
        let r = Node { next: Vec::new(), matched: None };
        assert forall|p: Seq<Seq<char>>| node_get(r, p) is None by {
            if p.len() > 0 {
                lemma_child_pos_none(r.next@, p[0]);
            }
        }
        assert(r.table() =~= Map::<Seq<Seq<char>>, Matched>::empty());
        r
    }

    /// The position of the first edge labelled `label`.
    fn find_child(&self, label: &String) -> (r: Option<usize>)
        ensures
            match r {
                Some(i) => child_pos(self.next@, label@) == Some(i as int),
                None => forall|j: int| 0 <= j < self.next@.len() ==> self.next@[j].label@ != label@,
            },
    {
        let mut i: usize = 0;
        while i < self.next.len()
            invariant
                i <= self.next@.len(),
                forall|j: int| 0 <= j < i ==> self.next@[j].label@ != label@,
            decreases self.next@.len() - i,
        {
            if self.next[i].label == *label {
                proof {
                    lemma_child_pos(self.next@, label@, i as int);
                }
                return Some(i);
            }
            i = i + 1;
        }
        None
    }

    /// Offers `m` at the path `path[start..]` below this node, creating the
    /// nodes on the way.
    pub fn add(&mut self, path: &Vec<String>, start: usize, m: Matched)
        requires
            start <= path@.len(),
        ensures
            final(self).table() == table_insert(
                old(self).table(),
                strings_view(path@).skip(start as int),
                m,
            ),
        decreases path@.len() - start,
    {
        let ghost pv = strings_view(path@).skip(start as int);
        let ghost old_node = *self;
        if start == path.len() {
            let replace = match &self.matched {
                None => true,
                Some(cur) => m.priority > cur.priority,
            };
            if replace {
                self.matched = Some(m);
            }
            proof {
                assert(pv =~= Seq::<Seq<char>>::empty());
                let e = table_insert(old_node.table(), pv, m);
                assert forall|p: Seq<Seq<char>>| #[trigger] get_in(self.table(), p) == get_in(e, p) by {
                    old_node.lemma_table_get(p);
                    self.lemma_table_get(p);
                    if p.len() == 0 {
                        assert(p =~= pv);
                    } else {
                        assert(p != pv);
                    }
                }
                lemma_tables_eq(self.table(), e);
            }
        } else {
            let ghost label = path@[start as int]@;
            let found = self.find_child(&path[start]);
            let idx = match found {
                Some(i) => i,
                None => {
                    let node = Node::new();
                    self.next.push(Edge { label: path[start].clone(), node });
                    self.next.len() - 1
                },
            };
            let ghost mid = *self;
            proof {
                if found is None {
                    assert forall|j: int| 0 <= j < idx implies mid.next@[j].label@ != label by {
                        assert(mid.next@[j] == old_node.next@[j]);
                    }
                } else {
                    lemma_child_pos_some(old_node.next@, label);
                }
                assert(first_with_label(mid.next@, label, idx as int));
            }
            let ghost old_child = mid.next@[idx as int].node;
            self.next[idx].node.add(path, start + 1, m);
            proof {
                let pv2 = strings_view(path@).skip(start + 1);
                assert(pv.drop_first() =~= pv2);
                assert(pv[0] == label);
                let e = table_insert(old_node.table(), pv, m);
                let fin = *self;
                let child = fin.next@[idx as int].node;
                assert(child.table() == table_insert(old_child.table(), pv2, m));
                assert(forall|j: int| 0 <= j < fin.next@.len() && j != idx ==> #[trigger] fin.next@[j] == mid.next@[j]);
                assert(fin.next@[idx as int].label@ == label);
                // what the old node held below `label`
                assert forall|q: Seq<Seq<char>>| #[trigger] node_get(old_node, seq![label] + q) == get_in(old_child.table(), q) by {
                    let p = seq![label] + q;
                    assert(p[0] == label);
                    assert(p.drop_first() =~= q);
                    old_child.lemma_table_get(q);
                    if found is None {
                        lemma_child_pos_none(old_node.next@, label);
                    }
                }
                assert forall|p: Seq<Seq<char>>| #[trigger] get_in(fin.table(), p) == get_in(e, p) by {
                    old_node.lemma_table_get(p);
                    fin.lemma_table_get(p);
                    if p.len() == 0 {
                        assert(p != pv);
                    } else if p[0] != label {
                        assert(p != pv);
                        lemma_child_pos_kept(old_node.next@, fin.next@, p[0]);
                        if child_pos(old_node.next@, p[0]) is Some {
                            lemma_child_pos_some(old_node.next@, p[0]);
                        }
                    } else {
                        lemma_child_pos(fin.next@, label, idx as int);
                        let q = p.drop_first();
                        assert(p =~= seq![label] + q);
                        assert(pv =~= seq![label] + pv2);
                        assert((p == pv) == (q == pv2));
                        child.lemma_table_get(q);
                        assert(node_get(old_node, seq![label] + pv2) == get_in(old_child.table(), pv2));
                        assert(node_get(old_node, p) == get_in(old_child.table(), q));
                    }
                }
                lemma_tables_eq(fin.table(), e);
            }
        }
    }

    /// Offers `m` at the path of each of `names`.
    pub fn add_domains(&mut self, names: &Vec<String>, m: &Matched)
        ensures
            final(self).table() == insert_all(old(self).table(), strings_view(names@), *m),
    {
        let ghost t0 = self.table();
        let ghost nv = strings_view(names@);
        let mut k: usize = 0;
        while k < names.len()
            invariant
                k <= names@.len(),
                nv == strings_view(names@),
                self.table() == insert_all(t0, nv.take(k as int), *m),
            decreases names@.len() - k,
        {
            let path = domain_path_of(names[k].as_str());
            self.add(&path, 0, m.clone());
            proof {
                assert(strings_view(path@).skip(0) =~= strings_view(path@));
                assert(nv.take(k + 1).drop_last() =~= nv.take(k as int));
                assert(nv.take(k + 1).last() == names@[k as int]@);
            }
            k = k + 1;
        }
        assert(nv.take(names@.len() as int) =~= nv);
    }

    /// The entry stored exactly at `q`.
    pub fn lookup(&self, q: &Vec<String>) -> (r: Option<Matched>)
        ensures
            r == get_in(self.table(), strings_view(q@)),
    {
        let ghost qv = strings_view(q@);
        let mut curr: &Node = self;
        let mut i: usize = 0;
        assert(qv.take(0) =~= Seq::<Seq<char>>::empty());
        while i < q.len()
            invariant
                i <= q@.len(),
                qv == strings_view(q@),
                node_at(*self, qv.take(i as int)) == Some(*curr),
            decreases q@.len() - i,
        {
            proof {
                assert(qv.take(i as int).push(qv[i as int]) =~= qv.take(i + 1));
                lemma_node_at_push(*self, qv.take(i as int), qv[i as int]);
            }
            match curr.find_child(&q[i]) {
                None => {
                    proof {
                        lemma_child_pos_none(curr.next@, qv[i as int]);
                        if node_at(*self, qv) is Some {
                            assert(qv.take(i + 1) =~= qv.take(i + 1));
                            lemma_node_at_prefix(*self, qv, qv.take(i + 1));
                        }
                        self.lemma_table_get(qv);
                    }
                    return None;
                },
                Some(j) => {
                    curr = &curr.next[j].node;
                },
            }
            i = i + 1;
        }
        proof {
            assert(qv.take(q@.len() as int) =~= qv);
            self.lemma_table_get(qv);
        }
        match &curr.matched {
            Some(m) => Some(m.clone()),
            None => None,
        }
    }

    /// The deepest entry stored on a prefix of `q`, with its depth.
    pub fn deepest(&self, q: &Vec<String>) -> (r: Option<(Matched, usize)>)
        ensures
            depth_view(r) == deepest_in(self.table(), strings_view(q@), q@.len() as int),
    {
        let ghost qv = strings_view(q@);
        let mut curr: &Node = self;
        let mut best: Option<(Matched, usize)> = match &self.matched {
            Some(m) => Some((m.clone(), 0)),
            None => None,
        };
        let mut i: usize = 0;
        proof {
            assert(qv.take(0) =~= Seq::<Seq<char>>::empty());
            self.lemma_table_get(qv.take(0));
            assert(deepest_in(self.table(), qv, -1) is None);
        }
        while i < q.len()
            invariant
                i <= q@.len(),
                qv == strings_view(q@),
                node_at(*self, qv.take(i as int)) == Some(*curr),
                depth_view(best) == deepest_in(self.table(), qv, i as int),
            decreases q@.len() - i,
        {
            proof {
                assert(qv.take(i as int).push(qv[i as int]) =~= qv.take(i + 1));
                lemma_node_at_push(*self, qv.take(i as int), qv[i as int]);
            }
            match curr.find_child(&q[i]) {
                None => {
                    proof {
                        lemma_child_pos_none(curr.next@, qv[i as int]);
                        lemma_deepest_stops(*self, qv, i as int, q@.len() as int);
                    }
                    return best;
                },
                Some(j) => {
                    curr = &curr.next[j].node;
                    proof {
                        self.lemma_table_get(qv.take(i + 1));
                    }
                    match &curr.matched {
                        Some(m) => {
                            best = Some((m.clone(), i + 1));
                        },
                        None => {},
                    }
                },
            }
            i = i + 1;
        }
        best
    }
}

} // verus!
