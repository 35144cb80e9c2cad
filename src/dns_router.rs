//! The router: four tries that map a query's name and record type to the
//! upstream of the best matching rule.
use vstd::prelude::*;
use crate::config::{Pattern, Rule};
use crate::labels::{domain_path, domain_path_of};
use crate::trie::{deepest_in, depth_view, get_in, insert_all, improves, Matched, Node};
use crate::upstream::Upstream;

verus! {

/// The model of a router: one table per trie. The record-typed families map
/// every record type to its table, empty where no rule names the type.
pub struct RouterView {
    pub exact: Map<Seq<Seq<char>>, Matched>,
    pub suffix: Map<Seq<Seq<char>>, Matched>,
    pub exact_by_record: Map<u16, Map<Seq<Seq<char>>, Matched>>,
    pub suffix_by_record: Map<u16, Map<Seq<Seq<char>>, Matched>>,
}

/// `f` with the table of each record type in `records` updated by offering
/// `m` at the paths of `names`.
pub open spec fn insert_for_records(
    f: Map<u16, Map<Seq<Seq<char>>, Matched>>,
    records: Seq<u16>,
    names: Seq<Seq<char>>,
    m: Matched,
) -> Map<u16, Map<Seq<Seq<char>>, Matched>> {
    Map::new(
        |r: u16| f.contains_key(r),
        |r: u16|
            if records.contains(r) {
                insert_all(f[r], names, m)
            } else {
                f[r]
            },
    )
}

impl RouterView {
    /// The model of a router with no rules.
    pub open spec fn empty() -> RouterView {
        RouterView {
            exact: Map::empty(),
            suffix: Map::empty(),
            exact_by_record: Map::new(|r: u16| true, |r: u16| Map::empty()),
            suffix_by_record: Map::new(|r: u16| true, |r: u16| Map::empty()),
        }
    }

    /// Every record type has a table in both record-typed families.
    pub open spec fn total(self) -> bool {
        &&& forall|r: u16| #[trigger] self.exact_by_record.contains_key(r)
        &&& forall|r: u16| #[trigger] self.suffix_by_record.contains_key(r)
    }

    /// The model after adding `rule` with `priority`: its upstream is offered
    /// at the path of each of its names, in the trie that its pattern selects
    /// (once per listed record type for a restricted pattern).
    pub open spec fn with_rule(self, rule: Rule, priority: usize) -> RouterView {
        let m = Matched { upstream: rule.upstream, priority };
        let names = rule.pattern.names();
        match rule.pattern.records() {
            None => if rule.pattern is Domain {
                RouterView { exact: insert_all(self.exact, names, m), ..self }
            } else {
                RouterView { suffix: insert_all(self.suffix, names, m), ..self }
            },
            Some(records) => if rule.pattern is Domain {
                RouterView {
                    exact_by_record: insert_for_records(self.exact_by_record, records, names, m),
                    ..self
                }
            } else {
                RouterView {
                    suffix_by_record: insert_for_records(self.suffix_by_record, records, names, m),
                    ..self
                }
            },
        }
    }

    /// The upstream for a query with label path `q` (last label first) and
    /// record type `rt`: an exact record-typed match, else an exact untyped
    /// match, else the deeper of the record-typed and the untyped deepest
    /// suffix matches; at equal depth the higher priority, the record-typed
    /// one on a tie.
    pub open spec fn search(self, q: Seq<Seq<char>>, rt: u16) -> Option<Upstream> {
        if self.exact_by_record[rt].contains_key(q) {
            Some(self.exact_by_record[rt][q].upstream)
        } else if self.exact.contains_key(q) {
            Some(self.exact[q].upstream)
        } else {
            suffix_choice(
                deepest_in(self.suffix_by_record[rt], q, q.len() as int),
                deepest_in(self.suffix, q, q.len() as int),
            )
        }
    }
}

/// The choice between the record-typed and the untyped suffix candidates.
pub open spec fn suffix_choice(typed: Option<(Matched, int)>, untyped: Option<(Matched, int)>) -> Option<
    Upstream,
> {
    match typed {
        None => match untyped {
            None => None,
            Some(u) => Some(u.0.upstream),
        },
        Some(t) => match untyped {
            None => Some(t.0.upstream),
            Some(u) => if t.1 > u.1 || (t.1 == u.1 && t.0.priority >= u.0.priority) {
                Some(t.0.upstream)
            } else {
                Some(u.0.upstream)
            },
        },
    }
}

/// The deepest entry along any path in an empty table is absent.
pub proof fn lemma_deepest_in_empty(q: Seq<Seq<char>>, i: int)
    ensures
        deepest_in(Map::<Seq<Seq<char>>, Matched>::empty(), q, i) is None,
    decreases i + 1,
{
    if i >= 0 {
        lemma_deepest_in_empty(q, i - 1);
    }
}

/// What offering `m` at the paths of `names` leaves at `p`.
pub proof fn lemma_insert_all_get(
    t: Map<Seq<Seq<char>>, Matched>,
    names: Seq<Seq<char>>,
    m: Matched,
    p: Seq<Seq<char>>,
)
    ensures
        get_in(insert_all(t, names, m), p) == if (exists|i: int|
            0 <= i < names.len() && #[trigger] domain_path(names[i]) == p) && improves(t, p, m) {
            Some(m)
        } else {
            get_in(t, p)
        },
    decreases names.len(),
{
    if names.len() > 0 {
        let init = names.drop_last();
        lemma_insert_all_get(t, init, m, p);
        if exists|i: int| 0 <= i < names.len() && #[trigger] domain_path(names[i]) == p {
            let i = choose|i: int| 0 <= i < names.len() && #[trigger] domain_path(names[i]) == p;
            if i < names.len() - 1 {
                assert(domain_path(init[i]) == p);
            }
        }
        if exists|i: int| 0 <= i < init.len() && #[trigger] domain_path(init[i]) == p {
            let i = choose|i: int| 0 <= i < init.len() && #[trigger] domain_path(init[i]) == p;
            assert(domain_path(names[i]) == p);
        }
    }
}

/// Offering the same entry at the same paths twice changes nothing more.
pub proof fn lemma_insert_all_twice(t: Map<Seq<Seq<char>>, Matched>, names: Seq<Seq<char>>, m: Matched)
    ensures
        insert_all(insert_all(t, names, m), names, m) == insert_all(t, names, m),
{
    let once = insert_all(t, names, m);
    assert forall|p: Seq<Seq<char>>| #[trigger] get_in(insert_all(once, names, m), p) == get_in(once, p) by {
        lemma_insert_all_get(once, names, m, p);
        lemma_insert_all_get(t, names, m, p);
    }
    assert forall|p: Seq<Seq<char>>| insert_all(once, names, m).contains_key(p) <==> once.contains_key(p) by {
        assert(get_in(insert_all(once, names, m), p) == get_in(once, p));
    }
    assert forall|p: Seq<Seq<char>>| insert_all(once, names, m).contains_key(p) implies insert_all(once, names, m)[p] == once[p] by {
        assert(get_in(insert_all(once, names, m), p) == get_in(once, p));
    }
    assert(insert_all(once, names, m) =~= once);
}

/// The trie of the names restricted to one record type.
#[derive(Debug)]
struct RecordTrie {
    record: u16,
    root: Node,
}

spec fn records_unique(v: Seq<RecordTrie>) -> bool {
    forall|i: int, j: int| 0 <= i < j < v.len() ==> v[i].record != v[j].record
}

spec fn has_record(v: Seq<RecordTrie>, r: u16, i: int) -> bool {
    0 <= i < v.len() && v[i].record == r
}

/// The table for record type `r`: that of its trie, empty without one.
spec fn record_table(v: Seq<RecordTrie>, r: u16) -> Map<Seq<Seq<char>>, Matched> {
    if exists|i: int| has_record(v, r, i) {
        v[choose|i: int| has_record(v, r, i)].root.table()
    } else {
        Map::empty()
    }
}

proof fn lemma_record_table(v: Seq<RecordTrie>, r: u16, i: int)
    requires
        records_unique(v),
        has_record(v, r, i),
    ensures
        record_table(v, r) == v[i].root.table(),
{
    let k = choose|k: int| has_record(v, r, k);
    if k < i {
        assert(v[k].record != v[i].record);
    } else if i < k {
        assert(v[i].record != v[k].record);
    }
}

spec fn records_view(v: Seq<RecordTrie>) -> Map<u16, Map<Seq<Seq<char>>, Matched>> {
    Map::new(|r: u16| true, |r: u16| record_table(v, r))
}

/// Offers `m` at the paths of `names` in the trie of record type `rt`,
/// creating that trie if there is none.
fn add_for_record(tries: &mut Vec<RecordTrie>, rt: u16, names: &Vec<String>, m: &Matched)
    requires
        records_unique(old(tries)@),
    ensures
        records_unique(final(tries)@),
        records_view(final(tries)@) == records_view(old(tries)@).insert(
            rt,
            insert_all(record_table(old(tries)@, rt), crate::labels::strings_view(names@), *m),
        ),
{
    let ghost v0 = tries@;
    let mut i: usize = 0;
    while i < tries.len() && tries[i].record != rt
        invariant
            tries@ == v0,
            i <= v0.len(),
            forall|j: int| 0 <= j < i ==> v0[j].record != rt,
        decreases v0.len() - i,
    {
        i = i + 1;
    }
    if i == tries.len() {
        let root = Node::new();
        tries.push(RecordTrie { record: rt, root });
        proof {
            assert(record_table(v0, rt) == Map::<Seq<Seq<char>>, Matched>::empty());
        }
    } else {
        proof {
            lemma_record_table(v0, rt, i as int);
        }
    }
    let ghost v1 = tries@;
    proof {
        assert(records_unique(v1));
        lemma_record_table(v1, rt, i as int);
        assert forall|r: u16| r != rt implies record_table(v1, r) == record_table(v0, r) by {
            if exists|k: int| has_record(v0, r, k) {
                let k = choose|k: int| has_record(v0, r, k);
                lemma_record_table(v0, r, k);
                lemma_record_table(v1, r, k);
            } else {
                if exists|k: int| has_record(v1, r, k) {
                    let k = choose|k: int| has_record(v1, r, k);
                    assert(has_record(v0, r, k));
                }
            }
        }
    }
    tries[i].root.add_domains(names, m);
    proof {
        let v2 = tries@;
        assert(records_unique(v2));
        lemma_record_table(v2, rt, i as int);
        assert forall|r: u16| r != rt implies record_table(v2, r) == record_table(v1, r) by {
            if exists|k: int| has_record(v1, r, k) {
                let k = choose|k: int| has_record(v1, r, k);
                lemma_record_table(v1, r, k);
                lemma_record_table(v2, r, k);
            } else {
                if exists|k: int| has_record(v2, r, k) {
                    let k = choose|k: int| has_record(v2, r, k);
                    assert(has_record(v1, r, k));
                }
            }
        }
        assert(records_view(v2) =~= records_view(v0).insert(
            rt,
            insert_all(record_table(v0, rt), crate::labels::strings_view(names@), *m),
        ));
    }
}

/// The trie of record type `rt`, if there is one.
fn find_record(tries: &Vec<RecordTrie>, rt: u16) -> (r: Option<usize>)
    requires
        records_unique(tries@),
    ensures
        match r {
            Some(i) => i < tries@.len() && record_table(tries@, rt) == tries@[i as int].root.table(),
            None => record_table(tries@, rt) == Map::<Seq<Seq<char>>, Matched>::empty(),
        },
{
    let mut i: usize = 0;
    while i < tries.len()
        invariant
            records_unique(tries@),
            i <= tries@.len(),
            forall|j: int| 0 <= j < i ==> tries@[j].record != rt,
        decreases tries@.len() - i,
    {
        if tries[i].record == rt {
            proof {
                lemma_record_table(tries@, rt, i as int);
            }
            return Some(i);
        }
        i = i + 1;
    }
    None
}

/// Maps `(domain, record type)` to the upstream of the best matching rule.
#[derive(Debug)]
pub struct DnsRouter {
    domain: Node,
    suffix: Node,
    domain_record: Vec<RecordTrie>,
    suffix_record: Vec<RecordTrie>,
}

impl DnsRouter {
    /// The internal invariant: one trie per record type in each family.
    pub closed spec fn wf(&self) -> bool {
        records_unique(self.domain_record@) && records_unique(self.suffix_record@)
    }

    /// The tables the router's tries stand for.
    pub closed spec fn view(&self) -> RouterView {
        RouterView {
            exact: self.domain.table(),
            suffix: self.suffix.table(),
            exact_by_record: records_view(self.domain_record@),
            suffix_by_record: records_view(self.suffix_record@),
        }
    }

    pub fn new() -> (r: DnsRouter)
        ensures
            r.wf(),
            r.view() == RouterView::empty(),
    {
        let r = DnsRouter {
            domain: Node::new(),
            suffix: Node::new(),
            domain_record: Vec::new(),
            suffix_record: Vec::new(),
        };
        assert(records_view(r.domain_record@) =~= RouterView::empty().exact_by_record);
        assert(records_view(r.suffix_record@) =~= RouterView::empty().suffix_by_record);
        r
    }

    /// Files `rule` with `priority` in the trie(s) its pattern selects.
    pub fn add_rule(&mut self, rule: Rule, priority: usize)
        requires
            old(self).wf(),
        ensures
            final(self).wf(),
            final(self).view() == old(self).view().with_rule(rule, priority),
    {
        let ghost v0 = self.view();
        let Rule { pattern, upstream } = rule;
        let m = Matched::new(upstream, priority);
        match pattern {
            Pattern::Domain { domain, record: None } => {
                self.domain.add_domains(&domain, &m);
            },
            Pattern::Domain { domain, record: Some(record) } => {
                let mut k: usize = 0;
                while k < record.len()
                    invariant
                        self.wf(),
                        k <= record@.len(),
                        self.view().exact == v0.exact,
                        self.view().suffix == v0.suffix,
                        self.view().suffix_by_record == v0.suffix_by_record,
                        self.view().exact_by_record == insert_for_records(
                            v0.exact_by_record,
                            record@.take(k as int),
                            crate::labels::strings_view(domain@),
                            m,
                        ),
                    decreases record@.len() - k,
                {
                    let ghost before = self.view().exact_by_record;
                    add_for_record(&mut self.domain_record, record[k], &domain, &m);
                    proof {
                        let names = crate::labels::strings_view(domain@);
                        let rt = record@[k as int];
                        let prev = record@.take(k as int);
                        let recs = record@.take(k + 1);
                        assert(recs =~= prev.push(rt));
                        assert(recs[k as int] == rt);
                        let after = self.view().exact_by_record;
                        let want = insert_for_records(v0.exact_by_record, recs, names, m);
                        assert forall|r: u16| #[trigger] after.contains_key(r) implies after[r] == want[r] by {
                            assert(recs.contains(r) == (prev.contains(r) || r == rt)) by {
                                if prev.contains(r) {
                                    let x = choose|x: int| 0 <= x < prev.len() && prev[x] == r;
                                    assert(recs[x] == r);
                                }
                                if recs.contains(r) && r != rt {
                                    let x = choose|x: int| 0 <= x < recs.len() && recs[x] == r;
                                    assert(prev[x] == r);
                                }
                            }
                            assert(after[r] == if r == rt {
                                insert_all(before[rt], names, m)
                            } else {
                                before[r]
                            });
                            if r == rt && prev.contains(rt) {
                                lemma_insert_all_twice(v0.exact_by_record[rt], names, m);
                            }
                        }
                        assert(after =~= want);
                    }
                    k = k + 1;
                }
                proof {
                    assert(record@.take(record@.len() as int) =~= record@);
                }
            },
            Pattern::Suffix { suffix, record: None } => {
                self.suffix.add_domains(&suffix, &m);
            },
            Pattern::Suffix { suffix, record: Some(record) } => {
                let mut k: usize = 0;
                while k < record.len()
                    invariant
                        self.wf(),
                        k <= record@.len(),
                        self.view().exact == v0.exact,
                        self.view().suffix == v0.suffix,
                        self.view().exact_by_record == v0.exact_by_record,
                        self.view().suffix_by_record == insert_for_records(
                            v0.suffix_by_record,
                            record@.take(k as int),
                            crate::labels::strings_view(suffix@),
                            m,
                        ),
                    decreases record@.len() - k,
                {
                    let ghost before = self.view().suffix_by_record;
                    add_for_record(&mut self.suffix_record, record[k], &suffix, &m);
                    proof {
                        let names = crate::labels::strings_view(suffix@);
                        let rt = record@[k as int];
                        let prev = record@.take(k as int);
                        let recs = record@.take(k + 1);
                        assert(recs =~= prev.push(rt));
                        assert(recs[k as int] == rt);
                        let after = self.view().suffix_by_record;
                        let want = insert_for_records(v0.suffix_by_record, recs, names, m);
                        assert forall|r: u16| #[trigger] after.contains_key(r) implies after[r] == want[r] by {
                            assert(recs.contains(r) == (prev.contains(r) || r == rt)) by {
                                if prev.contains(r) {
                                    let x = choose|x: int| 0 <= x < prev.len() && prev[x] == r;
                                    assert(recs[x] == r);
                                }
                                if recs.contains(r) && r != rt {
                                    let x = choose|x: int| 0 <= x < recs.len() && recs[x] == r;
                                    assert(prev[x] == r);
                                }
                            }
                            assert(after[r] == if r == rt {
                                insert_all(before[rt], names, m)
                            } else {
                                before[r]
                            });
                            if r == rt && prev.contains(rt) {
                                lemma_insert_all_twice(v0.suffix_by_record[rt], names, m);
                            }
                        }
                        assert(after =~= want);
                    }
                    k = k + 1;
                }
                proof {
                    assert(record@.take(record@.len() as int) =~= record@);
                }
            },
        }
    }

    /// The upstream for a query of `domain` with record type `record`.
    pub fn search(&self, domain: String, record: u16) -> (r: Option<Upstream>)
        requires
            self.wf(),
        ensures
            r == self.view().search(domain_path(domain@), record),
    {
        let q = domain_path_of(domain.as_str());
        let ghost qv = domain_path(domain@);
        let ghost v = self.view();
        let typed_exact = match find_record(&self.domain_record, record) {
            Some(i) => self.domain_record[i].root.lookup(&q),
            None => None,
        };
        if let Some(m) = typed_exact {
            return Some(m.upstream);
        }
        if let Some(m) = self.domain.lookup(&q) {
            return Some(m.upstream);
        }
        let typed_suffix = match find_record(&self.suffix_record, record) {
            Some(i) => self.suffix_record[i].root.deepest(&q),
            None => {
                proof {
                    lemma_deepest_in_empty(qv, qv.len() as int);
                }
                None
            },
        };
        let untyped_suffix = self.suffix.deepest(&q);
        assert(depth_view(typed_suffix) == deepest_in(v.suffix_by_record[record], qv, qv.len() as int));
        match (typed_suffix, untyped_suffix) {
            (None, None) => None,
            (Some((m, _)), None) => Some(m.upstream),
            (None, Some((m, _))) => Some(m.upstream),
            (Some((m1, d1)), Some((m2, d2))) => {
                if d1 > d2 || (d1 == d2 && m1.priority >= m2.priority) {
                    Some(m1.upstream)
                } else {
                    Some(m2.upstream)
                }
            },
        }
    }
}

} // verus!
