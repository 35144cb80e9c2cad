//! What the router built from a rule list answers, stated over the rules
//! themselves, and the laws that follow.
use vstd::prelude::*;
use crate::config::{Pattern, Rule};
use crate::dns_router::{insert_for_records, lemma_insert_all_get, RouterView};
use crate::labels::domain_path;
use crate::trie::{deepest_in, get_in, insert_all, Matched};
use crate::upstream::Upstream;

verus! {

/// The model of a router with model `v` after it receives `rules` from the
/// last to the first, rule `i` of `n` with priority `n - 1 - i`: earlier
/// rules rank higher.
pub open spec fn build_from(v: RouterView, rules: Seq<Rule>) -> RouterView
    decreases rules.len(),
{
    if rules.len() == 0 {
        v
    } else {
        build_from(v, rules.drop_first()).with_rule(rules[0], (rules.len() - 1) as usize)
    }
}

/// The model of the router built from `rules` alone.
pub open spec fn build(rules: Seq<Rule>) -> RouterView {
    build_from(RouterView::empty(), rules)
}

/// One of the names of `r` has label path `p`.
pub open spec fn names_path(r: Rule, p: Seq<Seq<char>>) -> bool {
    exists|i: int|
        0 <= i < r.pattern.names().len() && #[trigger] domain_path(r.pattern.names()[i]) == p
}

/// `r` is an exact rule restricted to a list of record types holding `rt`.
pub open spec fn exact_typed(r: Rule, rt: u16) -> bool {
    r.pattern is Domain && r.pattern.records() is Some && r.pattern.records()->0.contains(rt)
}

/// `r` is an exact rule for every record type.
pub open spec fn exact_untyped(r: Rule) -> bool {
    r.pattern is Domain && r.pattern.records() is None
}

/// `r` is a suffix rule restricted to a list of record types holding `rt`.
pub open spec fn suffix_typed(r: Rule, rt: u16) -> bool {
    r.pattern is Suffix && r.pattern.records() is Some && r.pattern.records()->0.contains(rt)
}

/// `r` is a suffix rule for every record type.
pub open spec fn suffix_untyped(r: Rule) -> bool {
    r.pattern is Suffix && r.pattern.records() is None
}

/// `r` is a suffix rule that applies to record type `rt`.
pub open spec fn suffix_for(r: Rule, rt: u16) -> bool {
    suffix_typed(r, rt) || suffix_untyped(r)
}

/// The position of the earliest rule satisfying `f`.
pub open spec fn first_rule(rules: Seq<Rule>, f: spec_fn(Rule) -> bool) -> Option<int>
    decreases rules.len(),
{
    if rules.len() == 0 {
        None
    } else if f(rules[0]) {
        Some(0)
    } else {
        match first_rule(rules.drop_first(), f) {
            Some(i) => Some(i + 1),
            None => None,
        }
    }
}

/// The largest `d <= i` such that a suffix rule for `rt` names `q[..d]`.
pub open spec fn suffix_depth(rules: Seq<Rule>, q: Seq<Seq<char>>, rt: u16, i: int) -> Option<int>
    decreases i + 1,
{
    if i < 0 {
        None
    } else if exists|j: int| 0 <= j < rules.len() && suffix_for(rules[j], rt) && names_path(rules[j], q.take(i)) {
        Some(i)
    } else {
        suffix_depth(rules, q, rt, i - 1)
    }
}

/// The upstream that the rule list assigns to a query with label path `q`
/// (last label first) and record type `rt`: the earliest exact rule for
/// `rt` naming `q`; else the earliest exact rule for all types naming `q`;
/// else, among the suffix rules that apply to `rt` and name a suffix of the
/// query, those naming the longest one, and of these the earliest.
pub open spec fn route(rules: Seq<Rule>, q: Seq<Seq<char>>, rt: u16) -> Option<Upstream> {
    match first_rule(rules, |r: Rule| exact_typed(r, rt) && names_path(r, q)) {
        Some(i) => Some(rules[i].upstream),
        None => match first_rule(rules, |r: Rule| exact_untyped(r) && names_path(r, q)) {
            Some(i) => Some(rules[i].upstream),
            None => match suffix_depth(rules, q, rt, q.len() as int) {
                Some(d) => match first_rule(rules, |r: Rule| suffix_for(r, rt) && names_path(r, q.take(d))) {
                    Some(i) => Some(rules[i].upstream),
                    None => None,
                },
                None => None,
            },
        },
    }
}

/// The entry that the rule list leaves in a table at `p`, where `f` says
/// which rules reach that table and name `p`.
pub open spec fn expected_entry(rules: Seq<Rule>, f: spec_fn(Rule) -> bool) -> Option<Matched> {
    match first_rule(rules, f) {
        Some(i) => Some(Matched { upstream: rules[i].upstream, priority: (rules.len() - 1 - i) as usize }),
        None => None,
    }
}

proof fn lemma_first_rule_bounds(rules: Seq<Rule>, f: spec_fn(Rule) -> bool)
    ensures
        first_rule(rules, f) matches Some(i) ==> 0 <= i < rules.len() && f(rules[i])
            && forall|j: int| 0 <= j < i ==> !f(#[trigger] rules[j]),
        first_rule(rules, f) is None ==> forall|j: int| 0 <= j < rules.len() ==> !f(#[trigger] rules[j]),
    decreases rules.len(),
{
    if rules.len() > 0 {
        lemma_first_rule_bounds(rules.drop_first(), f);
        assert forall|j: int| 1 <= j < rules.len() implies rules[j] == rules.drop_first()[j - 1] by {}
    }
}

/// A table of the model built from `rules`, selected by `sel`, holds at `p`
/// the earliest rule that reaches it (`pred`) and names `p`.
proof fn lemma_table_of_build(
    rules: Seq<Rule>,
    sel: spec_fn(RouterView) -> Map<Seq<Seq<char>>, Matched>,
    pred: spec_fn(Rule) -> bool,
    p: Seq<Seq<char>>,
)
    requires
        rules.len() <= usize::MAX,
        sel(RouterView::empty()) == Map::<Seq<Seq<char>>, Matched>::empty(),
        forall|v: RouterView, r: Rule, k: usize|
            v.total() ==> #[trigger] sel(v.with_rule(r, k)) == if pred(r) {
                insert_all(sel(v), r.pattern.names(), Matched { upstream: r.upstream, priority: k })
            } else {
                sel(v)
            },
    ensures
        build(rules).total(),
        get_in(sel(build(rules)), p) == expected_entry(rules, |r: Rule| pred(r) && names_path(r, p)),
    decreases rules.len(),
{
    let f = |r: Rule| pred(r) && names_path(r, p);
    if rules.len() == 0 {
    } else {
        let tail = rules.drop_first();
        lemma_table_of_build(tail, sel, pred, p);
        let bt = build(tail);
        let k = (rules.len() - 1) as usize;
        let r0 = rules[0];
        let m0 = Matched { upstream: r0.upstream, priority: k };
        assert(build(rules) == bt.with_rule(r0, k));
        assert(build(rules).total());
        assert(sel(build(rules)) == if pred(r0) { insert_all(sel(bt), r0.pattern.names(), m0) } else { sel(bt) });
        lemma_first_rule_bounds(tail, f);
        if pred(r0) {
            lemma_insert_all_get(sel(bt), r0.pattern.names(), m0, p);
        }
        match first_rule(tail, f) {
            Some(i) => {
                assert(rules[i + 1] == tail[i]);
            },
            None => {},
        }
    }
}

proof fn lemma_first_rule_or(
    rules: Seq<Rule>,
    f1: spec_fn(Rule) -> bool,
    f2: spec_fn(Rule) -> bool,
    g: spec_fn(Rule) -> bool,
)
    requires
        forall|r: Rule| #[trigger] g(r) == (f1(r) || f2(r)),
    ensures
        first_rule(rules, g) == match (first_rule(rules, f1), first_rule(rules, f2)) {
            (None, None) => None,
            (Some(a), None) => Some(a),
            (None, Some(b)) => Some(b),
            (Some(a), Some(b)) => Some(if a <= b { a } else { b }),
        },
    decreases rules.len(),
{
    if rules.len() > 0 {
        assert(g(rules[0]) == (f1(rules[0]) || f2(rules[0])));
        lemma_first_rule_or(rules.drop_first(), f1, f2, g);
        lemma_first_rule_bounds(rules, f1);
        lemma_first_rule_bounds(rules, f2);
    }
}

proof fn lemma_first_rule_ext(rules: Seq<Rule>, f: spec_fn(Rule) -> bool, g: spec_fn(Rule) -> bool)
    requires
        forall|r: Rule| #[trigger] f(r) == g(r),
    ensures
        first_rule(rules, f) == first_rule(rules, g),
    decreases rules.len(),
{
    if rules.len() > 0 {
        assert(f(rules[0]) == g(rules[0]));
        lemma_first_rule_ext(rules.drop_first(), f, g);
    }
}

/// Where the deepest entry along `q` lies, and that none lies deeper.
proof fn lemma_deepest_facts(t: Map<Seq<Seq<char>>, Matched>, q: Seq<Seq<char>>, i: int)
    ensures
        deepest_in(t, q, i) matches Some(x) ==> 0 <= x.1 <= i && t.contains_key(q.take(x.1))
            && x.0 == t[q.take(x.1)] && forall|k: int|
            x.1 < k <= i ==> !t.contains_key(#[trigger] q.take(k)),
        deepest_in(t, q, i) is None ==> forall|k: int| 0 <= k <= i ==> !t.contains_key(#[trigger] q.take(k)),
    decreases i + 1,
{
    if i >= 0 {
        lemma_deepest_facts(t, q, i - 1);
    }
}

/// Some suffix rule for `rt` names `p`.
pub open spec fn some_suffix_rule(rules: Seq<Rule>, p: Seq<Seq<char>>, rt: u16) -> bool {
    exists|j: int| 0 <= j < rules.len() && suffix_for(rules[j], rt) && names_path(rules[j], p)
}

proof fn lemma_suffix_depth_facts(rules: Seq<Rule>, q: Seq<Seq<char>>, rt: u16, i: int)
    ensures
        suffix_depth(rules, q, rt, i) matches Some(d) ==> 0 <= d <= i && some_suffix_rule(rules, q.take(d), rt)
            && forall|k: int| d < k <= i ==> !some_suffix_rule(rules, #[trigger] q.take(k), rt),
        suffix_depth(rules, q, rt, i) is None ==> forall|k: int|
            0 <= k <= i ==> !some_suffix_rule(rules, #[trigger] q.take(k), rt),
    decreases i + 1,
{
    if i >= 0 {
        lemma_suffix_depth_facts(rules, q, rt, i - 1);
    }
}

proof fn lemma_first_rule_exists(rules: Seq<Rule>, f: spec_fn(Rule) -> bool, j: int)
    requires
        0 <= j < rules.len(),
        f(rules[j]),
    ensures
        first_rule(rules, f) is Some,
{
    lemma_first_rule_bounds(rules, f);
}

/// The four tables of the model built from `rules`, each at `p`.
proof fn lemma_tables_of_build(rules: Seq<Rule>, p: Seq<Seq<char>>, rt: u16)
    requires
        rules.len() <= usize::MAX,
    ensures
        build(rules).total(),
        get_in(build(rules).exact, p) == expected_entry(rules, |r: Rule| exact_untyped(r) && names_path(r, p)),
        get_in(build(rules).suffix, p) == expected_entry(rules, |r: Rule| suffix_untyped(r) && names_path(r, p)),
        get_in(build(rules).exact_by_record[rt], p) == expected_entry(
            rules,
            |r: Rule| exact_typed(r, rt) && names_path(r, p),
        ),
        get_in(build(rules).suffix_by_record[rt], p) == expected_entry(
            rules,
            |r: Rule| suffix_typed(r, rt) && names_path(r, p),
        ),
{
    let s1 = |v: RouterView| v.exact;
    let p1 = |r: Rule| exact_untyped(r);
    assert forall|v: RouterView, r: Rule, k: usize| v.total() implies #[trigger] s1(v.with_rule(r, k)) == if p1(r) {
        insert_all(s1(v), r.pattern.names(), Matched { upstream: r.upstream, priority: k })
    } else {
        s1(v)
    } by {}
    lemma_table_of_build(rules, s1, p1, p);
    lemma_first_rule_ext(rules, |r: Rule| p1(r) && names_path(r, p), |r: Rule| exact_untyped(r) && names_path(r, p));
    let s2 = |v: RouterView| v.suffix;
    let p2 = |r: Rule| suffix_untyped(r);
    assert forall|v: RouterView, r: Rule, k: usize| v.total() implies #[trigger] s2(v.with_rule(r, k)) == if p2(r) {
        insert_all(s2(v), r.pattern.names(), Matched { upstream: r.upstream, priority: k })
    } else {
        s2(v)
    } by {}
    lemma_table_of_build(rules, s2, p2, p);
    lemma_first_rule_ext(rules, |r: Rule| p2(r) && names_path(r, p), |r: Rule| suffix_untyped(r) && names_path(r, p));
    let s3 = |v: RouterView| v.exact_by_record[rt];
    let p3 = |r: Rule| exact_typed(r, rt);
    assert forall|v: RouterView, r: Rule, k: usize| v.total() implies #[trigger] s3(v.with_rule(r, k)) == if p3(r) {
        insert_all(s3(v), r.pattern.names(), Matched { upstream: r.upstream, priority: k })
    } else {
        s3(v)
    } by {
        assert(v.exact_by_record.contains_key(rt));
    }
    lemma_table_of_build(rules, s3, p3, p);
    lemma_first_rule_ext(rules, |r: Rule| p3(r) && names_path(r, p), |r: Rule| exact_typed(r, rt) && names_path(r, p));
    let s4 = |v: RouterView| v.suffix_by_record[rt];
    let p4 = |r: Rule| suffix_typed(r, rt);
    assert forall|v: RouterView, r: Rule, k: usize| v.total() implies #[trigger] s4(v.with_rule(r, k)) == if p4(r) {
        insert_all(s4(v), r.pattern.names(), Matched { upstream: r.upstream, priority: k })
    } else {
        s4(v)
    } by {
        assert(v.suffix_by_record.contains_key(rt));
    }
    lemma_table_of_build(rules, s4, p4, p);
    lemma_first_rule_ext(rules, |r: Rule| p4(r) && names_path(r, p), |r: Rule| suffix_typed(r, rt) && names_path(r, p));
}

/// Both suffix tables of the model built from `rules` at `p`.
proof fn lemma_suffix_tables(rules: Seq<Rule>, p: Seq<Seq<char>>, rt: u16)
    requires
        rules.len() <= usize::MAX,
    ensures
        build(rules).total(),
        (build(rules).suffix_by_record[rt].contains_key(p) || build(rules).suffix.contains_key(p))
            == some_suffix_rule(rules, p, rt),
{
    lemma_tables_of_build(rules, p, rt);
    let f1 = |r: Rule| suffix_typed(r, rt) && names_path(r, p);
    let f2 = |r: Rule| suffix_untyped(r) && names_path(r, p);
    lemma_first_rule_bounds(rules, f1);
    lemma_first_rule_bounds(rules, f2);
    if some_suffix_rule(rules, p, rt) {
        let j = choose|j: int| 0 <= j < rules.len() && suffix_for(rules[j], rt) && names_path(rules[j], p);
        if suffix_typed(rules[j], rt) {
            lemma_first_rule_exists(rules, f1, j);
        } else {
            lemma_first_rule_exists(rules, f2, j);
        }
    }
}

/// The router built from a rule list answers every query as the rule list
/// prescribes.
pub proof fn theorem_build_routes(rules: Seq<Rule>, q: Seq<Seq<char>>, rt: u16)
    requires
        rules.len() <= usize::MAX,
    ensures
        build(rules).search(q, rt) == route(rules, q, rt),
{
    let v = build(rules);
    let n = q.len() as int;
    lemma_tables_of_build(rules, q, rt);
    let fa = |r: Rule| exact_typed(r, rt) && names_path(r, q);
    let fb = |r: Rule| exact_untyped(r) && names_path(r, q);
    lemma_first_rule_bounds(rules, fa);
    lemma_first_rule_bounds(rules, fb);
    if first_rule(rules, fa) is Some || first_rule(rules, fb) is Some {
        return;
    }
    let t1 = v.suffix_by_record[rt];
    let t2 = v.suffix;
    assert forall|k: int| (t1.contains_key(#[trigger] q.take(k)) || t2.contains_key(q.take(k)))
        == some_suffix_rule(rules, q.take(k), rt) by {
        lemma_suffix_tables(rules, q.take(k), rt);
    }
    lemma_deepest_facts(t1, q, n);
    lemma_deepest_facts(t2, q, n);
    lemma_suffix_depth_facts(rules, q, rt, n);
    let x1 = deepest_in(t1, q, n);
    let x2 = deepest_in(t2, q, n);
    match suffix_depth(rules, q, rt, n) {
        None => {
            if x1 is Some {
                assert(t1.contains_key(q.take((x1->0).1)));
            }
            if x2 is Some {
                assert(t2.contains_key(q.take((x2->0).1)));
            }
        },
        Some(d) => {
            let p = q.take(d);
            assert(t1.contains_key(p) || t2.contains_key(p));
            if x1 is Some {
                assert(t1.contains_key(q.take((x1->0).1)));
            }
            if x2 is Some {
                assert(t2.contains_key(q.take((x2->0).1)));
            }
            lemma_tables_of_build(rules, p, rt);
            let f1 = |r: Rule| suffix_typed(r, rt) && names_path(r, p);
            let f2 = |r: Rule| suffix_untyped(r) && names_path(r, p);
            let g = |r: Rule| suffix_for(r, rt) && names_path(r, p);
            lemma_first_rule_or(rules, f1, f2, g);
            lemma_first_rule_bounds(rules, f1);
            lemma_first_rule_bounds(rules, f2);
            if x1 is Some && x2 is Some {
                let i1 = first_rule(rules, f1);
                let i2 = first_rule(rules, f2);
                if (x1->0).1 == d && (x2->0).1 == d {
                    let a = i1->0;
                    let b = i2->0;
                    assert(a != b);
                }
            }
        },
    }
}

/// An exact rule that applies to record type `rt`.
pub open spec fn exact_for(r: Rule, rt: u16) -> bool {
    exact_typed(r, rt) || exact_untyped(r)
}

/// Exact rules dominate suffix rules: when an exact rule that applies to
/// `rt` names `q`, the answer is the upstream of an exact rule that applies
/// to `rt` and names `q`, whatever suffix rules also match; when rule `i` is
/// the only such rule, the answer is its upstream.
pub proof fn law_exact_dominates_suffix(rules: Seq<Rule>, i: int, j: int, d: int, q: Seq<Seq<char>>, rt: u16)
    requires
        rules.len() <= usize::MAX,
        0 <= i < rules.len(),
        exact_for(rules[i], rt),
        names_path(rules[i], q),
        0 <= j < rules.len(),
        suffix_for(rules[j], rt),
        0 <= d <= q.len(),
        names_path(rules[j], q.take(d)),
    ensures
        exists|k: int|
            0 <= k < rules.len() && exact_for(rules[k], rt) && names_path(rules[k], q)
                && build(rules).search(q, rt) == Some(#[trigger] rules[k].upstream),
        (forall|k: int| 0 <= k < rules.len() && k != i ==> !(exact_for(#[trigger] rules[k], rt) && names_path(rules[k], q)))
            ==> build(rules).search(q, rt) == Some(rules[i].upstream),
{
    theorem_build_routes(rules, q, rt);
    let fa = |r: Rule| exact_typed(r, rt) && names_path(r, q);
    let fb = |r: Rule| exact_untyped(r) && names_path(r, q);
    lemma_first_rule_bounds(rules, fa);
    lemma_first_rule_bounds(rules, fb);
    if exact_typed(rules[i], rt) {
        lemma_first_rule_exists(rules, fa, i);
    } else if first_rule(rules, fa) is None {
        lemma_first_rule_exists(rules, fb, i);
    }
}

/// Record-typed exact rules dominate untyped ones: when an exact rule for
/// `rt` names `q`, the answer is the upstream of the earliest such rule.
pub proof fn law_typed_exact_dominates_untyped(rules: Seq<Rule>, i: int, q: Seq<Seq<char>>, rt: u16)
    requires
        rules.len() <= usize::MAX,
        0 <= i < rules.len(),
        exact_typed(rules[i], rt),
        names_path(rules[i], q),
    ensures
        exists|k: int|
            0 <= k <= i && exact_typed(rules[k], rt) && names_path(rules[k], q)
                && (forall|j: int| 0 <= j < k ==> !(exact_typed(#[trigger] rules[j], rt) && names_path(rules[j], q)))
                && build(rules).search(q, rt) == Some(#[trigger] rules[k].upstream),
{
    theorem_build_routes(rules, q, rt);
    let fa = |r: Rule| exact_typed(r, rt) && names_path(r, q);
    lemma_first_rule_bounds(rules, fa);
    lemma_first_rule_exists(rules, fa, i);
    let k = first_rule(rules, fa)->0;
    assert(forall|j: int| 0 <= j < k ==> !fa(#[trigger] rules[j]));
}

/// The longest suffix wins: when no exact rule for `rt` names `q` and the
/// longest suffix of the query named by a suffix rule for `rt` is `q[..d]`,
/// the answer is the upstream of a suffix rule for `rt` naming `q[..d]`.
pub proof fn law_longest_suffix_wins(rules: Seq<Rule>, i: int, d: int, q: Seq<Seq<char>>, rt: u16)
    requires
        rules.len() <= usize::MAX,
        forall|k: int| 0 <= k < rules.len() ==> !(exact_for(#[trigger] rules[k], rt) && names_path(rules[k], q)),
        0 <= i < rules.len(),
        0 <= d <= q.len(),
        suffix_for(rules[i], rt),
        names_path(rules[i], q.take(d)),
        forall|k: int| d < k <= q.len() ==> !some_suffix_rule(rules, #[trigger] q.take(k), rt),
    ensures
        exists|k: int|
            0 <= k < rules.len() && suffix_for(rules[k], rt) && names_path(rules[k], q.take(d))
                && build(rules).search(q, rt) == Some(#[trigger] rules[k].upstream),
{
    theorem_build_routes(rules, q, rt);
    let fa = |r: Rule| exact_typed(r, rt) && names_path(r, q);
    let fb = |r: Rule| exact_untyped(r) && names_path(r, q);
    lemma_first_rule_bounds(rules, fa);
    lemma_first_rule_bounds(rules, fb);
    lemma_suffix_depth_facts(rules, q, rt, q.len() as int);
    assert(some_suffix_rule(rules, q.take(d), rt));
    let g = |r: Rule| suffix_for(r, rt) && names_path(r, q.take(d));
    lemma_first_rule_bounds(rules, g);
    lemma_first_rule_exists(rules, g, i);
}

/// At equal depth the earlier rule wins: when the deepest suffix of the
/// query named by a record-typed suffix rule for `rt` and by an untyped
/// suffix rule is the same `q[..d]`, and `i` and `j` are the earliest such
/// rules, the answer is the upstream of the one declared first.
pub proof fn law_suffix_tie_goes_to_earlier(rules: Seq<Rule>, i: int, j: int, d: int, q: Seq<Seq<char>>, rt: u16)
    requires
        rules.len() <= usize::MAX,
        forall|k: int| 0 <= k < rules.len() ==> !(exact_for(#[trigger] rules[k], rt) && names_path(rules[k], q)),
        0 <= d <= q.len(),
        0 <= i < rules.len(),
        suffix_typed(rules[i], rt),
        names_path(rules[i], q.take(d)),
        forall|k: int| 0 <= k < i ==> !(suffix_typed(#[trigger] rules[k], rt) && names_path(rules[k], q.take(d))),
        0 <= j < rules.len(),
        suffix_untyped(rules[j]),
        names_path(rules[j], q.take(d)),
        forall|k: int| 0 <= k < j ==> !(suffix_untyped(#[trigger] rules[k]) && names_path(rules[k], q.take(d))),
        forall|k: int| d < k <= q.len() ==> !some_suffix_rule(rules, #[trigger] q.take(k), rt),
    ensures
        build(rules).search(q, rt) == Some(if i < j { rules[i].upstream } else { rules[j].upstream }),
{
    theorem_build_routes(rules, q, rt);
    let fa = |r: Rule| exact_typed(r, rt) && names_path(r, q);
    let fb = |r: Rule| exact_untyped(r) && names_path(r, q);
    lemma_first_rule_bounds(rules, fa);
    lemma_first_rule_bounds(rules, fb);
    lemma_suffix_depth_facts(rules, q, rt, q.len() as int);
    assert(some_suffix_rule(rules, q.take(d), rt));
    let p = q.take(d);
    let f1 = |r: Rule| suffix_typed(r, rt) && names_path(r, p);
    let f2 = |r: Rule| suffix_untyped(r) && names_path(r, p);
    let g = |r: Rule| suffix_for(r, rt) && names_path(r, p);
    lemma_first_rule_or(rules, f1, f2, g);
    lemma_first_rule_bounds(rules, f1);
    lemma_first_rule_bounds(rules, f2);
    lemma_first_rule_exists(rules, f1, i);
    lemma_first_rule_exists(rules, f2, j);
    assert(i != j);
}

/// Building twice from the same rules gives routers that answer every query
/// alike: each answers as the rule list prescribes.
pub proof fn law_build_deterministic(a: RouterView, b: RouterView, rules: Seq<Rule>, q: Seq<Seq<char>>, rt: u16)
    requires
        rules.len() <= usize::MAX,
        a == build(rules),
        b == build(rules),
    ensures
        a.search(q, rt) == b.search(q, rt),
        a.search(q, rt) == route(rules, q, rt),
{
    theorem_build_routes(rules, q, rt);
}

} // verus!
