//! Cascade resolution: which declarations of a stylesheet apply to an element,
//! and in which order they are layered into a property map.
use vstd::prelude::*;

use crate::css::{Declaration, Rule, Selector, SimpleSelector, Specificity, Stylesheet, Value,
    spec_le, specificity_of, specificity_le};
use crate::dom::{ElementData, class_names, views};
use crate::strmap::{StrMap, str_eq};

verus! {

/// Property names to values.
pub type PropertyMap = StrMap<Value>;

/// Lexicographic `a < b` on specificities.
pub open spec fn spec_lt(a: Specificity, b: Specificity) -> bool {
    !spec_le(b, a)
}

/// Whether a simple selector matches an element: every constraint it has holds.
pub open spec fn simple_matches(e: ElementData, s: SimpleSelector) -> bool {
    &&& (s.tag_name is None || s.tag_name->0@ == e.tag_name@)
    &&& (s.id is None || (e.attrs@.contains_key("id"@) && e.attrs@["id"@]@ == s.id->0@))
    &&& forall|j: int| 0 <= j < s.class@.len() ==> class_names(e.attrs@).contains(#[trigger] s.class@[j]@)
}

pub open spec fn selector_matches(e: ElementData, sel: Selector) -> bool {
    match sel {
        Selector::Simple(s) => simple_matches(e, s),
    }
}

/// The specificity of the first selector at or after `i` that matches `e`.
pub open spec fn first_match_from(e: ElementData, sels: Seq<Selector>, i: int) -> Option<Specificity>
    decreases sels.len() - i,
{
    if i < 0 || i >= sels.len() {
        None
    } else if selector_matches(e, sels[i]) {
        Some(specificity_of(sels[i]))
    } else {
        first_match_from(e, sels, i + 1)
    }
}

/// The specificity with which a rule matches an element: that of its first
/// matching selector; `None` when none matches.
pub open spec fn rule_rank(e: ElementData, rule: Rule) -> Option<Specificity> {
    first_match_from(e, rule.selectors@, 0)
}

/// Order of matched rules: by specificity, then by position in the sheet.
pub open spec fn key_lt(a: (Specificity, usize), b: (Specificity, usize)) -> bool {
    spec_lt(a.0, b.0) || (a.0 == b.0 && a.1 < b.1)
}

/// `l` with `x` inserted after every entry whose specificity is not above `x`'s.
pub open spec fn insert_ranked(l: Seq<(Specificity, usize)>, x: (Specificity, usize)) -> Seq<(Specificity, usize)>
    decreases l.len(),
{
    if l.len() == 0 {
        seq![x]
    } else if spec_lt(x.0, l.last().0) {
        insert_ranked(l.drop_last(), x).push(l.last())
    } else {
        l.push(x)
    }
}

/// The rules that match `e`, in source order, as (specificity, index) pairs.
pub open spec fn matches_in(e: ElementData, rules: Seq<Rule>) -> Seq<(Specificity, usize)>
    decreases rules.len(),
{
    if rules.len() == 0 {
        Seq::empty()
    } else {
        let pre = matches_in(e, rules.drop_last());
        match rule_rank(e, rules.last()) {
            Some(s) => pre.push((s, (rules.len() - 1) as usize)),
            None => pre,
        }
    }
}

/// `l` stably sorted by specificity: each entry inserted in turn after every
/// entry whose specificity is not above its own.
pub open spec fn sort_ranked(l: Seq<(Specificity, usize)>) -> Seq<(Specificity, usize)>
    decreases l.len(),
{
    if l.len() == 0 {
        Seq::empty()
    } else {
        insert_ranked(sort_ranked(l.drop_last()), l.last())
    }
}

/// The rules that match `e`, as (specificity, index) pairs, stably sorted by
/// specificity.
pub open spec fn ranked(e: ElementData, rules: Seq<Rule>) -> Seq<(Specificity, usize)> {
    sort_ranked(matches_in(e, rules))
}

proof fn lemma_ranked_step(e: ElementData, rules: Seq<Rule>)
    requires
        rules.len() > 0,
    ensures
        ranked(e, rules) == match rule_rank(e, rules.last()) {
            Some(s) => insert_ranked(ranked(e, rules.drop_last()), (s, (rules.len() - 1) as usize)),
            None => ranked(e, rules.drop_last()),
        },
{
    let pre = matches_in(e, rules.drop_last());
    if let Some(s) = rule_rank(e, rules.last()) {
        let x = (s, (rules.len() - 1) as usize);
        assert(pre.push(x).drop_last() =~= pre);
    }
}

/// Shifts the rule indices of `l` by `n`.
pub open spec fn shifted(l: Seq<(Specificity, usize)>, n: int) -> Seq<(Specificity, usize)> {
    l.map_values(|x: (Specificity, usize)| (x.0, (x.1 + n) as usize))
}

/// Matching against sheet `a` followed by sheet `b` finds the matches in `a`,
/// then those in `b` with their indices moved past `a`'s rules, in order.
pub proof fn lemma_matches_concat(e: ElementData, a: Seq<Rule>, b: Seq<Rule>)
    requires
        a.len() + b.len() <= usize::MAX,
    ensures
        matches_in(e, a + b) == matches_in(e, a) + shifted(matches_in(e, b), a.len() as int),
    decreases b.len(),
{
    if b.len() == 0 {
        assert(a + b =~= a);
        assert(shifted(matches_in(e, b), a.len() as int) =~= Seq::<(Specificity, usize)>::empty());
        assert(matches_in(e, a) + Seq::<(Specificity, usize)>::empty() =~= matches_in(e, a));
    } else {
        let b0 = b.drop_last();
        lemma_matches_concat(e, a, b0);
        assert((a + b).drop_last() =~= a + b0);
        assert((a + b).last() == b.last());
        let m0 = matches_in(e, b0);
        if let Some(s) = rule_rank(e, b.last()) {
            let x = (s, (b.len() - 1) as usize);
            assert(shifted(m0.push(x), a.len() as int) =~= shifted(m0, a.len() as int).push(
                (s, (a.len() + b.len() - 1) as usize)));
            assert(matches_in(e, a) + shifted(m0, a.len() as int).push((s, (a.len() + b.len() - 1) as usize))
                =~= (matches_in(e, a) + shifted(m0, a.len() as int)).push((s, (a.len() + b.len() - 1) as usize)));
        }
    }
}

/// The property map after applying one declaration to `m`. `margin` with two
/// to four values sets the four sides; with one it sets `margin` itself.
pub open spec fn decl_effect(m: Map<Seq<char>, Value>, d: Declaration) -> Map<Seq<char>, Value> {
    let v = d.values@;
    if v.len() == 0 {
        m
    } else if d.name@ == "margin"@ {
        if v.len() == 1 {
            m.insert("margin"@, v[0])
        } else if v.len() == 2 {
            m.insert("margin-top"@, v[0]).insert("margin-bottom"@, v[0]).insert(
                "margin-left"@, v[1]).insert("margin-right"@, v[1])
        } else if v.len() == 3 {
            m.insert("margin-top"@, v[0]).insert("margin-bottom"@, v[1]).insert(
                "margin-left"@, v[1]).insert("margin-right"@, v[2])
        } else if v.len() == 4 {
            m.insert("margin-top"@, v[0]).insert("margin-bottom"@, v[1]).insert(
                "margin-left"@, v[2]).insert("margin-right"@, v[3])
        } else {
            m
        }
    } else {
        m.insert(d.name@, v[0])
    }
}

/// The property map after applying declarations `ds` to `m`, in order.
pub open spec fn decls_effect(m: Map<Seq<char>, Value>, ds: Seq<Declaration>) -> Map<Seq<char>, Value>
    decreases ds.len(),
{
    if ds.len() == 0 {
        m
    } else {
        decl_effect(decls_effect(m, ds.drop_last()), ds.last())
    }
}

/// What a rule alone sets.
pub open spec fn rule_map(rule: Rule) -> Map<Seq<char>, Value> {
    decls_effect(Map::empty(), rule.declarations@)
}

/// The property map after layering the rules named by `l`, in order.
pub open spec fn layer(rules: Seq<Rule>, l: Seq<(Specificity, usize)>) -> Map<Seq<char>, Value>
    decreases l.len(),
{
    if l.len() == 0 {
        Map::empty()
    } else {
        layer(rules, l.drop_last()).union_prefer_right(rule_map(rules[l.last().1 as int]))
    }
}

/// The declared values of an element: the matching rules layered from lowest
/// to highest specificity, later rules last among equals.
pub open spec fn cascade(e: ElementData, rules: Seq<Rule>) -> Map<Seq<char>, Value> {
    layer(rules, ranked(e, rules))
}

proof fn lemma_decl_effect_union(m: Map<Seq<char>, Value>, x: Map<Seq<char>, Value>, d: Declaration)
    ensures
        decl_effect(m.union_prefer_right(x), d) == m.union_prefer_right(decl_effect(x, d)),
{
    assert(decl_effect(m.union_prefer_right(x), d) =~= m.union_prefer_right(decl_effect(x, d)));
}

proof fn lemma_insert_ranked_at(l: Seq<(Specificity, usize)>, x: (Specificity, usize), p: int)
    requires
        0 <= p <= l.len(),
        forall|q: int| p <= q < l.len() ==> spec_lt(x.0, (#[trigger] l[q]).0),
        p == 0 || !spec_lt(x.0, l[p - 1].0),
    ensures
        insert_ranked(l, x) == l.insert(p, x),
    decreases l.len(),
{
    if l.len() == 0 {
        assert(l.insert(p, x) =~= seq![x]);
    } else if p == l.len() {
        assert(l.insert(p, x) =~= l.push(x));
    } else {
        assert(spec_lt(x.0, l[l.len() - 1].0));
        lemma_insert_ranked_at(l.drop_last(), x, p);
        assert(l.drop_last().insert(p, x).push(l.last()) =~= l.insert(p, x));
    }
}

/// Some position at which `insert_ranked` places `x`.
proof fn lemma_insert_ranked_pos(l: Seq<(Specificity, usize)>, x: (Specificity, usize)) -> (p: int)
    ensures
        0 <= p <= l.len(),
        forall|q: int| p <= q < l.len() ==> spec_lt(x.0, (#[trigger] l[q]).0),
        p == 0 || !spec_lt(x.0, l[p - 1].0),
        insert_ranked(l, x) == l.insert(p, x),
    decreases l.len(),
{
    if l.len() == 0 || !spec_lt(x.0, l.last().0) {
        let p = l.len() as int;
        lemma_insert_ranked_at(l, x, p);
        p
    } else {
        let p = lemma_insert_ranked_pos(l.drop_last(), x);
        assert forall|q: int| p <= q < l.len() implies spec_lt(x.0, (#[trigger] l[q]).0) by {
            if q < l.len() - 1 {
                assert(l[q] == l.drop_last()[q]);
            }
        }
        if p > 0 {
            assert(l[p - 1] == l.drop_last()[p - 1]);
        }
        lemma_insert_ranked_at(l, x, p);
        p
    }
}

/// Every entry of `l` names a rule of `rules` that matches `e`, with the
/// specificity of that match.
pub open spec fn ranked_sound(e: ElementData, rules: Seq<Rule>, l: Seq<(Specificity, usize)>) -> bool {
    forall|q: int| 0 <= q < l.len() ==> (#[trigger] l[q]).1 < rules.len()
        && rule_rank(e, rules[l[q].1 as int]) == Some(l[q].0)
}

/// Every rule of `rules` that matches `e` has an entry in `l`.
pub open spec fn ranked_complete(e: ElementData, rules: Seq<Rule>, l: Seq<(Specificity, usize)>) -> bool {
    forall|i: int| 0 <= i < rules.len() && (#[trigger] rule_rank(e, rules[i])) is Some
        ==> exists|q: int| 0 <= q < l.len() && (#[trigger] l[q]).1 == i
}

/// `l` is strictly increasing in (specificity, index) order.
pub open spec fn ranked_sorted(l: Seq<(Specificity, usize)>) -> bool {
    forall|a: int, b: int| 0 <= a < b < l.len() ==> key_lt(#[trigger] l[a], #[trigger] l[b])
}

proof fn lemma_ranked(e: ElementData, rules: Seq<Rule>)
    requires
        rules.len() <= usize::MAX,
    ensures
        ranked_sound(e, rules, ranked(e, rules)),
        ranked_complete(e, rules, ranked(e, rules)),
        ranked_sorted(ranked(e, rules)),
    decreases rules.len(),
{
    if rules.len() > 0 {
        let pre_rules = rules.drop_last();
        let pre = ranked(e, pre_rules);
        lemma_ranked(e, pre_rules);
        lemma_ranked_step(e, rules);
        let n = rules.len() - 1;
        assert forall|i: int| 0 <= i < n implies rules[i] == #[trigger] pre_rules[i] by {}
        match rule_rank(e, rules.last()) {
            Some(s) => {
                let x = (s, n as usize);
                let p = lemma_insert_ranked_pos(pre, x);
                let l = pre.insert(p, x);
                assert(ranked(e, rules) == l);
                assert forall|q: int| 0 <= q < l.len() implies (#[trigger] l[q]).1 < rules.len()
                    && rule_rank(e, rules[l[q].1 as int]) == Some(l[q].0) by {
                    if q < p {
                        assert(l[q] == pre[q]);
                    } else if q > p {
                        assert(l[q] == pre[q - 1]);
                    }
                }
                assert forall|i: int| 0 <= i < rules.len() && (#[trigger] rule_rank(e, rules[i])) is Some
                    implies exists|q: int| 0 <= q < l.len() && (#[trigger] l[q]).1 == i by {
                    if i == n {
                        assert(l[p].1 == i);
                    } else {
                        assert(rule_rank(e, pre_rules[i]) is Some);
                        let q = choose|q: int| 0 <= q < pre.len() && (#[trigger] pre[q]).1 == i;
                        if q < p {
                            assert(l[q] == pre[q]);
                        } else {
                            assert(l[q + 1] == pre[q]);
                        }
                    }
                }
                assert forall|a: int, b: int| 0 <= a < b < l.len() implies key_lt(#[trigger] l[a], #[trigger] l[b]) by {
                    if b < p {
                        assert(l[a] == pre[a] && l[b] == pre[b]);
                    } else if a > p {
                        assert(l[a] == pre[a - 1] && l[b] == pre[b - 1]);
                    } else if a < p && b > p {
                        assert(l[a] == pre[a] && l[b] == pre[b - 1]);
                    } else if a == p {
                        assert(l[b] == pre[b - 1]);
                    } else {
                        assert(l[a] == pre[a]);
                        if a < p - 1 {
                            assert(key_lt(pre[a], pre[p - 1]));
                        }
                    }
                }
            },
            None => {
                assert forall|i: int| 0 <= i < rules.len() && (#[trigger] rule_rank(e, rules[i])) is Some
                    implies exists|q: int| 0 <= q < pre.len() && (#[trigger] pre[q]).1 == i by {
                    assert(rule_rank(e, pre_rules[i]) is Some);
                }
            },
        }
    }
}

/// Whether the rule at position `q` of `l` sets property `k`.
pub open spec fn entry_sets(rules: Seq<Rule>, l: Seq<(Specificity, usize)>, q: int, k: Seq<char>) -> bool {
    rule_map(rules[l[q].1 as int]).contains_key(k)
}

proof fn lemma_layer(rules: Seq<Rule>, l: Seq<(Specificity, usize)>, k: Seq<char>)
    ensures
        layer(rules, l).contains_key(k) <==> exists|q: int| 0 <= q < l.len() && #[trigger] entry_sets(rules, l, q, k),
        forall|q: int| 0 <= q < l.len() && #[trigger] entry_sets(rules, l, q, k)
            && (forall|q2: int| q < q2 < l.len() ==> !#[trigger] entry_sets(rules, l, q2, k))
            ==> layer(rules, l)[k] == rule_map(rules[l[q].1 as int])[k],
    decreases l.len(),
{
    if l.len() > 0 {
        let pre = l.drop_last();
        lemma_layer(rules, pre, k);
        assert forall|q: int| 0 <= q < pre.len() implies #[trigger] entry_sets(rules, pre, q, k) == entry_sets(rules, l, q, k) by {
            assert(pre[q] == l[q]);
        }
        if layer(rules, l).contains_key(k) && !rule_map(rules[l.last().1 as int]).contains_key(k) {
            let q = choose|q: int| 0 <= q < pre.len() && #[trigger] entry_sets(rules, pre, q, k);
            assert(entry_sets(rules, l, q, k));
        }
        if rule_map(rules[l.last().1 as int]).contains_key(k) {
            assert(entry_sets(rules, l, l.len() - 1, k));
        }
        if exists|q: int| 0 <= q < l.len() && #[trigger] entry_sets(rules, l, q, k) {
            let q = choose|q: int| 0 <= q < l.len() && #[trigger] entry_sets(rules, l, q, k);
            if q < l.len() - 1 {
                assert(entry_sets(rules, pre, q, k));
            }
        }
        assert forall|q: int| 0 <= q < l.len() && #[trigger] entry_sets(rules, l, q, k)
            && (forall|q2: int| q < q2 < l.len() ==> !#[trigger] entry_sets(rules, l, q2, k))
            implies layer(rules, l)[k] == rule_map(rules[l[q].1 as int])[k] by {
            if q < l.len() - 1 {
                assert(!entry_sets(rules, l, l.len() - 1, k));
                assert(entry_sets(rules, pre, q, k));
                assert forall|q2: int| q < q2 < pre.len() implies !#[trigger] entry_sets(rules, pre, q2, k) by {
                    assert(!entry_sets(rules, l, q2, k));
                }
            }
        }
    }
}

/// Rule `i` of `rules` matches `e` and sets property `k`.
pub open spec fn sets(e: ElementData, rules: Seq<Rule>, i: int, k: Seq<char>) -> bool {
    0 <= i < rules.len() && rule_rank(e, rules[i]) is Some && rule_map(rules[i]).contains_key(k)
}

/// Matching rule `j` ranks below matching rule `i`: lower specificity, or
/// equal specificity and earlier in the sheet.
pub open spec fn ranks_below(e: ElementData, rules: Seq<Rule>, j: int, i: int) -> bool {
    key_lt((rule_rank(e, rules[j])->0, j as usize), (rule_rank(e, rules[i])->0, i as usize))
}

/// For every element, rule set and property: the property is declared exactly
/// when a matching rule sets it, and then it has the value from the matching
/// rule with the highest specificity, the later one in the sheet among rules
/// of equal specificity.
pub proof fn lemma_highest_specificity_wins(e: ElementData, rules: Seq<Rule>, k: Seq<char>)
    requires
        rules.len() <= usize::MAX,
    ensures
        cascade(e, rules).contains_key(k) <==> exists|i: int| sets(e, rules, i, k),
        forall|i: int| #[trigger] sets(e, rules, i, k)
            && (forall|j: int| sets(e, rules, j, k) && j != i ==> ranks_below(e, rules, j, i))
            ==> cascade(e, rules)[k] == rule_map(rules[i])[k],
{
    let l = ranked(e, rules);
    lemma_ranked(e, rules);
    lemma_layer(rules, l, k);
    if cascade(e, rules).contains_key(k) {
        let q = choose|q: int| 0 <= q < l.len() && #[trigger] entry_sets(rules, l, q, k);
        assert(sets(e, rules, l[q].1 as int, k));
    }
    if exists|i: int| sets(e, rules, i, k) {
        let i = choose|i: int| sets(e, rules, i, k);
        assert(rule_rank(e, rules[i]) is Some);
        let q = choose|q: int| 0 <= q < l.len() && (#[trigger] l[q]).1 == i;
        assert(entry_sets(rules, l, q, k));
    }
    assert forall|i: int| #[trigger] sets(e, rules, i, k)
        && (forall|j: int| sets(e, rules, j, k) && j != i ==> ranks_below(e, rules, j, i))
        implies cascade(e, rules)[k] == rule_map(rules[i])[k] by {
        assert(rule_rank(e, rules[i]) is Some);
        let q = choose|q: int| 0 <= q < l.len() && (#[trigger] l[q]).1 == i;
        assert(entry_sets(rules, l, q, k));
        assert forall|q2: int| q < q2 < l.len() implies !#[trigger] entry_sets(rules, l, q2, k) by {
            assert(key_lt(l[q], l[q2]));
            let j = l[q2].1 as int;
            if entry_sets(rules, l, q2, k) {
                assert(sets(e, rules, j, k));
                assert(ranks_below(e, rules, j, i));
            }
        }
    }
}

/// Merging sheet `a` then sheet `b` keeps source order: a rule of `b` comes
/// after every rule of `a`, so of two matching rules with equal specificity
/// the one from `a` is layered first and the one from `b` is never placed
/// ahead of it.
pub proof fn lemma_merge_keeps_order(e: ElementData, a: Seq<Rule>, b: Seq<Rule>, i: int, j: int)
    requires
        0 <= i < a.len(),
        0 <= j < b.len(),
        a.len() + b.len() <= usize::MAX,
        rule_rank(e, a[i]) is Some,
        rule_rank(e, b[j]) == rule_rank(e, a[i]),
    ensures
        ranks_below(e, a + b, i, a.len() + j),
        !ranks_below(e, a + b, a.len() + j, i),
{
    assert((a + b)[i] == a[i]);
    assert((a + b)[a.len() + j] == b[j]);
}

pub fn matches_simple_selector(elem: &ElementData, selector: &SimpleSelector) -> (r: bool)
    ensures
        r == simple_matches(*elem, *selector),
{
    if let Some(name) = &selector.tag_name {
        if !str_eq(elem.tag_name.as_str(), name.as_str()) {
            return false;
        }
    }
    if let Some(id) = &selector.id {
        match elem.id() {
            Some(own) => {
                if !str_eq(own.as_str(), id.as_str()) {
                    return false;
                }
            },
            None => {
                return false;
            },
        }
    }
    let elem_classes = elem.classes();
    let mut j: usize = 0;
    while j < selector.class.len()
        invariant
            j <= selector.class@.len(),
            views(elem_classes@) == class_names(elem.attrs@),
            forall|q: int| 0 <= q < j ==> class_names(elem.attrs@).contains(#[trigger] selector.class@[q]@),
        decreases selector.class@.len() - j,
    {
        let want = selector.class[j].as_str();
        let mut found = false;
        let mut q: usize = 0;
        while q < elem_classes.len()
            invariant
                q <= elem_classes@.len(),
                found ==> views(elem_classes@).contains(want@),
                !found ==> forall|t: int| 0 <= t < q ==> (#[trigger] elem_classes@[t])@ != want@,
            decreases elem_classes@.len() - q,
        {
            if str_eq(elem_classes[q].as_str(), want) {
                assert(views(elem_classes@)[q as int] == want@);
                found = true;
            }
            q = q + 1;
        }
        if !found {
            assert(!views(elem_classes@).contains(want@)) by {
                if views(elem_classes@).contains(want@) {
                    let t = choose|t: int| 0 <= t < views(elem_classes@).len() && views(elem_classes@)[t] == want@;
                    assert(elem_classes@[t]@ == want@);
                }
            }
            return false;
        }
        j = j + 1;
    }
    true
}

pub fn matches(elem: &ElementData, selector: &Selector) -> (r: bool)
    ensures
        r == selector_matches(*elem, *selector),
{
    match selector {
        Selector::Simple(simple) => matches_simple_selector(elem, simple),
    }
}

/// The specificity of the first selector of `rule` that matches `elem`.
fn match_rule(elem: &ElementData, rule: &Rule) -> (r: Option<Specificity>)
    ensures
        r == rule_rank(*elem, *rule),
{
    let mut i: usize = 0;
    while i < rule.selectors.len()
        invariant
            i <= rule.selectors@.len(),
            first_match_from(*elem, rule.selectors@, 0) == first_match_from(*elem, rule.selectors@, i as int),
        decreases rule.selectors@.len() - i,
    {
        if matches(elem, &rule.selectors[i]) {
            return Some(rule.selectors[i].specificity());
        }
        i = i + 1;
    }
    None
}

/// The rules of `stylesheet` that match `elem`, in source order, each with
/// the specificity of its first matching selector.
fn matching_rules(elem: &ElementData, stylesheet: &Stylesheet) -> (r: Vec<(Specificity, usize)>)
    ensures
        r@ == matches_in(*elem, stylesheet.rules@),
{
    let rules = &stylesheet.rules;
    let mut out: Vec<(Specificity, usize)> = Vec::new();
    let mut i: usize = 0;
    while i < rules.len()
        invariant
            i <= rules@.len(),
            out@ == matches_in(*elem, rules@.subrange(0, i as int)),
        decreases rules@.len() - i,
    {
        assert(rules@.subrange(0, i + 1).drop_last() =~= rules@.subrange(0, i as int));
        if let Some(s) = match_rule(elem, &rules[i]) {
            out.push((s, i));
        }
        i = i + 1;
    }
    assert(rules@.subrange(0, i as int) =~= rules@);
    out
}

/// `matched` stably sorted by specificity: among equal specificities the
/// order of `matched` is kept.
fn sort_by_specificity(matched: &Vec<(Specificity, usize)>) -> (r: Vec<(Specificity, usize)>)
    ensures
        r@ == sort_ranked(matched@),
{
    let mut out: Vec<(Specificity, usize)> = Vec::new();
    let mut k: usize = 0;
    assert(matched@.subrange(0, 0) =~= Seq::<(Specificity, usize)>::empty());
    while k < matched.len()
        invariant
            k <= matched@.len(),
            out@ == sort_ranked(matched@.subrange(0, k as int)),
        decreases matched@.len() - k,
    {
        let x = matched[k];
        let mut p: usize = out.len();
        while p > 0 && !specificity_le(out[p - 1].0, x.0)
            invariant
                p <= out@.len(),
                forall|q: int| p <= q < out@.len() ==> spec_lt(x.0, (#[trigger] out@[q]).0),
            decreases p,
        {
            p = p - 1;
        }
        proof {
            lemma_insert_ranked_at(out@, x, p as int);
            assert(matched@.subrange(0, k + 1).drop_last() =~= matched@.subrange(0, k as int));
        }
        out.insert(p, x);
        k = k + 1;
    }
    assert(matched@.subrange(0, k as int) =~= matched@);
    out
}

/// Applies one declaration to `values`.
fn apply_declaration(values: &mut PropertyMap, decl: &Declaration)
    ensures
        final(values)@ == decl_effect(old(values)@, *decl),
{
    let v = &decl.values;
    if v.len() == 0 {
        return;
    }
    if str_eq(decl.name.as_str(), "margin") {
        if v.len() == 1 {
            values.insert(String::from_str("margin"), v[0].duplicate());
        } else if v.len() == 2 {
            values.insert(String::from_str("margin-top"), v[0].duplicate());
            values.insert(String::from_str("margin-bottom"), v[0].duplicate());
            values.insert(String::from_str("margin-left"), v[1].duplicate());
            values.insert(String::from_str("margin-right"), v[1].duplicate());
        } else if v.len() == 3 {
            values.insert(String::from_str("margin-top"), v[0].duplicate());
            values.insert(String::from_str("margin-bottom"), v[1].duplicate());
            values.insert(String::from_str("margin-left"), v[1].duplicate());
            values.insert(String::from_str("margin-right"), v[2].duplicate());
        } else if v.len() == 4 {
            values.insert(String::from_str("margin-top"), v[0].duplicate());
            values.insert(String::from_str("margin-bottom"), v[1].duplicate());
            values.insert(String::from_str("margin-left"), v[2].duplicate());
            values.insert(String::from_str("margin-right"), v[3].duplicate());
        }
    } else {
        values.insert(decl.name.clone(), v[0].duplicate());
    }
}

/// The values that the rules of `stylesheet` declare for `elem`: the matching
/// rules applied from lowest to highest specificity, so that the highest wins
/// and, among equals, the one that comes last in the sheet.
pub fn specified_values(elem: &ElementData, stylesheet: &Stylesheet) -> (r: PropertyMap)
    ensures
        r@ == cascade(*elem, stylesheet.rules@),
{
    let mut values: PropertyMap = StrMap::new();
    let matched = matching_rules(elem, stylesheet);
    let ranked_rules = sort_by_specificity(&matched);
    let n_rules = stylesheet.rules.len();
    proof {
        lemma_ranked(*elem, stylesheet.rules@);
    }
    let mut p: usize = 0;
    while p < ranked_rules.len()
        invariant
            p <= ranked_rules@.len(),
            ranked_rules@ == ranked(*elem, stylesheet.rules@),
            forall|q: int| 0 <= q < ranked_rules@.len() ==> (#[trigger] ranked_rules@[q]).1 < stylesheet.rules@.len(),
            values@ == layer(stylesheet.rules@, ranked_rules@.subrange(0, p as int)),
        decreases ranked_rules@.len() - p,
    {
        let ghost base = values@;
        let rule = &stylesheet.rules[ranked_rules[p].1];
        let mut j: usize = 0;
        assert(base =~= base.union_prefer_right(decls_effect(Map::empty(), rule.declarations@.subrange(0, 0))));
        while j < rule.declarations.len()
            invariant
                j <= rule.declarations@.len(),
                values@ == base.union_prefer_right(decls_effect(Map::empty(), rule.declarations@.subrange(0, j as int))),
            decreases rule.declarations@.len() - j,
        {
            let ghost ds = rule.declarations@.subrange(0, j as int);
            proof {
                lemma_decl_effect_union(base, decls_effect(Map::empty(), ds), rule.declarations@[j as int]);
            }
            apply_declaration(&mut values, &rule.declarations[j]);
            assert(rule.declarations@.subrange(0, j + 1).drop_last() =~= ds);
            j = j + 1;
        }
        assert(rule.declarations@.subrange(0, j as int) =~= rule.declarations@);
        assert(ranked_rules@.subrange(0, p + 1).drop_last() =~= ranked_rules@.subrange(0, p as int));
        p = p + 1;
    }
    assert(ranked_rules@.subrange(0, p as int) =~= ranked_rules@);
    values
}

} // verus!
