//! Properties of the two grammars that hold for every input.
use vstd::prelude::*;
use crate::chars::{is_space, lemma_run_len_bounds, run, run_len, starts_at, CharClass};
use crate::css::{Specificity, insert_index, lemma_insert_index_bound, lemma_sort_len, less_specific,
    sort_by_specificity, specificity_of, SelectorModel};
use crate::css_grammar::{rule_at, selectors_at};
use crate::html_grammar::{
    attr_at, attrs_at, comment_at, document, element_at, lemma_node_advances, lemma_node_within,
    node_at, nodes_at, text_at,
};
use crate::parsed::rest;
use crate::error::ParseError;
use crate::node::NodeModel;

verus! {

/// A document made of one element, with nothing but white space around it,
/// parses to that element itself: no `html` element is added around it.
pub proof fn lemma_single_element_is_root(s: Seq<char>, e: NodeModel, c: nat)
    requires
        element_at(s, run_len(s, 0, CharClass::Space) as int) == Ok::<_, ParseError>(
            (e, c),
        ),
        !starts_at(s, run_len(s, 0, CharClass::Space) as int, seq!['<', '!', '-', '-']),
        run_len(s, 0, CharClass::Space) + c + run_len(
            s,
            (run_len(s, 0, CharClass::Space) + c) as int,
            CharClass::Space,
        ) == s.len(),
    ensures
        document(s, 0) == Ok::<_, ParseError>(e),
{
    let p1 = run_len(s, 0, CharClass::Space) as int;
    lemma_run_len_bounds(s, 0, CharClass::Space);
    assert(starts_at(s, p1, seq!['<']));
    if starts_at(s, p1, seq!['<', '/']) {
        assert(s[p1 + 1] == s.subrange(p1, p1 + 2)[1]);
        assert(run_len(s, p1 + 1, CharClass::Name) == 0);
        assert(run_len(s, p1 + 1, CharClass::Space) == 0);
        assert(s[p1 + 1] == '/');
        assert(s.subrange(p1 + 1, p1 + 2)[0] == s[p1 + 1]);
        assert(!starts_at(s, p1 + 1, seq!['=']));
        assert(attr_at(s, p1 + 1) is Err);
        assert(attrs_at(s, p1 + 1, Seq::empty()) is Err);
    }
    assert(node_at(s, p1) == element_at(s, p1));
    lemma_node_advances(s, p1);
    let p2 = p1 + c;
    assert(nodes_at(s, p2) == Ok::<_, ParseError>(
        (Seq::<NodeModel>::empty(), run_len(s, p2, CharClass::Space)),
    ));
    assert(seq![e] + Seq::<NodeModel>::empty() =~= seq![e]);
}

/// A document of any number of top-level nodes but one parses to an `html`
/// element without attributes whose children are those nodes, in source
/// order.
pub proof fn lemma_siblings_are_wrapped(s: Seq<char>, nodes: Seq<NodeModel>, c: nat)
    requires
        nodes_at(s, 0) == Ok::<_, ParseError>((nodes, c)),
        nodes.len() != 1,
    ensures
        document(s, 0) == Ok::<_, ParseError>(
            NodeModel::Element {
                tag_name: seq!['h', 't', 'm', 'l'],
                attrs: Seq::empty(),
                children: nodes,
            },
        ),
{
}

/// The text of a text node is everything from where it starts up to the
/// next `<` or the end of the input, as it stands: white space inside it or
/// at its end is kept.
pub proof fn lemma_text_is_verbatim(s: Seq<char>, p: int)
    requires
        0 <= p <= s.len(),
    ensures
        ({
            let q = p + text_at(s, p).1;
            &&& q <= s.len()
            &&& text_at(s, p).0 == NodeModel::Text(s.subrange(p, q))
            &&& q == s.len() || s[q] == '<'
            &&& forall|i: int| p <= i < q ==> s[i] != '<'
        }),
{
    lemma_run_len_bounds(s, p, CharClass::Not('<'));
}

/// `m` is no text node, or one whose text does not start with white space.
pub open spec fn no_leading_space(m: NodeModel) -> bool {
    m is Text ==> m->Text_0.len() == 0 || !is_space(m->Text_0[0])
}

/// No text node anywhere in the tree `m` starts with white space.
pub open spec fn clean_tree(m: NodeModel) -> bool
    decreases m,
{
    &&& no_leading_space(m)
    &&& match m {
        NodeModel::Element { children, .. } => forall|i: int|
            0 <= i < children.len() ==> clean_tree(#[trigger] children[i]),
        NodeModel::Text(_) => true,
    }
}

/// A node parsed where the input ends or holds a character other than white
/// space has no text node starting with white space.
proof fn lemma_node_clean(s: Seq<char>, p: int)
    requires
        0 <= p <= s.len(),
        p == s.len() || !is_space(s[p]),
        node_at(s, p) is Ok,
    ensures
        clean_tree(node_at(s, p)->Ok_0.0),
    decreases rest(s, p), 1nat,
{
    if starts_at(s, p, seq!['<']) {
        if starts_at(s, p, seq!['<', '!', '-', '-']) {
            let n = run_len(s, p + 4, CharClass::Not('-'));
            lemma_run_len_bounds(s, p + 4, CharClass::Not('-'));
            let q = p + 4 + n + 3;
            assert(comment_at(s, p) is Ok);
            assert(q <= s.len());
            lemma_run_len_bounds(s, q, CharClass::Space);
            let r = q + run_len(s, q, CharClass::Space);
            assert(node_at(s, p)->Ok_0.0 == node_at(s, r)->Ok_0.0);
            lemma_node_clean(s, r);
        } else {
            assert(node_at(s, p) == element_at(s, p));
            lemma_element_clean(s, p);
        }
    } else if p < s.len() {
        assert(s.subrange(p, p + 1) =~= seq![s[p]]);
        assert(s[p] != '<');
        lemma_run_len_bounds(s, p, CharClass::Not('<'));
        assert(run_len(s, p, CharClass::Not('<')) > 0);
        assert(text_at(s, p).0->Text_0[0] == s[p]);
    } else {
        assert(text_at(s, p).0->Text_0.len() == 0);
    }
}

proof fn lemma_element_clean(s: Seq<char>, p: int)
    requires
        0 <= p <= s.len(),
        element_at(s, p) is Ok,
    ensures
        clean_tree(element_at(s, p)->Ok_0.0),
    decreases rest(s, p), 0nat,
{
    let name = run(s, p + 1, CharClass::Name);
    let (attrs, ca) = attrs_at(s, p + 1 + name.len(), Seq::empty())->Ok_0;
    let p2 = p + 1 + name.len() + ca;
    assert(starts_at(s, p2, seq!['>']));
    lemma_nodes_clean(s, p2 + 1);
    let m = element_at(s, p)->Ok_0.0;
    assert(m->children == nodes_at(s, p2 + 1)->Ok_0.0);
}

/// White space between sibling nodes never becomes a text node, and neither
/// does white space between the siblings inside any of them.
pub proof fn lemma_nodes_clean(s: Seq<char>, p: int)
    requires
        0 <= p <= s.len(),
        nodes_at(s, p) is Ok,
    ensures
        forall|i: int|
            0 <= i < nodes_at(s, p)->Ok_0.0.len() ==> clean_tree(
                #[trigger] nodes_at(s, p)->Ok_0.0[i],
            ),
    decreases rest(s, p), 2nat,
{
    let w = run_len(s, p, CharClass::Space);
    lemma_run_len_bounds(s, p, CharClass::Space);
    let p1 = p + w;
    if !(p1 >= s.len() || starts_at(s, p1, seq!['<', '/'])) {
        lemma_node_clean(s, p1);
        lemma_node_advances(s, p1);
        let (n, c) = node_at(s, p1)->Ok_0;
        assert(p1 + c <= s.len()) by {
            lemma_node_within(s, p1);
        }
        lemma_nodes_clean(s, p1 + c);
        let ns = nodes_at(s, p)->Ok_0.0;
        let tail = nodes_at(s, p1 + c)->Ok_0.0;
        assert(ns == seq![n] + tail);
        assert forall|i: int| 0 <= i < ns.len() implies clean_tree(#[trigger] ns[i]) by {
            if i > 0 {
                assert(ns[i] == tail[i - 1]);
            }
        }
    }
}

/// In a parsed document, no text node at any depth starts with white space:
/// white space between tags is never kept as text.
pub proof fn lemma_document_has_no_space_text(s: Seq<char>)
    requires
        document(s, 0) is Ok,
    ensures
        clean_tree(document(s, 0)->Ok_0),
{
    lemma_nodes_clean(s, 0);
}

/// Where the opening tag and the children of an element parse, and the
/// input then does not hold `</`, the element's name and `>`, the element
/// fails: there is no closing by inference and no partial tree.
pub proof fn lemma_wrong_closing_tag_aborts(s: Seq<char>, p: int)
    requires
        starts_at(s, p, seq!['<']),
        attrs_at(s, p + 1 + run_len(s, p + 1, CharClass::Name), Seq::empty()) is Ok,
        starts_at(
            s,
            p + 1 + run_len(s, p + 1, CharClass::Name) + attrs_at(
                s,
                p + 1 + run_len(s, p + 1, CharClass::Name),
                Seq::empty(),
            )->Ok_0.1,
            seq!['>'],
        ),
        nodes_at(
            s,
            p + 1 + run_len(s, p + 1, CharClass::Name) + attrs_at(
                s,
                p + 1 + run_len(s, p + 1, CharClass::Name),
                Seq::empty(),
            )->Ok_0.1 + 1,
        ) is Ok,
        ({
            let name = run(s, p + 1, CharClass::Name);
            let p2 = p + 1 + name.len() + attrs_at(s, p + 1 + name.len(), Seq::empty())->Ok_0.1;
            let p4 = p2 + 1 + nodes_at(s, p2 + 1)->Ok_0.1;
            !starts_at(s, p4, seq!['<', '/'] + name + seq!['>'])
        }),
    ensures
        element_at(s, p) is Err,
{
    let name = run(s, p + 1, CharClass::Name);
    let p2 = p + 1 + name.len() + attrs_at(s, p + 1 + name.len(), Seq::empty())->Ok_0.1;
    let p4 = p2 + 1 + nodes_at(s, p2 + 1)->Ok_0.1;
    let closing = seq!['<', '/'] + name + seq!['>'];
    if element_at(s, p) is Ok {
        assert(starts_at(s, p4, seq!['<', '/']));
        assert(starts_at(s, p4 + 2, name));
        assert(starts_at(s, p4 + 2 + name.len(), seq!['>']));
        assert(s.subrange(p4, p4 + closing.len()) =~= closing) by {
            assert forall|i: int| 0 <= i < closing.len() implies s.subrange(
                p4,
                p4 + closing.len(),
            )[i] == closing[i] by {
                if i < 2 {
                    assert(s.subrange(p4, p4 + 2)[i] == s[p4 + i]);
                } else if i < 2 + name.len() {
                    assert(s.subrange(p4 + 2, p4 + 2 + name.len())[i - 2] == s[p4 + i]);
                } else {
                    assert(s.subrange(p4 + 2 + name.len(), p4 + 3 + name.len())[0] == s[p4 + i]);
                }
            }
        }
    }
}

/// Every element that parses ends with `</`, its own name and `>`.
pub proof fn lemma_element_closed_by_its_name(s: Seq<char>, p: int)
    requires
        element_at(s, p) is Ok,
    ensures
        ({
            let name = run(s, p + 1, CharClass::Name);
            let end = p + element_at(s, p)->Ok_0.1;
            starts_at(s, end - (name.len() + 3), seq!['<', '/'] + name + seq!['>'])
        }),
{
    let name = run(s, p + 1, CharClass::Name);
    let p2 = p + 1 + name.len() + attrs_at(s, p + 1 + name.len(), Seq::empty())->Ok_0.1;
    let p4 = p2 + 1 + nodes_at(s, p2 + 1)->Ok_0.1;
    let closing = seq!['<', '/'] + name + seq!['>'];
    assert(p + element_at(s, p)->Ok_0.1 - (name.len() + 3) == p4);
    assert(starts_at(s, p4, seq!['<', '/']));
    assert(starts_at(s, p4 + 2, name));
    assert(starts_at(s, p4 + 2 + name.len(), seq!['>']));
    assert(s.subrange(p4, p4 + closing.len()) =~= closing) by {
        assert forall|i: int| 0 <= i < closing.len() implies s.subrange(
            p4,
            p4 + closing.len(),
        )[i] == closing[i] by {
            if i < 2 {
                assert(s.subrange(p4, p4 + 2)[i] == s[p4 + i]);
            } else if i < 2 + name.len() {
                assert(s.subrange(p4 + 2, p4 + 2 + name.len())[i - 2] == s[p4 + i]);
            } else {
                assert(s.subrange(p4 + 2 + name.len(), p4 + 3 + name.len())[0] == s[p4 + i]);
            }
        }
    }
}

/// A failure inside propagates outward: a node that fails makes the run of
/// siblings holding it fail, and a run of children that fails makes their
/// element fail, so that the document fails with it.
pub proof fn lemma_failure_propagates(s: Seq<char>, p: int)
    ensures
        ({
            let p1 = p + run_len(s, p, CharClass::Space);
            p1 < s.len() && !starts_at(s, p1, seq!['<', '/']) && node_at(s, p1) is Err
                ==> nodes_at(s, p) is Err
        }),
        ({
            let name = run(s, p + 1, CharClass::Name);
            let a = attrs_at(s, p + 1 + name.len(), Seq::empty());
            starts_at(s, p, seq!['<']) && a is Ok && starts_at(
                s,
                p + 1 + name.len() + a->Ok_0.1,
                seq!['>'],
            ) && nodes_at(s, p + 1 + name.len() + a->Ok_0.1 + 1) is Err ==> element_at(s, p) is Err
        }),
        nodes_at(s, 0) is Err ==> document(s, 0) is Err,
{
}

// ---------------------------------------------------------------- selectors

proof fn lemma_specificity_order(a: SelectorModel, b: SelectorModel, c: SelectorModel)
    ensures
        less_specific(specificity_of(a), specificity_of(b)) && less_specific(
            specificity_of(b),
            specificity_of(c),
        ) ==> less_specific(specificity_of(a), specificity_of(c)),
        !less_specific(specificity_of(a), specificity_of(b)) ==> less_specific(
            specificity_of(b),
            specificity_of(a),
        ) || specificity_of(a) == specificity_of(b),
{
}

/// The selectors of a rule come most specific first: no selector is less
/// specific than one after it.
pub proof fn lemma_selectors_sorted(v: Seq<SelectorModel>)
    ensures
        forall|i: int, j: int|
            0 <= i < j < sort_by_specificity(v).len() ==> !less_specific(
                specificity_of(#[trigger] sort_by_specificity(v)[i]),
                specificity_of(#[trigger] sort_by_specificity(v)[j]),
            ),
    decreases v.len(),
{
    if v.len() > 0 {
        let r = sort_by_specificity(v.drop_last());
        let x = v.last();
        lemma_selectors_sorted(v.drop_last());
        lemma_insert_index_bound(r, x);
        let k = insert_index(r, x) as int;
        let t = r.insert(k, x);
        assert(t == sort_by_specificity(v));
        assert forall|i: int, j: int| 0 <= i < j < t.len() implies !less_specific(
            specificity_of(#[trigger] t[i]),
            specificity_of(#[trigger] t[j]),
        ) by {
            if i < k && j < k {
                assert(t[i] == r[i] && t[j] == r[j]);
            } else if i < k && j == k {
                assert(t[i] == r[i]);
            } else if i < k {
                assert(t[i] == r[i] && t[j] == r[j - 1]);
                lemma_specificity_order(r[j - 1], r[i], x);
                lemma_specificity_order(x, r[i], r[j - 1]);
                lemma_specificity_order(r[i], r[j - 1], r[i]);
            } else if i == k {
                assert(t[j] == r[j - 1]);
                if j - 1 > k {
                    lemma_specificity_order(r[j - 1], r[k], x);
                    lemma_specificity_order(r[k], r[j - 1], r[k]);
                }
                lemma_specificity_order(x, r[j - 1], x);
            } else {
                assert(t[i] == r[i - 1] && t[j] == r[j - 1]);
            }
        }
    }
}

/// A sort by specificity keeps the selectors: only their order changes.
pub proof fn lemma_sort_keeps_selectors(v: Seq<SelectorModel>)
    ensures
        sort_by_specificity(v).to_multiset() == v.to_multiset(),
    decreases v.len(),
{
    broadcast use vstd::seq_lib::to_multiset_insert, vstd::seq_lib::to_multiset_build;

    if v.len() > 0 {
        let r = sort_by_specificity(v.drop_last());
        lemma_sort_keeps_selectors(v.drop_last());
        lemma_insert_index_bound(r, v.last());
        assert(v.drop_last().push(v.last()) =~= v);
    }
}

/// In every rule of a stylesheet, the selectors come most specific first,
/// and they are those written in the rule.
pub proof fn lemma_rule_selectors_sorted(s: Seq<char>, p: int)
    requires
        rule_at(s, p) is Ok,
    ensures
        ({
            let sels = rule_at(s, p)->Ok_0.0.selectors;
            &&& forall|i: int, j: int|
                0 <= i < j < sels.len() ==> !less_specific(
                    specificity_of(#[trigger] sels[i]),
                    specificity_of(#[trigger] sels[j]),
                )
            &&& sels.to_multiset() == selectors_at(s, p)->Ok_0.0.to_multiset()
        }),
{
    let written = selectors_at(s, p)->Ok_0.0;
    lemma_selectors_sorted(written);
    lemma_sort_keeps_selectors(written);
}

/// Whether a selector has specificity `k`.
pub open spec fn has_specificity(k: Specificity) -> spec_fn(SelectorModel) -> bool {
    |x: SelectorModel| specificity_of(x) == k
}

proof fn lemma_filter_none(v: Seq<SelectorModel>, k: Specificity)
    requires
        forall|i: int| 0 <= i < v.len() ==> specificity_of(#[trigger] v[i]) != k,
    ensures
        v.filter(has_specificity(k)) == Seq::<SelectorModel>::empty(),
    decreases v.len(),
{
    if v.len() == 0 {
        v.filter(has_specificity(k)).lemma_filter_len(has_specificity(k));
        assert(v.filter(has_specificity(k)) =~= Seq::<SelectorModel>::empty());
    } else {
        let w = v.drop_last();
        assert forall|i: int| 0 <= i < w.len() implies specificity_of(#[trigger] w[i]) != k by {
            assert(w[i] == v[i]);
        }
        lemma_filter_none(w, k);
        assert(w.push(v.last()) =~= v);
        w.lemma_filter_push(v.last(), has_specificity(k));
    }
}

/// The sort is stable: for every specificity, the selectors that have it
/// come in the order in which they were written.
pub proof fn lemma_sort_is_stable(v: Seq<SelectorModel>, k: Specificity)
    ensures
        sort_by_specificity(v).filter(has_specificity(k)) == v.filter(has_specificity(k)),
    decreases v.len(),
{
    if v.len() > 0 {
        let pred = has_specificity(k);
        let w = v.drop_last();
        let x = v.last();
        let r = sort_by_specificity(w);
        lemma_sort_is_stable(w, k);
        lemma_selectors_sorted(w);
        lemma_insert_index_bound(r, x);
        let idx = insert_index(r, x) as int;
        let a = r.take(idx);
        let b = r.skip(idx);
        assert(sort_by_specificity(v) =~= a + seq![x] + b);
        assert(r =~= a + b);
        assert(w.push(x) =~= v);
        w.lemma_filter_push(x, pred);
        Seq::<SelectorModel>::empty().lemma_filter_push(x, pred);
        Seq::<SelectorModel>::empty().filter(pred).lemma_filter_len(pred);
        assert(Seq::<SelectorModel>::empty().push(x) =~= seq![x]);
        Seq::filter_distributes_over_add(a, seq![x], pred);
        Seq::filter_distributes_over_add(a + seq![x], b, pred);
        Seq::filter_distributes_over_add(a, b, pred);
        if specificity_of(x) == k {
            assert forall|i: int| 0 <= i < b.len() implies specificity_of(#[trigger] b[i]) != k by {
                assert(b[i] == r[idx + i]);
                if i > 0 {
                    lemma_specificity_order(r[idx + i], r[idx], x);
                    lemma_specificity_order(r[idx], r[idx + i], r[idx]);
                }
            }
            lemma_filter_none(b, k);
            assert(a.filter(pred) + seq![x] + Seq::<SelectorModel>::empty() =~= a.filter(pred).push(
                x,
            ));
            assert(a.filter(pred) + Seq::<SelectorModel>::empty() =~= a.filter(pred));
        } else {
            assert(a.filter(pred) + Seq::<SelectorModel>::empty() =~= a.filter(pred));
        }
    }
}

proof fn lemma_filter_nonempty(v: Seq<SelectorModel>, k: Specificity)
    requires
        v.filter(has_specificity(k)).len() > 0,
    ensures
        exists|i: int| 0 <= i < v.len() && specificity_of(#[trigger] v[i]) == k,
    decreases v.len(),
{
    if v.len() == 0 {
        v.filter(has_specificity(k)).lemma_filter_len(has_specificity(k));
        v.lemma_filter_len(has_specificity(k));
    } else {
        let w = v.drop_last();
        assert(w.push(v.last()) =~= v);
        w.lemma_filter_push(v.last(), has_specificity(k));
        if specificity_of(v.last()) != k {
            lemma_filter_nonempty(w, k);
            let i = choose|i: int| 0 <= i < w.len() && specificity_of(#[trigger] w[i]) == k;
            assert(v[i] == w[i]);
        } else {
            assert(specificity_of(v[v.len() - 1]) == k);
        }
    }
}

pub open spec fn most_specific_first(r: Seq<SelectorModel>) -> bool {
    forall|i: int, j: int|
        0 <= i < j < r.len() ==> !less_specific(
            specificity_of(#[trigger] r[i]),
            specificity_of(#[trigger] r[j]),
        )
}

/// Two lists, each most specific first, that have the same selectors of
/// each specificity in the same order are equal.
proof fn lemma_sorted_determined(r1: Seq<SelectorModel>, r2: Seq<SelectorModel>)
    requires
        most_specific_first(r1),
        most_specific_first(r2),
        forall|k: Specificity| #[trigger] r1.filter(has_specificity(k)) == r2.filter(
            has_specificity(k),
        ),
    ensures
        r1 == r2,
    decreases r1.len(),
{
    broadcast use vstd::seq_lib::group_filter_ensures;

    if r1.len() == 0 || r2.len() == 0 {
        if r1.len() > 0 {
            let k = specificity_of(r1[0]);
            r1.lemma_filter_contains(has_specificity(k), 0);
            assert(r1.filter(has_specificity(k)) == r2.filter(has_specificity(k)));
            r2.lemma_filter_len(has_specificity(k));
        } else if r2.len() > 0 {
            let k = specificity_of(r2[0]);
            r2.lemma_filter_contains(has_specificity(k), 0);
            assert(r1.filter(has_specificity(k)) == r2.filter(has_specificity(k)));
            r1.lemma_filter_len(has_specificity(k));
        } else {
            assert(r1 =~= r2);
        }
    } else {
        let x = r1.last();
        let y = r2.last();
        let kx = specificity_of(x);
        let ky = specificity_of(y);
        r1.lemma_filter_contains(has_specificity(kx), r1.len() - 1);
        assert(r1.filter(has_specificity(kx)) == r2.filter(has_specificity(kx)));
        lemma_filter_nonempty(r2, kx);
        let i = choose|i: int| 0 <= i < r2.len() && specificity_of(#[trigger] r2[i]) == kx;
        r2.lemma_filter_contains(has_specificity(ky), r2.len() - 1);
        assert(r1.filter(has_specificity(ky)) == r2.filter(has_specificity(ky)));
        lemma_filter_nonempty(r1, ky);
        let j = choose|j: int| 0 <= j < r1.len() && specificity_of(#[trigger] r1[j]) == ky;
        if i < r2.len() - 1 {
            assert(!less_specific(specificity_of(r2[i]), specificity_of(r2[r2.len() - 1])));
        }
        if j < r1.len() - 1 {
            assert(!less_specific(specificity_of(r1[j]), specificity_of(r1[r1.len() - 1])));
        }
        lemma_specificity_order(x, y, x);
        assert(kx == ky);
        let s1 = r1.drop_last();
        let s2 = r2.drop_last();
        assert(s1.push(x) =~= r1);
        assert(s2.push(y) =~= r2);
        assert forall|k: Specificity| #[trigger] s1.filter(has_specificity(k)) == s2.filter(
            has_specificity(k),
        ) by {
            s1.lemma_filter_push(x, has_specificity(k));
            s2.lemma_filter_push(y, has_specificity(k));
            assert(r1.filter(has_specificity(k)) == r2.filter(has_specificity(k)));
            if k == kx {
                assert(s1.filter(has_specificity(k)) =~= r1.filter(has_specificity(k)).drop_last());
                assert(s2.filter(has_specificity(k)) =~= r2.filter(has_specificity(k)).drop_last());
            }
        }
        s1.lemma_filter_push(x, has_specificity(kx));
        s2.lemma_filter_push(y, has_specificity(kx));
        assert(r1.filter(has_specificity(kx)).last() == x);
        assert(r2.filter(has_specificity(kx)).last() == y);
        assert forall|a: int, b: int| 0 <= a < b < s1.len() implies !less_specific(
            specificity_of(#[trigger] s1[a]),
            specificity_of(#[trigger] s1[b]),
        ) by {
            assert(s1[a] == r1[a] && s1[b] == r1[b]);
        }
        assert forall|a: int, b: int| 0 <= a < b < s2.len() implies !less_specific(
            specificity_of(#[trigger] s2[a]),
            specificity_of(#[trigger] s2[b]),
        ) by {
            assert(s2[a] == r2[a] && s2[b] == r2[b]);
        }
        lemma_sorted_determined(s1, s2);
    }
}

/// The order of the selectors in the source matters only among equally
/// specific ones: two lists with the same selectors of each specificity, in
/// the same order, sort to the same list. In particular, selectors of
/// distinct specificities sort the same whatever order they were written in.
pub proof fn lemma_sort_order_independent(v1: Seq<SelectorModel>, v2: Seq<SelectorModel>)
    requires
        forall|k: Specificity| #[trigger] v1.filter(has_specificity(k)) == v2.filter(
            has_specificity(k),
        ),
    ensures
        sort_by_specificity(v1) == sort_by_specificity(v2),
{
    let r1 = sort_by_specificity(v1);
    let r2 = sort_by_specificity(v2);
    lemma_selectors_sorted(v1);
    lemma_selectors_sorted(v2);
    assert forall|k: Specificity| #[trigger] r1.filter(has_specificity(k)) == r2.filter(
        has_specificity(k),
    ) by {
        lemma_sort_is_stable(v1, k);
        lemma_sort_is_stable(v2, k);
        assert(v1.filter(has_specificity(k)) == v2.filter(has_specificity(k)));
    }
    lemma_sorted_determined(r1, r2);
}

} // verus!
