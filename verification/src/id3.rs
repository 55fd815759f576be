//! The recursive tree builder: partitions an object subset by the candidate
//! attribute of greatest information gain, producing a tree of nodes with
//! strictly pre-order identities.

use vstd::prelude::*;
use vstd::string::StringExecFns;
use crate::gain::{
    best_idx, class_cnt, distinct_classes, gains_of, labels_of, lemma_best_idx_first_max,
    occurrences, select_best_attribute, sub_filter, sub_objs,
};
use crate::node::{
    depth, depth_children, edge_text, ids_pre, ids_pre_children, Node,
};
use crate::object::{attr_derefs, derefs, plain_token, Attr, Object};
use crate::text::{joined, str_views};

verus! {

/// All objects of `s` carry one class label.
pub open spec fn all_same_class(s: Seq<Object>) -> bool {
    forall|i: int| 0 <= i < s.len() ==> #[trigger] s[i].class@ == s[0].class@
}

/// The class labels of `s`, in object order.
pub open spec fn class_views(s: Seq<Object>) -> Seq<Seq<char>> {
    s.map_values(|o: Object| o.class@)
}

/// The label of a disjunction leaf: every object's class label, in object
/// order, joined by the disjunction marker, duplicates preserved.
pub open spec fn dis_label(s: Seq<Object>) -> Seq<char> {
    joined(class_views(s), seq!['^'], s.len() as int)
}

/// The display label of an internal node: the chosen attribute's name and
/// the record of all per-candidate gain labels, pipe-separated in braces.
pub open spec fn split_label(cands: Seq<Attr>, s: Seq<Object>) -> Seq<char> {
    cands[best_idx(gains_of(cands, s))].name@ + seq!['|', '{'] + joined(
        labels_of(cands, s),
        seq!['|'],
        cands.len() as int,
    ) + seq!['}']
}

/// The tree that the builder produces for the subset `s` under the
/// candidate attributes `cands`: a leaf carrying the shared class label for
/// a pure subset, a disjunction leaf when no candidate is left, and
/// otherwise a split on the candidate of greatest gain, with one child per
/// domain value whose partition is non-empty, in domain order.  Node
/// identities are not constrained here; `ids_pre` speaks of them.
pub open spec fn built_from(cands: Seq<Attr>, s: Seq<Object>, n: Node) -> bool
    decreases cands.len() + 1, 0int,
    via built_from_decreases
{
    if all_same_class(s) {
        n.children@.len() == 0 && n.label@ == s[0].class@
    } else if cands.len() == 0 {
        n.children@.len() == 0 && n.label@ == dis_label(s)
    } else {
        let b = best_idx(gains_of(cands, s));
        let a = cands[b];
        &&& n.label@ == split_label(cands, s)
        &&& built_children(
            cands.remove(b),
            s,
            a.id as int,
            str_views(a.values@),
            a.values@.len() as int,
            n.children@,
        )
    }
}

#[via_fn]
proof fn built_from_decreases(cands: Seq<Attr>, s: Seq<Object>, n: Node) {
    if !all_same_class(s) && cands.len() > 0 {
        lemma_best_idx_first_max(gains_of(cands, s));
    }
}

/// The children `cs` are exactly the recursively built trees for the
/// non-empty partitions of `s` by the domain values `vs[..vi]`, in domain
/// order, each carrying its domain value as edge value and the rendered
/// edge label.
pub open spec fn built_children(
    rest: Seq<Attr>,
    s: Seq<Object>,
    ai: int,
    vs: Seq<Seq<char>>,
    vi: int,
    cs: Seq<Node>,
) -> bool
    decreases rest.len() + 1, vi + 1,
{
    if vi <= 0 {
        cs.len() == 0
    } else {
        let sub = sub_objs(s, ai, vs[vi - 1]);
        if sub.len() == 0 {
            built_children(rest, s, ai, vs, vi - 1, cs)
        } else {
            &&& cs.len() > 0
            &&& built_from(rest, sub, cs.last())
            &&& cs.last().edge@ == vs[vi - 1]
            &&& cs.last().trans@ == edge_text(vs[vi - 1], sub)
            &&& built_children(rest, s, ai, vs, vi - 1, cs.drop_last())
        }
    }
}

/// A strictly increasing selection of positions of `dom`, one per child,
/// giving each child its edge value: the children are ordered by the
/// domain order and no domain value is used twice.
pub open spec fn picked_ok(dom: Seq<Seq<char>>, cs: Seq<Node>, picked: Seq<int>) -> bool {
    &&& picked.len() == cs.len()
    &&& forall|p: int, q: int| 0 <= p < q < picked.len() ==> picked[p] < picked[q]
    &&& forall|ci: int|
        0 <= ci < cs.len() ==> 0 <= #[trigger] picked[ci] < dom.len() && cs[ci].edge@
            == dom[picked[ci]]
}

/// One node's split is within some candidate's domain: at most one child
/// per domain value, in domain order, and no two children share an edge
/// value.  Each child's edge label starts with its edge value and a space,
/// so the value can be read back off the label.
pub open spec fn split_ok(attrs: Seq<Attr>, n: Node) -> bool {
    &&& (n.children@.len() > 0 ==> exists|ai: int|
        0 <= ai < attrs.len() && n.children@.len() <= #[trigger] attrs[ai].values@.len()
            && (exists|picked: Seq<int>| picked_ok(str_views(attrs[ai].values@), n.children@, picked)))
    &&& forall|p: int, q: int|
        0 <= p < q < n.children@.len() ==> n.children@[p].edge@ != n.children@[q].edge@
    &&& forall|ci: int|
        0 <= ci < n.children@.len() ==> edge_readable(#[trigger] n.children@[ci])
}

/// The incoming-edge value of `c` is a plain token and stands, followed by
/// a space, at the front of the rendered edge label.
pub open spec fn edge_readable(c: Node) -> bool {
    &&& plain_token(c.edge@)
    &&& c.trans@.len() > c.edge@.len()
    &&& c.trans@.take(c.edge@.len() as int) == c.edge@
    &&& c.trans@[c.edge@.len() as int] == ' '
}

/// Every node of the subtree satisfies `split_ok`.
pub open spec fn all_splits_ok(attrs: Seq<Attr>, n: Node) -> bool
    decreases n, 0int,
{
    split_ok(attrs, n) && all_splits_ok_children(attrs, n.children@, 0)
}

/// `all_splits_ok` for the subtrees `cs[from..]`.
pub open spec fn all_splits_ok_children(attrs: Seq<Attr>, cs: Seq<Node>, from: int) -> bool
    decreases cs, cs.len() - from,
{
    if from < 0 || from >= cs.len() {
        true
    } else {
        all_splits_ok(attrs, cs[from]) && all_splits_ok_children(attrs, cs, from + 1)
    }
}

/// The consecutive identities from `a` inclusive to `b` exclusive.
pub open spec fn id_range(a: int, b: int) -> Seq<int> {
    Seq::new(if b >= a { (b - a) as nat } else { 0 }, |i: int| a + i)
}

/// A strictly increasing selection cannot pick more positions than the
/// domain offers.
pub proof fn lemma_picked_at_least(picked: Seq<int>, i: int)
    requires
        forall|p: int, q: int| 0 <= p < q < picked.len() ==> picked[p] < picked[q],
        0 <= i < picked.len(),
        forall|ci: int| 0 <= ci < picked.len() ==> #[trigger] picked[ci] >= 0,
    ensures
        picked[i] >= i,
    decreases i,
{
    if i > 0 {
        lemma_picked_at_least(picked, i - 1);
        assert(picked[i - 1] < picked[i]);
    }
}

/// Every candidate of `attrs1` occurs somewhere in `attrs2`.
pub open spec fn cands_cover(attrs1: Seq<Attr>, attrs2: Seq<Attr>) -> bool {
    forall|i: int|
        0 <= i < attrs1.len() ==> exists|j: int|
            0 <= j < attrs2.len() && attrs2[j] == #[trigger] attrs1[i]
}

/// `split_ok` survives widening the candidate universe: every candidate of
/// `attrs1` still occurs in `attrs2`.
pub proof fn lemma_splits_ok_weaken(attrs1: Seq<Attr>, attrs2: Seq<Attr>, n: Node)
    requires
        all_splits_ok(attrs1, n),
        cands_cover(attrs1, attrs2),
    ensures
        all_splits_ok(attrs2, n),
    decreases n, 0int,
{
    if n.children@.len() > 0 {
        let ai = choose|ai: int|
            0 <= ai < attrs1.len() && n.children@.len() <= #[trigger] attrs1[ai].values@.len()
                && (exists|picked: Seq<int>|
                picked_ok(str_views(attrs1[ai].values@), n.children@, picked));
        let aj = choose|j: int| 0 <= j < attrs2.len() && attrs2[j] == attrs1[ai];
        assert(attrs2[aj].values@.len() >= n.children@.len());
    }
    lemma_splits_ok_weaken_children(attrs1, attrs2, n.children@, 0);
}

/// `lemma_splits_ok_weaken` for the subtrees `cs[from..]`.
proof fn lemma_splits_ok_weaken_children(
    attrs1: Seq<Attr>,
    attrs2: Seq<Attr>,
    cs: Seq<Node>,
    from: int,
)
    requires
        all_splits_ok_children(attrs1, cs, from),
        cands_cover(attrs1, attrs2),
    ensures
        all_splits_ok_children(attrs2, cs, from),
    decreases cs, cs.len() - from,
{
    if 0 <= from < cs.len() {
        lemma_splits_ok_weaken(attrs1, attrs2, cs[from]);
        lemma_splits_ok_weaken_children(attrs1, attrs2, cs, from + 1);
    }
}

/// Appending a subtree extends the pre-order identity sequence at the end.
pub proof fn lemma_ids_children_push(cs: Seq<Node>, c: Node, from: int)
    requires
        0 <= from <= cs.len(),
    ensures
        ids_pre_children(cs.push(c), from) == ids_pre_children(cs, from) + ids_pre(c),
    decreases cs.len() - from,
{
    if from == cs.len() {
        assert(cs.push(c)[from] == c);
        assert(ids_pre_children(cs.push(c), from + 1) == Seq::<int>::empty());
        assert(ids_pre_children(cs.push(c), from) =~= ids_pre_children(cs, from) + ids_pre(c));
    } else {
        lemma_ids_children_push(cs, c, from + 1);
        assert(cs.push(c)[from] == cs[from]);
        assert(ids_pre_children(cs.push(c), from) =~= ids_pre_children(cs, from) + ids_pre(c));
    }
}

/// Appending a subtree keeps a depth bound that both sides obey.
pub proof fn lemma_depth_children_push(cs: Seq<Node>, c: Node, from: int, bound: nat)
    requires
        0 <= from <= cs.len(),
        depth_children(cs, from) <= bound,
        depth(c) + 1 <= bound,
    ensures
        depth_children(cs.push(c), from) <= bound,
    decreases cs.len() - from,
{
    if from == cs.len() {
        assert(cs.push(c)[from] == c);
    } else {
        lemma_depth_children_push(cs, c, from + 1, bound);
        assert(cs.push(c)[from] == cs[from]);
    }
}

/// `all_splits_ok` holds of the subtrees of a list once it holds of each.
pub proof fn lemma_splits_children_push(attrs: Seq<Attr>, cs: Seq<Node>, c: Node, from: int)
    requires
        0 <= from <= cs.len(),
        all_splits_ok_children(attrs, cs, from),
        all_splits_ok(attrs, c),
    ensures
        all_splits_ok_children(attrs, cs.push(c), from),
    decreases cs.len() - from,
{
    if from == cs.len() {
        assert(cs.push(c)[from] == c);
        assert(all_splits_ok(attrs, cs.push(c)[from]));
        assert(all_splits_ok_children(attrs, cs.push(c), from + 1));
    } else {
        lemma_splits_children_push(attrs, cs, c, from + 1);
        assert(cs.push(c)[from] == cs[from]);
        assert(all_splits_ok(attrs, cs.push(c)[from]));
    }
}

/// A subset is pure exactly when it shows one distinct class; the first
/// distinct class is the first object's.
pub proof fn lemma_one_class(s: Seq<Object>)
    requires
        s.len() >= 1,
    ensures
        distinct_classes(s).len() >= 1,
        distinct_classes(s)[0] == s[0].class@,
        distinct_classes(s).len() == 1 <==> all_same_class(s),
    decreases s.len(),
{
    if s.len() == 1 {
        assert(s.drop_last().len() == 0);
        assert(distinct_classes(s.drop_last()) == Seq::<Seq<char>>::empty());
        assert(!distinct_classes(s.drop_last()).contains(s.last().class@));
        assert(s.last() == s[0]);
        assert(distinct_classes(s) =~= Seq::<Seq<char>>::empty().push(s[0].class@));
        assert(distinct_classes(s)[0] == s[0].class@);
    } else {
        let t = s.drop_last();
        lemma_one_class(t);
        let p = distinct_classes(t);
        if distinct_classes(s).len() == 1 {
            assert(p.len() == 1);
            assert(all_same_class(t));
            if p.contains(s.last().class@) {
                let w = choose|w: int| 0 <= w < p.len() && p[w] == s.last().class@;
                assert(w == 0);
                assert forall|i: int| 0 <= i < s.len() implies #[trigger] s[i].class@
                    == s[0].class@ by {
                    if i < s.len() - 1 {
                        assert(t[i].class@ == t[0].class@);
                    }
                }
            }
        }
        if all_same_class(s) {
            assert forall|i: int| 0 <= i < t.len() implies #[trigger] t[i].class@
                == t[0].class@ by {
                assert(s[i].class@ == s[0].class@);
            }
            assert(all_same_class(t));
            assert(p.len() == 1);
            assert(s.last().class@ == s[0].class@);
            assert(p[0] == s.last().class@);
            assert(p.contains(s.last().class@));
            assert(distinct_classes(s) == p);
        }
    }
}

/// The number of objects claimed by the partitions for `vs[i..]`.
pub open spec fn sub_lens(s: Seq<Object>, ai: int, vs: Seq<Seq<char>>, i: int) -> nat
    decreases vs.len() - i,
{
    if i < 0 || i >= vs.len() {
        0
    } else {
        sub_objs(s, ai, vs[i]).len() + sub_lens(s, ai, vs, i + 1)
    }
}

/// Appending one object grows the partitions by its single occurrence.
proof fn lemma_sub_lens_push(s: Seq<Object>, o: Object, ai: int, vs: Seq<Seq<char>>, i: int)
    ensures
        sub_lens(s.push(o), ai, vs, i) == sub_lens(s, ai, vs, i) + occurrences(
            vs,
            o.attr@[ai]@,
            i,
        ),
    decreases vs.len() - i,
{
    if 0 <= i < vs.len() {
        lemma_sub_lens_push(s, o, ai, vs, i + 1);
        assert(s.push(o).drop_last() =~= s);
        assert(s.push(o).last() == o);
    }
}

/// No value occurs twice among pairwise distinct values.
proof fn lemma_occurrences_le_one(vs: Seq<Seq<char>>, c: Seq<char>, i: int)
    requires
        forall|p: int, q: int| 0 <= p < q < vs.len() ==> vs[p] != vs[q],
        i >= 0,
    ensures
        occurrences(vs, c, i) <= 1,
    decreases vs.len() - i,
{
    if 0 <= i < vs.len() {
        lemma_occurrences_le_one(vs, c, i + 1);
        if vs[i] == c {
            assert forall|j: int| i + 1 <= j < vs.len() implies vs[j] != c by {
                assert(vs[i] != vs[j]);
            }
            crate::gain::lemma_occurrences_absent(vs, c, i + 1);
        }
    }
}

/// Distinct domain values claim disjoint partitions: together they never
/// claim more objects than the subset holds.
pub proof fn lemma_sub_lens_bound(s: Seq<Object>, ai: int, vs: Seq<Seq<char>>)
    requires
        forall|p: int, q: int| 0 <= p < q < vs.len() ==> vs[p] != vs[q],
    ensures
        sub_lens(s, ai, vs, 0) <= s.len(),
    decreases s.len(),
{
    if s.len() == 0 {
        lemma_sub_lens_zero(s, ai, vs, 0);
    } else {
        let t = s.drop_last();
        let o = s.last();
        lemma_sub_lens_bound(t, ai, vs);
        assert(t.push(o) =~= s);
        lemma_sub_lens_push(t, o, ai, vs, 0);
        lemma_occurrences_le_one(vs, o.attr@[ai]@, 0);
    }
}

/// Partitions of the empty subset are empty.
proof fn lemma_sub_lens_zero(s: Seq<Object>, ai: int, vs: Seq<Seq<char>>, i: int)
    requires
        s.len() == 0,
    ensures
        sub_lens(s, ai, vs, i) == 0,
    decreases vs.len() - i,
{
    if 0 <= i < vs.len() {
        lemma_sub_lens_zero(s, ai, vs, i + 1);
    }
}

/// Builds the leaf for a pure subset: its label is the shared class label.
fn class_leaf(id: &mut usize, mp: &Vec<&Object>) -> (r: Node)
    requires
        mp@.len() >= 1,
        *old(id) < usize::MAX,
    ensures
        *final(id) == *old(id) + 1,
        r.id == *old(id),
        r.label@ == derefs(mp@)[0].class@,
        r.children@.len() == 0,
        r.trans@ == Seq::<char>::empty(),
        r.edge@ == Seq::<char>::empty(),
{
    proof {
        assert(derefs(mp@)[0] == *mp@[0]);
    }
    let label = mp[0].class.clone();
    let node = Node::leaf(*id, label);
    *id = *id + 1;
    node
}

/// Builds the leaf for an impure subset with no candidate attribute left:
/// its label is every object's class label, in object order, joined by the
/// disjunction marker; duplicates are preserved.
fn dis_class_leaf(id: &mut usize, mp: &Vec<&Object>) -> (r: Node)
    requires
        mp@.len() >= 1,
        *old(id) < usize::MAX,
    ensures
        *final(id) == *old(id) + 1,
        r.id == *old(id),
        r.label@ == dis_label(derefs(mp@)),
        r.children@.len() == 0,
        r.trans@ == Seq::<char>::empty(),
        r.edge@ == Seq::<char>::empty(),
{
    let ghost s = derefs(mp@);
    let mut lab = String::new();
    let mut i: usize = 0;
    while i < mp.len()
        invariant
            0 <= i <= mp@.len(),
            s == derefs(mp@),
            s.len() == mp@.len(),
            lab@ == joined(class_views(s), seq!['^'], i as int),
        decreases mp@.len() - i,
    {
        if i > 0 {
            lab.append("^");
            proof {
                reveal_strlit("^");
            }
        }
        lab.append(mp[i].class.as_str());
        proof {
            assert(s[i as int] == *mp@[i as int]);
            assert(class_views(s)[i as int] == s[i as int].class@);
            assert(lab@ =~= joined(class_views(s), seq!['^'], i + 1));
        }
        i = i + 1;
    }
    let node = Node::leaf(*id, lab);
    *id = *id + 1;
    node
}

/// Generates the decision tree for the object subset `mp` under the
/// candidate attributes `mv`, assigning each node the next identity from
/// the shared counter `id` in strict pre-order.
///
/// The result is exactly the tree that `built_from` describes: a leaf with
/// the shared class label for a pure subset, a disjunction leaf when no
/// candidates are left, and otherwise a split on the candidate of greatest
/// information gain, the lowest index winning ties, with one child per
/// domain value whose partition is non-empty, in domain order.  Identities
/// are consecutive in pre-order,
/// the depth never exceeds the number of candidates, and every split stays
/// within one candidate's domain with pairwise distinct edge values.
pub fn id3(id: &mut usize, mp: &Vec<&Object>, mv: &Vec<&Attr>) -> (r: Node)
    requires
        mp@.len() >= 1,
        crate::gain::cands_apply(attr_derefs(mv@), derefs(mp@)),
        forall|p: int|
            0 <= p < mv@.len() ==> crate::object::attr_domain_wf(#[trigger] attr_derefs(mv@)[p]),
        *old(id) + mp@.len() * (mv@.len() + 1) <= usize::MAX,
    ensures
        r.id == *old(id),
        *old(id) < *final(id),
        *final(id) <= *old(id) + mp@.len() * (mv@.len() + 1),
        ids_pre(r) == id_range(*old(id) as int, *final(id) as int),
        depth(r) <= mv@.len(),
        built_from(attr_derefs(mv@), derefs(mp@), r),
        all_splits_ok(attr_derefs(mv@), r),
        r.trans@ == Seq::<char>::empty(),
        r.edge@ == Seq::<char>::empty(),
        all_same_class(derefs(mp@)) ==> r.children@.len() == 0 && r.label@ == derefs(
            mp@,
        )[0].class@ && *final(id) == *old(id) + 1,
        !all_same_class(derefs(mp@)) && mv@.len() == 0 ==> r.children@.len() == 0 && r.label@
            == dis_label(derefs(mp@)) && *final(id) == *old(id) + 1,
    decreases mv@.len(),
{
    let ghost s = derefs(mp@);
    let ghost cands = attr_derefs(mv@);
    let ghost id0: usize = *id;
    proof {
        assert(s.len() == mp@.len());
        assert(cands.len() == mv@.len());
        assert(1 <= mp@.len() * (mv@.len() + 1)) by (nonlinear_arith)
            requires
                mp@.len() >= 1,
                mv@.len() >= 0,
        ;
        lemma_one_class(s);
    }
    let cnt = class_cnt(mp);
    if cnt.len() == 1 {
        let r = class_leaf(id, mp);
        proof {
            assert(all_same_class(s));
            assert(ids_pre_children(r.children@, 0) == Seq::<int>::empty());
            assert(ids_pre(r) =~= id_range(id0 as int, id0 + 1));
            assert(depth_children(r.children@, 0) == 0);
            assert(all_splits_ok_children(cands, r.children@, 0));
        }
        return r;
    }
    proof {
        assert(distinct_classes(s).len() != 1);
        assert(!all_same_class(s));
    }
    if mv.len() == 0 {
        let r = dis_class_leaf(id, mp);
        proof {
            assert(ids_pre_children(r.children@, 0) == Seq::<int>::empty());
            assert(ids_pre(r) =~= id_range(id0 as int, id0 + 1));
            assert(depth_children(r.children@, 0) == 0);
            assert(all_splits_ok_children(cands, r.children@, 0));
        }
        return r;
    }
    // Pick the candidate of greatest gain and render the split label.
    let picked_attr = select_best_attribute(mv, mp);
    let max: usize = picked_attr.0;
    let labels: Vec<String> = picked_attr.1;
    let ghost g = gains_of(cands, s);
    let ghost b: int = max as int;
    proof {
        lemma_best_idx_first_max(g);
        assert(cands[b] == *mv@[b]);
    }
    let attr: &Attr = mv[max];
    let ghost av: Attr = cands[b];
    let mut lab = attr.name.clone();
    lab.append("|{");
    crate::text::push_joined(&mut lab, &labels, "|");
    lab.append("}");
    proof {
        reveal_strlit("|{");
        reveal_strlit("|");
        reveal_strlit("}");
        assert("|"@ =~= seq!['|']);
        assert("|{"@ =~= seq!['|', '{']);
        assert("}"@ =~= seq!['}']);
        assert(str_views(labels@) == crate::gain::labels_of(cands, s));
        assert(best_idx(gains_of(cands, s)) == b);
        assert(lab@ =~= cands[b].name@ + seq!['|', '{'] + joined(
            crate::gain::labels_of(cands, s),
            seq!['|'],
            cands.len() as int,
        ) + seq!['}']);
        assert(lab@ == split_label(cands, s));
    }
    let mut node = Node::leaf(*id, lab);
    // The remaining candidates: all but the chosen one, in order.
    let mut rest: Vec<&Attr> = Vec::new();
    let mut j: usize = 0;
    while j < mv.len()
        invariant
            0 <= j <= mv@.len(),
            b == max as int,
            0 <= b < mv@.len(),
            rest@.len() == if j <= max {
                j as int
            } else {
                (j - 1) as int
            },
            forall|q: int|
                0 <= q < rest@.len() ==> rest@[q] == (if q < b {
                    mv@[q]
                } else {
                    mv@[q + 1]
                }),
        decreases mv@.len() - j,
    {
        if j != max {
            rest.push(mv[j]);
        }
        j = j + 1;
    }
    let ghost rest_g = attr_derefs(rest@);
    proof {
        assert(rest_g =~= cands.remove(b));
        assert(cands_cover(rest_g, cands)) by {
            assert forall|i: int| 0 <= i < rest_g.len() implies exists|w: int|
                0 <= w < cands.len() && cands[w] == #[trigger] rest_g[i] by {
                if i < b {
                    assert(cands[i] == rest_g[i]);
                } else {
                    assert(cands[i + 1] == rest_g[i]);
                }
            }
        }
    }
    *id = *id + 1;
    let ghost id1: usize = *id;
    let ghost vs = str_views(attr.values@);
    let ghost c_n: int = cands.len() as int;
    proof {
        assert(vs == str_views(av.values@));
        assert(crate::object::attr_domain_wf(av));
        assert(forall|p: int, q: int| 0 <= p < q < vs.len() ==> vs[p] != vs[q]);
        lemma_sub_lens_bound(s, av.id as int, vs);
        assert(ids_pre_children(node.children@, 0) =~= id_range(id1 as int, id1 as int));
    }
    let ghost mut processed: nat = 0nat;
    let ghost mut picked: Seq<int> = Seq::empty();
    let mut vi: usize = 0;
    while vi < attr.values.len()
        invariant
            0 <= vi <= attr.values@.len(),
            s == derefs(mp@),
            s.len() == mp@.len() >= 1,
            cands == attr_derefs(mv@),
            cands.len() == mv@.len() >= 1,
            crate::gain::cands_apply(cands, s),
            forall|p: int|
                0 <= p < cands.len() ==> crate::object::attr_domain_wf(#[trigger] cands[p]),
            b == best_idx(gains_of(cands, s)),
            0 <= b < cands.len(),
            av == cands[b],
            attr == mv@[b],
            vs == str_views(attr.values@),
            vs.len() == attr.values@.len(),
            rest_g == attr_derefs(rest@),
            rest_g == cands.remove(b),
            rest_g.len() == cands.len() - 1,
            cands_cover(rest_g, cands),
            c_n == cands.len() as int,
            id0 as int + s.len() * (cands.len() + 1) <= usize::MAX,
            id1 == id0 + 1,
            id1 <= *id,
            sub_lens(s, av.id as int, vs, 0) == processed + sub_lens(s, av.id as int, vs, vi as int),
            sub_lens(s, av.id as int, vs, 0) <= s.len(),
            *id <= id1 + processed * (c_n as nat),
            node.id == id0,
            node.label@ == split_label(cands, s),
            node.trans@ == Seq::<char>::empty(),
            node.edge@ == Seq::<char>::empty(),
            ids_pre_children(node.children@, 0) == id_range(id1 as int, *id as int),
            depth_children(node.children@, 0) <= cands.len(),
            built_children(rest_g, s, av.id as int, vs, vi as int, node.children@),
            picked_ok(vs, node.children@, picked),
            forall|ci: int| 0 <= ci < picked.len() ==> #[trigger] picked[ci] < vi as int,
            forall|ci: int|
                0 <= ci < node.children@.len() ==> edge_readable(#[trigger] node.children@[ci]),
            all_splits_ok_children(cands, node.children@, 0),
        decreases attr.values@.len() - vi,
    {
        proof {
            assert forall|q: int| 0 <= q < mp@.len() implies attr.id
                < #[trigger] mp@[q].attr@.len() by {
                assert(s[q] == *mp@[q]);
                assert(cands[b].id < s[q].attr@.len());
            }
        }
        let mpi: Vec<&Object> = sub_filter(mp, attr.id, &attr.values[vi]);
        let ghost subview = sub_objs(s, av.id as int, vs[vi as int]);
        proof {
            assert(attr.values@[vi as int]@ == vs[vi as int]);
            assert(derefs(mpi@) == subview);
            assert(derefs(mpi@).len() == mpi@.len());
            assert(sub_lens(s, av.id as int, vs, vi as int) == subview.len() + sub_lens(
                s,
                av.id as int,
                vs,
                vi + 1,
            ));
        }
        if mpi.len() > 0 {
            proof {
                // The recursive call stays within the counter budget.
                assert(processed + subview.len() <= s.len());
                assert(*id + mpi@.len() * (rest_g.len() + 1) <= usize::MAX) by (nonlinear_arith)
                    requires
                        *id <= id1 + processed * (c_n as nat),
                        id1 == id0 + 1,
                        mpi@.len() == subview.len(),
                        processed + subview.len() <= s.len(),
                        rest_g.len() + 1 == c_n,
                        c_n >= 1,
                        s.len() >= 1,
                        id0 as int + s.len() * (c_n as int + 1) <= usize::MAX,
                ;
                // The recursive call's own preconditions.
                lemma_sub_objs_elems(s, av.id as int, vs[vi as int]);
                assert(crate::gain::cands_apply(rest_g, subview)) by {
                    assert forall|p: int, q: int|
                        0 <= p < rest_g.len() && 0 <= q < subview.len() implies #[trigger] rest_g[p].id
                        < #[trigger] subview[q].attr@.len() by {
                        let w = choose|w: int| 0 <= w < s.len() && s[w] == subview[q];
                        if p < b {
                            assert(rest_g[p] == cands[p]);
                            assert(cands[p].id < s[w].attr@.len());
                        } else {
                            assert(rest_g[p] == cands[p + 1]);
                            assert(cands[p + 1].id < s[w].attr@.len());
                        }
                    }
                }
                assert forall|p: int|
                    0 <= p < rest_g.len() implies crate::object::attr_domain_wf(
                    #[trigger] rest_g[p],
                ) by {
                    if p < b {
                        assert(rest_g[p] == cands[p]);
                    } else {
                        assert(rest_g[p] == cands[p + 1]);
                    }
                }
            }
            let ghost id_before: usize = *id;
            let child = id3(id, &mpi, &rest);
            let ghost id_after: usize = *id;
            let ghost cs0 = node.children@;
            node.add_child(child, &attr.values[vi], &mpi);
            proof {
                let stored = node.children@.last();
                assert(node.children@ =~= cs0.push(stored));
                // The stored child agrees with the returned child on label
                // and children, so the recursive facts carry over.
                assert(built_from(rest_g, subview, stored));
                assert(ids_pre(stored) =~= ids_pre(child));
                assert(depth(stored) == depth(child));
                assert(all_splits_ok(rest_g, stored));
                // Identities stay consecutive.
                lemma_ids_children_push(cs0, stored, 0);
                assert(ids_pre_children(node.children@, 0) =~= id_range(
                    id1 as int,
                    id_after as int,
                ));
                // Depth stays within the candidate budget.
                lemma_depth_children_push(cs0, stored, 0, cands.len() as nat);
                // The new child is the build for its partition.
                assert(node.children@.drop_last() =~= cs0);
                assert(built_children(rest_g, s, av.id as int, vs, vi + 1, node.children@));
                // Edge bookkeeping.
                picked = picked.push(vi as int);
                assert(picked_ok(vs, node.children@, picked));
                assert(edge_readable(stored)) by {
                    assert(plain_token(vs[vi as int]));
                    assert(stored.trans@ == edge_text(vs[vi as int], subview));
                    assert(stored.trans@.take(stored.edge@.len() as int) =~= stored.edge@);
                }
                lemma_splits_ok_weaken(rest_g, cands, stored);
                lemma_splits_children_push(cands, cs0, stored, 0);
                // Counter bookkeeping.
                processed = processed + subview.len();
                assert(*id <= id1 + processed * (c_n as nat)) by (nonlinear_arith)
                    requires
                        id_after <= id_before + subview.len() * (rest_g.len() + 1),
                        id_before <= id1 + (processed - subview.len()) * (c_n as nat),
                        rest_g.len() + 1 == c_n,
                        *id == id_after,
                        processed >= subview.len(),
                        c_n >= 1,
                ;
            }
        } else {
            proof {
                assert(subview.len() == 0);
                assert(built_children(rest_g, s, av.id as int, vs, vi + 1, node.children@));
            }
        }
        vi = vi + 1;
    }
    proof {
        // The whole subset was offered to the partitions.
        assert(sub_lens(s, av.id as int, vs, vi as int) == 0);
        // The tree is the build for this subset.
        assert(built_from(cands, s, node));
        // Identities: the root, then the children, consecutively.
        assert(ids_pre(node) =~= id_range(id0 as int, *id as int));
        // Counter bound.
        assert(*id <= id0 as int + s.len() * (cands.len() + 1)) by (nonlinear_arith)
            requires
                *id <= id1 + processed * (c_n as nat),
                id1 == id0 + 1,
                processed <= s.len(),
                c_n == cands.len(),
                c_n >= 1,
                s.len() >= 1,
        ;
        // The root's own split is within the chosen attribute's domain.
        if node.children@.len() > 0 {
            lemma_picked_at_least(picked, picked.len() - 1);
            assert(node.children@.len() <= av.values@.len());
            assert(split_ok(cands, node)) by {
                assert(0 <= b < cands.len() && node.children@.len() <= cands[b].values@.len()
                    && (exists|pk: Seq<int>|
                    picked_ok(str_views(cands[b].values@), node.children@, pk)));
                assert forall|p: int, q: int|
                    0 <= p < q < node.children@.len() implies node.children@[p].edge@
                    != node.children@[q].edge@ by {
                    assert(picked[p] < picked[q]);
                    assert(node.children@[p].edge@ == vs[picked[p]]);
                    assert(node.children@[q].edge@ == vs[picked[q]]);
                }
            }
        }
    }
    node
}

/// Every object of a partition is an object of the subset.
pub proof fn lemma_sub_objs_elems(s: Seq<Object>, ai: int, v: Seq<char>)
    ensures
        forall|q: int|
            0 <= q < sub_objs(s, ai, v).len() ==> s.contains(#[trigger] sub_objs(s, ai, v)[q]),
    decreases s.len(),
{
    if s.len() > 0 {
        let t = s.drop_last();
        lemma_sub_objs_elems(t, ai, v);
        assert forall|q: int| 0 <= q < sub_objs(s, ai, v).len() implies s.contains(
            #[trigger] sub_objs(s, ai, v)[q],
        ) by {
            let sub = sub_objs(s, ai, v);
            let subt = sub_objs(t, ai, v);
            if q < subt.len() {
                assert(subt[q] == sub[q]);
                assert(t.contains(subt[q]));
                let w = choose|w: int| 0 <= w < t.len() && t[w] == subt[q];
                assert(s[w] == subt[q]);
            } else {
                assert(sub[q] == s.last());
                assert(s[s.len() - 1] == s.last());
            }
        }
    }
}

} // verus!
