//! The produced decision tree: nodes with an integer identity, a display
//! label, an incoming-edge label, and ordered children.

use vstd::prelude::*;
use vstd::string::StringExecFns;
use crate::object::{derefs, Object};
use crate::text::{dec_digits, joined, push_usize};

verus! {

/// A node of the produced decision tree.
pub struct Node {
    /// Identity: unique, strictly increasing in construction (pre-)order.
    pub id: usize,
    /// Display label: a class label for leaves, an attribute record for
    /// internal nodes.
    pub label: String,
    /// Label of the incoming edge; empty for the root.
    pub trans: String,
    /// Children, ordered by the domain order of the attribute split on.
    pub children: Vec<Node>,
    /// The domain value that the incoming edge tests; empty for the root.
    /// Ghost: the executable edge label `trans` renders it together with the
    /// ids of the objects that took the edge.
    pub edge: Ghost<Seq<char>>,
}

/// Sequence of the identities of all nodes of the subtree rooted at `n`,
/// in pre-order.
pub open spec fn ids_pre(n: Node) -> Seq<int>
    decreases n, 0int,
{
    seq![n.id as int] + ids_pre_children(n.children@, 0)
}

/// Identities of the subtrees `cs[from..]`, concatenated in order.
pub open spec fn ids_pre_children(cs: Seq<Node>, from: int) -> Seq<int>
    decreases cs, cs.len() - from,
{
    if from < 0 || from >= cs.len() {
        Seq::empty()
    } else {
        ids_pre(cs[from]) + ids_pre_children(cs, from + 1)
    }
}

/// Depth of the subtree rooted at `n`: 0 for a leaf, one more than the
/// deepest child otherwise.
pub open spec fn depth(n: Node) -> nat
    decreases n, 0int,
{
    depth_children(n.children@, 0)
}

/// One more than the greatest depth among the subtrees `cs[from..]`;
/// 0 when no subtree is left.
pub open spec fn depth_children(cs: Seq<Node>, from: int) -> nat
    decreases cs, cs.len() - from,
{
    if from < 0 || from >= cs.len() {
        0
    } else {
        let d = depth(cs[from]) + 1;
        let r = depth_children(cs, from + 1);
        if d >= r {
            d as nat
        } else {
            r
        }
    }
}

/// The rendered name of the node with identity `id`.
pub open spec fn name_of(id: int) -> Seq<char> {
    seq!['u', 'z', 'e', 'l'] + dec_digits(id as nat)
}

/// The edge label for domain value `v` taken by the objects `objs`:
/// the value, a space, and the object ids joined by commas in braces.
pub open spec fn edge_text(v: Seq<char>, objs: Seq<Object>) -> Seq<char> {
    v + seq![' ', '{'] + joined(obj_ids(objs), seq![','], objs.len() as int) + seq!['}']
}

/// The rendered decimal ids of a sequence of objects, in order.
pub open spec fn obj_ids(objs: Seq<Object>) -> Seq<Seq<char>> {
    objs.map_values(|o: Object| dec_digits(o.id as nat))
}

/// The graph-description text of the subtree rooted at `n`: one node
/// statement per node (rounded box for leaves, record for internal nodes),
/// and after an internal node's statement one edge statement and the full
/// rendering of each child, in order.
pub open spec fn graph_text(n: Node) -> Seq<char>
    decreases n, 0int,
{
    if n.children@.len() == 0 {
        "    "@ + name_of(n.id as int) + " [shape=box, style=rounded, label=\""@ + n.label@
            + "\"]\n"@
    } else {
        "    "@ + name_of(n.id as int) + " [shape=record, label=\""@ + n.label@ + "\"]\n"@
            + graph_children(name_of(n.id as int), n.children@, 0)
    }
}

/// The edge statements and renderings of the subtrees `cs[from..]`.
pub open spec fn graph_children(parent: Seq<char>, cs: Seq<Node>, from: int) -> Seq<char>
    decreases cs, cs.len() - from,
{
    if from < 0 || from >= cs.len() {
        Seq::empty()
    } else {
        "    "@ + parent + " -> "@ + name_of(cs[from].id as int) + " [label=\""@ + cs[from].trans@
            + "\"]\n"@ + graph_text(cs[from]) + graph_children(parent, cs, from + 1)
    }
}

/// The markup text of the subtree rooted at `n`: the node's own line, then
/// for each child an edge line followed by the child's full rendering.
pub open spec fn markup_text(n: Node) -> Seq<char>
    decreases n, 0int,
{
    name_of(n.id as int) + " [label=\""@ + n.label@ + "\"]\n"@ + markup_children(
        name_of(n.id as int),
        n.children@,
        0,
    )
}

/// The edge lines and renderings of the subtrees `cs[from..]`.
pub open spec fn markup_children(parent: Seq<char>, cs: Seq<Node>, from: int) -> Seq<char>
    decreases cs, cs.len() - from,
{
    if from < 0 || from >= cs.len() {
        Seq::empty()
    } else {
        parent + " -> "@ + name_of(cs[from].id as int) + " [label=\""@ + cs[from].trans@
            + "\"]\n"@ + markup_text(cs[from]) + markup_children(parent, cs, from + 1)
    }
}

/// Appends the rendered name of the node with identity `id` to `s`.
pub fn push_name(s: &mut String, id: usize)
    ensures
        final(s)@ == old(s)@ + name_of(id as int),
{
    let ghost base: Seq<char> = s@;
    s.append("uzel");
    push_usize(s, id);
    proof {
        reveal_strlit("uzel");
        assert(s@ =~= base + name_of(id as int));
    }
}

impl Node {
    /// Creates a new leaf node.
    pub fn leaf(id: usize, label: String) -> (r: Node)
        ensures
            r.id == id,
            r.label == label,
            r.trans@ == Seq::<char>::empty(),
            r.children@ =~= Seq::<Node>::empty(),
            r.edge@ == Seq::<char>::empty(),
    {
        Node {
            id,
            label,
            trans: String::new(),
            children: Vec::new(),
            edge: Ghost(Seq::empty()),
        }
    }

    /// Renders the graph-description text for the subtree rooted at this
    /// node: node statements and edge statements in pre-order, ready for an
    /// external graph-layout tool.
    pub fn graph_write(&self) -> (r: String)
        ensures
            r@ == graph_text(*self),
    {
        let mut out = String::new();
        self.graph_write_into(&mut out);
        proof {
            assert(out@ =~= graph_text(*self));
        }
        out
    }

    /// Appends this subtree's graph-description text to `out`.
    fn graph_write_into(&self, out: &mut String)
        ensures
            final(out)@ == old(out)@ + graph_text(*self),
        decreases *self,
    {
        let ghost base: Seq<char> = out@;
        out.append("    ");
        push_name(out, self.id);
        if self.children.len() == 0 {
            out.append(" [shape=box, style=rounded, label=\"");
            out.append(self.label.as_str());
            out.append("\"]\n");
            proof {
                assert(out@ =~= base + graph_text(*self));
            }
            return ;
        }
        out.append(" [shape=record, label=\"");
        out.append(self.label.as_str());
        out.append("\"]\n");
        let ghost own: Seq<char> = out@;
        let ghost nm = name_of(self.id as int);
        proof {
            assert(own =~= base + ("    "@ + name_of(self.id as int)
                + " [shape=record, label=\""@ + self.label@ + "\"]\n"@));
        }
        let mut i: usize = 0;
        while i < self.children.len()
            invariant
                0 <= i <= self.children@.len(),
                nm == name_of(self.id as int),
                out@ + graph_children(nm, self.children@, i as int) == own + graph_children(
                    nm,
                    self.children@,
                    0,
                ),
            decreases self.children@.len() - i,
        {
            let ghost before: Seq<char> = out@;
            out.append("    ");
            push_name(out, self.id);
            out.append(" -> ");
            push_name(out, self.children[i].id);
            out.append(" [label=\"");
            out.append(self.children[i].trans.as_str());
            out.append("\"]\n");
            self.children[i].graph_write_into(out);
            proof {
                let cs = self.children@;
                assert(out@ =~= before + ("    "@ + nm + " -> "@ + name_of(cs[i as int].id as int)
                    + " [label=\""@ + cs[i as int].trans@ + "\"]\n"@ + graph_text(cs[i as int])));
                assert(graph_children(nm, cs, i as int) =~= ("    "@ + nm + " -> "@ + name_of(
                    cs[i as int].id as int,
                ) + " [label=\""@ + cs[i as int].trans@ + "\"]\n"@ + graph_text(cs[i as int]))
                    + graph_children(nm, cs, i + 1));
                assert(out@ + graph_children(nm, cs, i + 1) =~= own + graph_children(nm, cs, 0));
            }
            i = i + 1;
        }
        proof {
            assert(out@ =~= out@ + graph_children(nm, self.children@, i as int));
            assert(graph_text(*self) =~= own.skip(base.len() as int) + graph_children(
                nm,
                self.children@,
                0,
            ));
            assert(out@ =~= base + graph_text(*self));
        }
    }

    /// Renders the markup text for the subtree rooted at this node: one
    /// line per node and one per edge, in pre-order.
    pub fn markup(&self) -> (r: String)
        ensures
            r@ == markup_text(*self),
    {
        let mut out = String::new();
        self.markup_into(&mut out);
        proof {
            assert(out@ =~= markup_text(*self));
        }
        out
    }

    /// Appends this subtree's markup text to `out`.
    fn markup_into(&self, out: &mut String)
        ensures
            final(out)@ == old(out)@ + markup_text(*self),
        decreases *self,
    {
        let ghost base: Seq<char> = out@;
        push_name(out, self.id);
        out.append(" [label=\"");
        out.append(self.label.as_str());
        out.append("\"]\n");
        let ghost own: Seq<char> = out@;
        let ghost nm = name_of(self.id as int);
        proof {
            assert(own =~= base + (name_of(self.id as int) + " [label=\""@ + self.label@
                + "\"]\n"@));
        }
        let mut i: usize = 0;
        while i < self.children.len()
            invariant
                0 <= i <= self.children@.len(),
                nm == name_of(self.id as int),
                out@ + markup_children(nm, self.children@, i as int) == own + markup_children(
                    nm,
                    self.children@,
                    0,
                ),
            decreases self.children@.len() - i,
        {
            let ghost before: Seq<char> = out@;
            push_name(out, self.id);
            out.append(" -> ");
            push_name(out, self.children[i].id);
            out.append(" [label=\"");
            out.append(self.children[i].trans.as_str());
            out.append("\"]\n");
            self.children[i].markup_into(out);
            proof {
                let cs = self.children@;
                assert(out@ =~= before + (nm + " -> "@ + name_of(cs[i as int].id as int)
                    + " [label=\""@ + cs[i as int].trans@ + "\"]\n"@ + markup_text(cs[i as int])));
                assert(markup_children(nm, cs, i as int) =~= (nm + " -> "@ + name_of(
                    cs[i as int].id as int,
                ) + " [label=\""@ + cs[i as int].trans@ + "\"]\n"@ + markup_text(cs[i as int]))
                    + markup_children(nm, cs, i + 1));
                assert(out@ + markup_children(nm, cs, i + 1) =~= own + markup_children(nm, cs, 0));
            }
            i = i + 1;
        }
        proof {
            assert(out@ =~= out@ + markup_children(nm, self.children@, i as int));
            assert(markup_text(*self) =~= own.skip(base.len() as int) + markup_children(
                nm,
                self.children@,
                0,
            ));
            assert(out@ =~= base + markup_text(*self));
        }
    }

    /// Appends `child` to this node's children, labelling the edge into it
    /// with the domain value `val` and the ids of the objects `mp` whose
    /// partition the child covers.
    pub fn add_child(&mut self, child: Node, val: &String, mp: &Vec<&Object>)
        ensures
            final(self).id == old(self).id,
            final(self).label == old(self).label,
            final(self).trans == old(self).trans,
            final(self).edge == old(self).edge,
            final(self).children@.len() == old(self).children@.len() + 1,
            forall|i: int|
                0 <= i < old(self).children@.len() ==> final(self).children@[i] == old(
                    self,
                ).children@[i],
            final(self).children@.last().id == child.id,
            final(self).children@.last().label == child.label,
            final(self).children@.last().children == child.children,
            final(self).children@.last().trans@ == edge_text(val@, derefs(mp@)),
            final(self).children@.last().edge@ == val@,
    {
        let mut child = child;
        let mut t = val.clone();
        t.append(" {");
        proof {
            reveal_strlit(" {");
            assert(t@ =~= val@ + seq![' ', '{'] + joined(
                obj_ids(derefs(mp@)),
                seq![','],
                0int,
            ));
        }
        let mut i: usize = 0;
        while i < mp.len()
            invariant
                0 <= i <= mp@.len(),
                t@ == val@ + seq![' ', '{'] + joined(
                    obj_ids(derefs(mp@)),
                    seq![','],
                    i as int,
                ),
            decreases mp@.len() - i,
        {
            if i > 0 {
                t.append(",");
                proof {
                    reveal_strlit(",");
                }
            }
            push_usize(&mut t, mp[i].id);
            i = i + 1;
            proof {
                assert(t@ =~= val@ + seq![' ', '{'] + joined(
                    obj_ids(derefs(mp@)),
                    seq![','],
                    i as int,
                ));
            }
        }
        t.append("}");
        proof {
            reveal_strlit("}");
            assert(t@ =~= edge_text(val@, derefs(mp@)));
        }
        child.trans = t;
        child.edge = Ghost(val@);
        self.children.push(child);
    }
}

} // verus!
