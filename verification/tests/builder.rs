use id3_tree::id3::id3;
use id3_tree::node::Node;
use id3_tree::object::{Attr, Object};

fn obj(id: usize, class: &str, vals: &[&str]) -> Object {
    Object::new(
        id,
        class.to_string(),
        vals.iter().map(|v| v.to_string()).collect(),
    )
}

fn attr(id: usize, name: &str, vals: &[&str]) -> Attr {
    Attr {
        id,
        name: name.to_string(),
        values: vals.iter().map(|v| v.to_string()).collect(),
    }
}

#[test]
fn pure_subset_gives_class_leaf() {
    let objects = vec![
        obj(1, "A", &["red"]),
        obj(2, "A", &["green"]),
        obj(3, "A", &["red"]),
    ];
    let attrs = vec![attr(0, "Color", &["red", "green"])];
    let mp: Vec<&Object> = objects.iter().collect();
    let mv: Vec<&Attr> = attrs.iter().collect();
    let mut id: usize = 0;
    let tree = id3(&mut id, &mp, &mv);
    assert_eq!(tree.label, "A");
    assert!(tree.children.is_empty());
    assert_eq!(tree.id, 0);
    assert_eq!(id, 1);
}

#[test]
fn exhausted_attributes_give_disjunction_leaf() {
    let objects = vec![obj(1, "A", &[]), obj(2, "B", &[]), obj(3, "A", &[])];
    let mp: Vec<&Object> = objects.iter().collect();
    let mv: Vec<&Attr> = Vec::new();
    let mut id: usize = 0;
    let tree = id3(&mut id, &mp, &mv);
    assert_eq!(tree.label, "A^B^A");
    assert!(tree.children.is_empty());
    assert_eq!(id, 1);
}

#[test]
fn two_distinct_classes_no_attributes() {
    let objects = vec![obj(1, "A", &[]), obj(2, "B", &[])];
    let mp: Vec<&Object> = objects.iter().collect();
    let mv: Vec<&Attr> = Vec::new();
    let mut id: usize = 0;
    let tree = id3(&mut id, &mp, &mv);
    assert_eq!(tree.label, "A^B");
    assert!(tree.children.is_empty());
}

#[test]
fn color_split_builds_two_leaves() {
    let objects = vec![
        obj(1, "A", &["red"]),
        obj(2, "A", &["red"]),
        obj(3, "B", &["green"]),
        obj(4, "B", &["green"]),
    ];
    let attrs = vec![attr(0, "Color", &["red", "green"])];
    let mp: Vec<&Object> = objects.iter().collect();
    let mv: Vec<&Attr> = attrs.iter().collect();
    let mut id: usize = 0;
    let tree = id3(&mut id, &mp, &mv);
    assert_eq!(tree.label, "Color|{Color=1.0000}");
    assert_eq!(tree.children.len(), 2);
    assert_eq!(tree.children[0].label, "A");
    assert_eq!(tree.children[0].trans, "red {1,2}");
    assert!(tree.children[0].children.is_empty());
    assert_eq!(tree.children[1].label, "B");
    assert_eq!(tree.children[1].trans, "green {3,4}");
    assert!(tree.children[1].children.is_empty());
}

#[test]
fn identities_are_preorder_consecutive() {
    let objects = vec![
        obj(1, "A", &["red", "s"]),
        obj(2, "A", &["red", "t"]),
        obj(3, "B", &["green", "s"]),
        obj(4, "C", &["green", "t"]),
    ];
    let attrs = vec![
        attr(0, "Color", &["red", "green"]),
        attr(1, "Shape", &["s", "t"]),
    ];
    let mp: Vec<&Object> = objects.iter().collect();
    let mv: Vec<&Attr> = attrs.iter().collect();
    let mut id: usize = 0;
    let tree = id3(&mut id, &mp, &mv);
    let mut seen = Vec::new();
    collect_preorder(&tree, &mut seen);
    let expected: Vec<usize> = (0..seen.len()).collect();
    assert_eq!(seen, expected);
    assert_eq!(id, seen.len());
    // Depth is capped by the number of attributes at the root.
    assert!(depth(&tree) <= 2);
}

fn collect_preorder(n: &Node, out: &mut Vec<usize>) {
    out.push(n.id);
    for c in n.children.iter() {
        collect_preorder(c, out);
    }
}

fn depth(n: &Node) -> usize {
    n.children.iter().map(|c| depth(c) + 1).max().unwrap_or(0)
}

#[test]
fn empty_partition_is_skipped() {
    // Nobody carries the value "blue": no child, no placeholder.
    let objects = vec![
        obj(1, "A", &["red"]),
        obj(2, "B", &["green"]),
    ];
    let attrs = vec![attr(0, "Color", &["red", "blue", "green"])];
    let mp: Vec<&Object> = objects.iter().collect();
    let mv: Vec<&Attr> = attrs.iter().collect();
    let mut id: usize = 0;
    let tree = id3(&mut id, &mp, &mv);
    assert_eq!(tree.children.len(), 2);
    assert_eq!(tree.children[0].trans, "red {1}");
    assert_eq!(tree.children[1].trans, "green {2}");
}

#[test]
fn markup_rendering_matches() {
    let objects = vec![
        obj(1, "A", &["red"]),
        obj(2, "A", &["red"]),
        obj(3, "B", &["green"]),
        obj(4, "B", &["green"]),
    ];
    let attrs = vec![attr(0, "Color", &["red", "green"])];
    let mp: Vec<&Object> = objects.iter().collect();
    let mv: Vec<&Attr> = attrs.iter().collect();
    let mut id: usize = 0;
    let tree = id3(&mut id, &mp, &mv);
    let text = tree.markup();
    let expected = "uzel0 [label=\"Color|{Color=1.0000}\"]\n\
                    uzel0 -> uzel1 [label=\"red {1,2}\"]\n\
                    uzel1 [label=\"A\"]\n\
                    uzel0 -> uzel2 [label=\"green {3,4}\"]\n\
                    uzel2 [label=\"B\"]\n";
    assert_eq!(text, expected);
}

#[test]
fn graph_rendering_matches() {
    let objects = vec![
        obj(1, "A", &["red"]),
        obj(2, "A", &["red"]),
        obj(3, "B", &["green"]),
        obj(4, "B", &["green"]),
    ];
    let attrs = vec![attr(0, "Color", &["red", "green"])];
    let mp: Vec<&Object> = objects.iter().collect();
    let mv: Vec<&Attr> = attrs.iter().collect();
    let mut id: usize = 0;
    let tree = id3(&mut id, &mp, &mv);
    let text = tree.graph_write();
    let expected = "    uzel0 [shape=record, label=\"Color|{Color=1.0000}\"]\n    uzel0 -> uzel1 [label=\"red {1,2}\"]\n    uzel1 [shape=box, style=rounded, label=\"A\"]\n    uzel0 -> uzel2 [label=\"green {3,4}\"]\n    uzel2 [shape=box, style=rounded, label=\"B\"]\n";
    assert_eq!(text, expected);
}

#[test]
fn graph_rendering_of_single_leaf() {
    let tree = Node::leaf(7, "A".to_string());
    assert_eq!(
        tree.graph_write(),
        "    uzel7 [shape=box, style=rounded, label=\"A\"]\n"
    );
    assert_eq!(tree.markup(), "uzel7 [label=\"A\"]\n");
}

#[test]
fn add_child_renders_edge_label() {
    let mut parent = Node::leaf(0, "root".to_string());
    let child = Node::leaf(1, "A".to_string());
    let objects = vec![obj(4, "A", &[]), obj(9, "A", &[])];
    let mp: Vec<&Object> = objects.iter().collect();
    parent.add_child(child, &"red".to_string(), &mp);
    assert_eq!(parent.children.len(), 1);
    assert_eq!(parent.children[0].trans, "red {4,9}");
    assert_eq!(parent.children[0].label, "A");
}

#[test]
fn parse_build_and_render_two_levels() {
    let text = "attributes {\n  Color: red green\n  Shape: s t\n}\n\
                classes {\n  A\n  B\n  C\n}\n\
                objects {\n  1 A red s\n  2 A red t\n  3 B green s\n  4 C green t\n}\n";
    let lines: Vec<String> = text.lines().map(|l| l.to_string()).collect();
    let parsed = id3_tree::parser::Parser::parse(&lines).unwrap();
    let mp: Vec<&Object> = parsed.object.iter().collect();
    let mv: Vec<&Attr> = parsed.attr.iter().collect();
    let mut id: usize = 0;
    let tree = id3(&mut id, &mp, &mv);
    let expected = "uzel0 [label=\"Color|{Color=1.0000|Shape=0.5000}\"]\n\
                    uzel0 -> uzel1 [label=\"red {1,2}\"]\n\
                    uzel1 [label=\"A\"]\n\
                    uzel0 -> uzel2 [label=\"green {3,4}\"]\n\
                    uzel2 [label=\"Shape|{Shape=1.0000}\"]\n\
                    uzel2 -> uzel3 [label=\"s {3}\"]\n\
                    uzel3 [label=\"B\"]\n\
                    uzel2 -> uzel4 [label=\"t {4}\"]\n\
                    uzel4 [label=\"C\"]\n";
    assert_eq!(tree.markup(), expected);
    assert_eq!(id, 5);
}

#[test]
fn counter_threads_across_siblings() {
    // Two subtrees under the root: the counter is never reset in between.
    let objects = vec![
        obj(1, "A", &["x", "p"]),
        obj(2, "B", &["x", "q"]),
        obj(3, "C", &["y", "p"]),
        obj(4, "D", &["y", "q"]),
    ];
    let attrs = vec![attr(0, "U", &["x", "y"]), attr(1, "V", &["p", "q"])];
    let mp: Vec<&Object> = objects.iter().collect();
    let mv: Vec<&Attr> = attrs.iter().collect();
    let mut id: usize = 5;
    let tree = id3(&mut id, &mp, &mv);
    assert_eq!(tree.id, 5);
    let mut seen = Vec::new();
    collect_preorder(&tree, &mut seen);
    let expected: Vec<usize> = (5..5 + seen.len()).collect();
    assert_eq!(seen, expected);
}
