//! Document-tree structure: append, navigation, traversal orders.

use frameui::element::{Element, ElementData, RawElementAttributes, RootElement, UnstyledElement};
use frameui::tree::{NodeEdge, Tree};

fn unstyled() -> Element {
    Element::new(ElementData::Unstyled(UnstyledElement), RawElementAttributes::empty())
}

#[test]
fn append_links_children_in_document_order() {
    let mut tree = Tree::new(Element::new(
        ElementData::Root(RootElement),
        RawElementAttributes::empty(),
    ));
    let root = tree.root();
    let a = root.append(&mut tree, unstyled());
    let b = root.append(&mut tree, unstyled());
    let c = a.append(&mut tree, unstyled());
    assert_eq!(a.index, 1);
    assert_eq!(b.index, 2);
    assert_eq!(c.index, 3);
    assert_eq!(root.inner(&tree).first_child(), Some(a));
    assert_eq!(root.inner(&tree).last_child(), Some(b));
    assert_eq!(a.inner(&tree).next_sibling(), Some(b));
    assert_eq!(b.inner(&tree).previous_sibling(), Some(a));
    assert_eq!(c.inner(&tree).parent(), Some(a));
    assert_eq!(b.inner(&tree).next_sibling(), None);
}

#[test]
fn children_yields_only_direct_children() {
    let mut tree = Tree::new(Element::new(
        ElementData::Root(RootElement),
        RawElementAttributes::empty(),
    ));
    let root = tree.root();
    let a = root.append(&mut tree, unstyled());
    let b = root.append(&mut tree, unstyled());
    let _grandchild = a.append(&mut tree, unstyled());
    let mut kids = root.children(&tree);
    assert_eq!(kids.next(), Some(a));
    assert_eq!(kids.next(), Some(b));
    assert_eq!(kids.next(), None);
}

#[test]
fn descendants_is_preorder_depth_first() {
    let mut tree = Tree::new(Element::new(
        ElementData::Root(RootElement),
        RawElementAttributes::empty(),
    ));
    let root = tree.root();
    let a = root.append(&mut tree, unstyled());
    let b = root.append(&mut tree, unstyled());
    let a1 = a.append(&mut tree, unstyled());
    let order: Vec<usize> = root.descendants(&tree).items.iter().map(|n| n.index).collect();
    assert_eq!(order, vec![root.index, a.index, a1.index, b.index]);
}

#[test]
fn traverse_yields_start_and_end_edges() {
    let mut tree = Tree::new(Element::new(
        ElementData::Root(RootElement),
        RawElementAttributes::empty(),
    ));
    let root = tree.root();
    let a = root.append(&mut tree, unstyled());
    let edges = root.traverse(&tree).items;
    assert_eq!(edges.len(), 4);
    assert_eq!(edges[0], NodeEdge::Start(root));
    assert_eq!(edges[1], NodeEdge::Start(a));
    assert_eq!(edges[2], NodeEdge::End(a));
    assert_eq!(edges[3], NodeEdge::End(root));
}

#[test]
fn next_of_next_steps_the_walk() {
    let mut tree = Tree::new(Element::new(
        ElementData::Root(RootElement),
        RawElementAttributes::empty(),
    ));
    let root = tree.root();
    let a = root.append(&mut tree, unstyled());
    let t = frameui::tree::Traverse::next_of_next(&tree, root, NodeEdge::Start(root));
    assert_eq!(t, Some(NodeEdge::Start(a)));
    let t = frameui::tree::Traverse::next_of_next(&tree, root, NodeEdge::Start(a));
    assert_eq!(t, Some(NodeEdge::End(a)));
    let t = frameui::tree::Traverse::next_of_next(&tree, root, NodeEdge::End(a));
    assert_eq!(t, Some(NodeEdge::End(root)));
    let t = frameui::tree::Traverse::next_of_next(&tree, root, NodeEdge::End(root));
    assert_eq!(t, None);
}

#[test]
fn load_rejects_corrupted_payloads() {
    let mut tree = Tree::new(Element::new(
        ElementData::Root(RootElement),
        RawElementAttributes::empty(),
    ));
    let root = tree.root();
    let _a = root.append(&mut tree, unstyled());
    let doc = frameui::document::CompiledDocument::new(tree, frameui::style::StyleSheet::new());
    let bytes = doc.save();
    // The loader accepts exactly the canonical serialization: flipping
    // any byte of the payload must make it refuse.
    for k in 5..bytes.len() {
        let mut corrupted = bytes.clone();
        corrupted[k] ^= 0xFF;
        assert!(frameui::codec::load(&corrupted).is_err(), "byte {k}");
    }
    // Trailing bytes are refused too.
    let mut extended = bytes.clone();
    extended.extend_from_slice(&[0; 8]);
    assert!(frameui::codec::load(&extended).is_err());
    assert!(frameui::codec::load(&bytes).is_ok());
}
