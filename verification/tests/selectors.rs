//! Selector parsing and matching against compiled trees.

use frameui::compiler::compile;
use frameui::document::CompiledDocument;

fn single_node_doc() -> CompiledDocument {
    let text = "<Frame><Body><Unstyled id=\"a\" class=\"x y\"/></Body></Frame>";
    compile(text, "file:///doc.fui")
        .expect("compile should succeed")
        .finish()
        .expect("no blocking diagnostics")
}

#[test]
fn query_selector_finds_by_id_and_class() {
    let doc = single_node_doc();
    let node = doc.query_selector("#a").expect("id should match");
    assert_eq!(node.index, 1);
    assert_eq!(doc.query_selector(".x").expect("class x").index, 1);
    assert_eq!(doc.query_selector(".y").expect("class y").index, 1);
    assert!(doc.query_selector(".z").is_none());
}

#[test]
fn query_selector_matches_types_and_universal() {
    let doc = single_node_doc();
    assert_eq!(doc.query_selector("Unstyled").expect("type").index, 1);
    // The universal selector matches the root first, in pre-order.
    assert_eq!(doc.query_selector("*").expect("universal").index, 0);
}

#[test]
fn query_selector_child_and_descendant_combinators() {
    let text = "<Frame><Body>\
                <Unstyled id=\"outer\" class=\"box\">\
                <Unstyled id=\"mid\"><Unstyled id=\"inner\" class=\"leaf\"/></Unstyled>\
                </Unstyled></Body></Frame>";
    let doc = compile(text, "file:///doc.fui")
        .expect("compile")
        .finish()
        .expect("finish");
    // Child: `inner` is not a direct child of `outer`.
    assert!(doc.query_selector("#outer > #inner").is_none());
    assert_eq!(doc.query_selector("#mid > #inner").expect("child").index, 3);
    // Descendant: any depth.
    assert_eq!(
        doc.query_selector(".box .leaf").expect("descendant").index,
        3
    );
    assert_eq!(
        doc.query_selector("#outer #mid #inner").expect("chain").index,
        3
    );
    assert!(doc.query_selector(".leaf .box").is_none());
}

#[test]
fn selector_lists_match_any_member() {
    let doc = single_node_doc();
    assert_eq!(doc.query_selector(".z, #a").expect("list").index, 1);
    assert!(doc.query_selector(".z, .w").is_none());
}

#[test]
fn malformed_selectors_match_nothing() {
    let doc = single_node_doc();
    assert!(doc.query_selector("#").is_none());
    assert!(doc.query_selector(":hover").is_none());
    assert!(doc.query_selector("").is_none());
}

#[test]
fn class_matching_is_case_sensitive() {
    let doc = single_node_doc();
    assert!(doc.query_selector(".X").is_none());
    assert!(doc.query_selector("#A").is_none());
}
