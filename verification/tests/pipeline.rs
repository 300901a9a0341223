//! End-to-end compile / style / save / load behaviour.

use frameui::compiler::{compile, CompileFailure, StructureViolation};
use frameui::style::Value;

fn doc_text() -> &'static str {
    "<Frame><Head><Style type=\"css\">\
     Unstyled { width: 10px; }\
     .x { width: 20px; margin-left: 2.5px; background-color: red }\
     </Style></Head>\
     <Body><Unstyled id=\"a\" class=\"x y\"><Unstyled id=\"b\"/></Unstyled></Body></Frame>"
}

#[test]
fn compile_builds_tree_and_stylesheet() {
    let comp = compile(doc_text(), "file:///doc.fui").expect("compile should succeed");
    let doc = comp.finish().expect("no blocking diagnostics");
    // Root plus two Unstyled elements.
    assert_eq!(doc.tree.len(), 3);
    assert_eq!(doc.stylesheet.rules.len(), 2);
    let items = doc.root().descendants(&doc.tree).items;
    assert_eq!(items.len(), 3);
    let first = items[1];
    let el = &first.inner(&doc.tree).data;
    assert_eq!(el.id.as_deref(), Some("a"));
    assert_eq!(el.classes, vec!["x".to_string(), "y".to_string()]);
}

#[test]
fn cascade_later_rule_wins() {
    // Both rules match the element carrying class `x`; the later one sets
    // the width that sticks, whatever the selectors' specificity.
    let comp = compile(doc_text(), "file:///doc.fui").expect("compile should succeed");
    let mut doc = comp.finish().expect("no blocking diagnostics");
    doc.compute_style(Vec::new());
    let items = doc.root().descendants(&doc.tree).items;
    let styled = &items[1].inner(&doc.tree).data.computed;
    assert_eq!(styled.width, Value::Px(20000));
    assert_eq!(styled.margin_left, Value::Px(2500));
    assert_eq!(styled.background_color.r, 255);
    assert_eq!(styled.background_color.a, 255);
    // The plain child got only the type-selector rule.
    let plain = &items[2].inner(&doc.tree).data.computed;
    assert_eq!(plain.width, Value::Px(10000));
}

#[test]
fn compute_style_is_idempotent() {
    let comp = compile(doc_text(), "file:///doc.fui").expect("compile should succeed");
    let mut doc = comp.finish().expect("no blocking diagnostics");
    doc.compute_style(Vec::new());
    let first: Vec<_> = doc
        .root()
        .descendants(&doc.tree)
        .items
        .iter()
        .map(|n| n.inner(&doc.tree).data.computed)
        .collect();
    doc.compute_style(Vec::new());
    let second: Vec<_> = doc
        .root()
        .descendants(&doc.tree)
        .items
        .iter()
        .map(|n| n.inner(&doc.tree).data.computed)
        .collect();
    assert_eq!(first, second);
}

#[test]
fn save_load_roundtrip() {
    let comp = compile(doc_text(), "file:///doc.fui").expect("compile should succeed");
    let doc = comp.finish().expect("no blocking diagnostics");
    let bytes = doc.save();
    assert_eq!(&bytes[0..5], &[0x46, 0x55, 0x69, 0x53, 0]);
    let loaded = frameui::codec::load(&bytes).expect("load should succeed");
    assert_eq!(loaded.tree.len(), doc.tree.len());
    assert_eq!(loaded.stylesheet.rules.len(), doc.stylesheet.rules.len());
    let a = doc.root().descendants(&doc.tree).items;
    let b = loaded.root().descendants(&loaded.tree).items;
    assert_eq!(a.len(), b.len());
    for k in 0..a.len() {
        let ea = &a[k].inner(&doc.tree).data;
        let eb = &b[k].inner(&loaded.tree).data;
        assert_eq!(ea.classes, eb.classes);
        assert_eq!(ea.id, eb.id);
    }
    // Styling the reloaded document gives the same computed styles.
    let mut doc = doc;
    let mut loaded = loaded;
    doc.compute_style(Vec::new());
    loaded.compute_style(Vec::new());
    let a = doc.root().descendants(&doc.tree).items;
    let b = loaded.root().descendants(&loaded.tree).items;
    for k in 0..a.len() {
        assert_eq!(
            a[k].inner(&doc.tree).data.computed,
            b[k].inner(&loaded.tree).data.computed
        );
    }
}

#[test]
fn load_rejects_bad_magic() {
    let comp = compile(doc_text(), "file:///doc.fui").expect("compile should succeed");
    let doc = comp.finish().expect("no blocking diagnostics");
    let mut bytes = doc.save();
    bytes[0] = 0x47;
    assert!(frameui::codec::load(&bytes).is_err());
}

#[test]
fn duplicate_body_aborts_compilation() {
    let text = "<Frame><Body></Body><Body></Body></Frame>";
    match compile(text, "file:///doc.fui") {
        Err(aborted) => match aborted.failure {
            CompileFailure::Structure(StructureViolation::DuplicateBody) => {}
            other => panic!("wrong failure: {:?}", other),
        },
        Ok(_) => panic!("compile should abort"),
    }
}

#[test]
fn duplicate_frame_aborts_compilation() {
    let text = "<Frame><Body></Body></Frame><Frame><Body></Body></Frame>";
    match compile(text, "file:///doc.fui") {
        Err(aborted) => match aborted.failure {
            CompileFailure::Structure(StructureViolation::DuplicateFrame) => {}
            other => panic!("wrong failure: {:?}", other),
        },
        Ok(_) => panic!("compile should abort"),
    }
}

#[test]
fn missing_body_aborts_compilation() {
    let text = "<Frame><Head></Head></Frame>";
    match compile(text, "file:///doc.fui") {
        Err(aborted) => match aborted.failure {
            CompileFailure::Structure(StructureViolation::MissingBody) => {}
            other => panic!("wrong failure: {:?}", other),
        },
        Ok(_) => panic!("compile should abort"),
    }
}

#[test]
fn unknown_element_aborts_compilation() {
    let text = "<Frame><Body><Widget/></Body></Frame>";
    match compile(text, "file:///doc.fui") {
        Err(aborted) => match aborted.failure {
            CompileFailure::Structure(StructureViolation::UnknownElement { el }) => {
                assert_eq!(el, "Widget");
            }
            other => panic!("wrong failure: {:?}", other),
        },
        Ok(_) => panic!("compile should abort"),
    }
}

#[test]
fn style_attribute_is_unsupported() {
    let text = "<Frame><Body><Unstyled style=\"width: 3px\"/></Body></Frame>";
    match compile(text, "file:///doc.fui") {
        Err(aborted) => match aborted.failure {
            CompileFailure::Structure(StructureViolation::UnsupportedStyleAttribute) => {}
            other => panic!("wrong failure: {:?}", other),
        },
        Ok(_) => panic!("compile should abort"),
    }
}

#[test]
fn info_diagnostic_does_not_fail_checkpoint() {
    // An unknown attribute is an Info-level diagnostic; the compile and
    // its checkpoint still succeed.
    let text = "<Frame><Body><Unstyled frobnicate=\"1\"/></Body></Frame>";
    let comp = compile(text, "file:///doc.fui").expect("compile should succeed");
    assert_eq!(comp.reporter.diagnostics.len(), 1);
    assert!(comp.finish().is_ok());
}

#[test]
fn error_diagnostic_fails_checkpoint() {
    // A fetch failure for an external stylesheet records an Error-level
    // diagnostic; the tree compiled fully, but the checkpoint fails.
    let text = "<Frame><Head><Style src=\"missing.css\"/></Head><Body></Body></Frame>";
    let mut comp = compile(text, "file:///doc.fui").expect("compile should succeed");
    assert!(comp.pending_job().is_some());
    assert!(comp.supply_fetch_failure(false, "no such file".to_string()));
    assert!(comp.finish().is_err());
}

#[test]
fn unexpected_text_aborts_with_diagnostic() {
    let text = "<Frame><Body>stray words</Body></Frame>";
    match compile(text, "file:///doc.fui") {
        Err(aborted) => {
            assert!(matches!(aborted.failure, CompileFailure::Reported));
            assert_eq!(aborted.reporter.diagnostics.len(), 1);
        }
        Ok(_) => panic!("compile should abort"),
    }
}

#[test]
fn css_parse_error_aborts_with_diagnostic() {
    let text = "<Frame><Head><Style type=\"css\">Unstyled { bogus: 1px }</Style></Head>\
                <Body></Body></Frame>";
    match compile(text, "file:///doc.fui") {
        Err(aborted) => assert!(matches!(aborted.failure, CompileFailure::Reported)),
        Ok(_) => panic!("compile should abort"),
    }
}

#[test]
fn preprocessor_failure_fails_checkpoint() {
    let text = "<Frame><Head><Style>body { width: 1px }</Style></Head><Body></Body></Frame>";
    let mut comp = compile(text, "file:///doc.fui").expect("compile should succeed");
    // An inline style without a type is the preprocessed dialect; it waits
    // for the bridge.
    assert!(comp.pending_job().is_some());
    assert!(comp.supply_preprocessor_failure(
        "inline.scss".to_string(),
        "body { width: 1px }".to_string(),
        0,
        0,
        "bridge unavailable".to_string(),
    ));
    assert!(comp.finish().is_err());
}
