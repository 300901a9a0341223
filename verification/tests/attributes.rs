//! Attribute handling: whitespace splitting, entities, dynamic
//! expressions supplied from outside, and the diagnostic reporter.

use frameui::compiler::compile;
use frameui::diag::{Diagnostic, DiagnosticKind, Level, Reporter};
use frameui::document::{ScriptResult, ScriptTarget};
use frameui::element::RawAttributeValue;

#[test]
fn class_attribute_splits_on_whitespace() {
    let text = "<Frame><Body><Unstyled class=\"  a\tb\nc  \"/></Body></Frame>";
    let doc = compile(text, "file:///doc.fui")
        .expect("compile")
        .finish()
        .expect("finish");
    let items = doc.root().descendants(&doc.tree).items;
    let el = &items[1].inner(&doc.tree).data;
    assert_eq!(el.classes, vec!["a".to_string(), "b".to_string(), "c".to_string()]);
}

#[test]
fn entities_resolve_in_attribute_values() {
    let text = "<Frame><Body><Unstyled id=\"a&amp;b&lt;c&#33;&#x21;\"/></Body></Frame>";
    let doc = compile(text, "file:///doc.fui")
        .expect("compile")
        .finish()
        .expect("finish");
    let items = doc.root().descendants(&doc.tree).items;
    assert_eq!(items[1].inner(&doc.tree).data.id.as_deref(), Some("a&b<c!!"));
}

#[test]
fn comments_are_ignored() {
    let text = "<Frame><!-- note --><Body><!-- also --></Body></Frame>";
    assert!(compile(text, "file:///doc.fui").is_ok());
}

#[test]
fn doctype_and_pi_are_unexpected() {
    assert!(compile("<!DOCTYPE html><Frame><Body></Body></Frame>", "file:///d").is_err());
    assert!(compile("<?pi data?><Frame><Body></Body></Frame>", "file:///d").is_err());
    assert!(compile("<?xml version=\"1.0\"?><Frame><Body></Body></Frame>", "file:///d").is_err());
    assert!(compile("<Frame><Body><![CDATA[x]]></Body></Frame>", "file:///d").is_err());
}

#[test]
fn truncated_document_is_unexpected_eof() {
    let aborted = compile("<Frame><Body>", "file:///d").unwrap_err();
    assert_eq!(aborted.reporter.diagnostics.len(), 1);
    assert!(matches!(
        aborted.reporter.diagnostics[0].kind,
        DiagnosticKind::UnexpectedEof
    ));
}

#[test]
fn script_results_feed_dynamic_attributes() {
    // Build a document whose class and id are dynamic expressions, as a
    // deserialized document could carry them.
    let text = "<Frame><Body><Unstyled/></Body></Frame>";
    let mut doc = compile(text, "file:///doc.fui")
        .expect("compile")
        .finish()
        .expect("finish");
    let items = doc.root().descendants(&doc.tree).items;
    let node = items[1];
    let el = frameui::element::Element::new(
        frameui::element::ElementData::Unstyled(frameui::element::UnstyledElement),
        frameui::element::RawElementAttributes {
            class: Some(RawAttributeValue::Script {
                script: "class_list()".to_string(),
                up_to_date: false,
            }),
            id: Some(RawAttributeValue::Script {
                script: "compute_id()".to_string(),
                up_to_date: false,
            }),
            style: None,
        },
    );
    doc.tree.set_data(node, el);
    let jobs = doc.script_jobs();
    assert_eq!(jobs.len(), 2);
    assert_eq!(jobs[0].target, ScriptTarget::Classes);
    assert_eq!(jobs[0].script, "class_list()");
    assert_eq!(jobs[1].target, ScriptTarget::Id);
    doc.compute_style(vec![
        ScriptResult::Classes {
            node,
            values: vec!["from_script".to_string()],
        },
        ScriptResult::Id { node, value: "dyn_id".to_string() },
    ]);
    let el = &node.inner(&doc.tree).data;
    assert_eq!(el.classes, vec!["from_script".to_string()]);
    assert_eq!(el.id.as_deref(), Some("dyn_id"));
}

#[test]
fn reporter_translates_positions() {
    let mut reporter = Reporter::new();
    let fid = reporter.add_file("f".to_string(), "ab\ncd\nef".to_string());
    assert_eq!(reporter.get_position(fid, 0, 0), 0);
    assert_eq!(reporter.get_position(fid, 1, 1), 4);
    assert_eq!(reporter.get_position(fid, 2, 0), 6);
    assert_eq!(reporter.get_line(fid, 0), 0);
    assert_eq!(reporter.get_line(fid, 4), 1);
    assert_eq!(reporter.get_line(fid, 7), 2);
}

#[test]
fn checkpoint_gates_on_severity() {
    let mut reporter = Reporter::new();
    reporter.add_diagnostic(Diagnostic {
        kind: DiagnosticKind::UnexpectedText,
        location: None,
        min_level: Level::Info,
    });
    reporter.add_diagnostic(Diagnostic {
        kind: DiagnosticKind::UnexpectedText,
        location: None,
        min_level: Level::Warn,
    });
    assert!(reporter.checkpoint().is_ok());
    reporter.add_diagnostic(Diagnostic {
        kind: DiagnosticKind::IOError("gone".to_string()),
        location: None,
        min_level: Level::Error,
    });
    assert!(reporter.checkpoint().is_err());
}
