//! Style type selection and inference from filenames.

use frameui::compiler::compile;
use frameui::style_src::{infer_style_type, StyleJobSource, StyleType};

#[test]
fn extension_selects_the_style_type() {
    assert_eq!(infer_style_type("a.b.scss"), StyleType::SCSS);
    assert_eq!(infer_style_type("a.css"), StyleType::CSS);
    assert_eq!(infer_style_type("a.sass"), StyleType::Sass);
    assert_eq!(infer_style_type("noext"), StyleType::SCSS);
    assert_eq!(infer_style_type("weird.less"), StyleType::SCSS);
    assert_eq!(infer_style_type("a."), StyleType::SCSS);
    assert_eq!(infer_style_type(".css"), StyleType::CSS);
}

#[test]
fn inference_is_case_sensitive() {
    assert_eq!(infer_style_type("a.CSS"), StyleType::SCSS);
}

#[test]
fn src_reference_is_resolved_and_typed() {
    let text = "<Frame><Head><Style src=\"sub/a.b.scss\"/></Head><Body></Body></Frame>";
    let comp = compile(text, "file:///dir/doc.fui").expect("compile");
    let job = comp.pending_job().expect("one job");
    assert_eq!(job.ty, StyleType::SCSS);
    match &job.source {
        StyleJobSource::Url(u) => assert_eq!(u, "file:///dir/sub/a.b.scss"),
        other => panic!("wrong source: {:?}", other),
    }
    assert_eq!(job.input_path, "file:///dir/sub/a.b.scss");
}

#[test]
fn explicit_type_attribute_wins_over_extension() {
    let text = "<Frame><Head><Style src=\"a.b.scss\" type=\"css\"/></Head><Body></Body></Frame>";
    let comp = compile(text, "file:///doc.fui").expect("compile");
    assert_eq!(comp.pending_job().expect("job").ty, StyleType::CSS);
}

#[test]
fn unknown_type_value_is_an_info_diagnostic_and_inference_applies() {
    let text = "<Frame><Head><Style src=\"a.css\" type=\"stylus\"/></Head><Body></Body></Frame>";
    let comp = compile(text, "file:///doc.fui").expect("compile");
    assert_eq!(comp.reporter.diagnostics.len(), 1);
    assert_eq!(comp.pending_job().expect("job").ty, StyleType::CSS);
}

#[test]
fn missing_src_on_self_closing_style_aborts() {
    let text = "<Frame><Head><Style type=\"css\"/></Head><Body></Body></Frame>";
    assert!(compile(text, "file:///doc.fui").is_err());
}

#[test]
fn external_css_is_fetched_then_parsed() {
    let text = "<Frame><Head><Style src=\"extra.css\"/></Head><Body>\
                <Unstyled class=\"k\"/></Body></Frame>";
    let mut comp = compile(text, "file:///doc.fui").expect("compile");
    assert!(comp.supply_css(".k { width: 7px }"));
    let mut doc = comp.finish().expect("finish");
    doc.compute_style(Vec::new());
    let items = doc.root().descendants(&doc.tree).items;
    assert_eq!(
        items[1].inner(&doc.tree).data.computed.width,
        frameui::style::Value::Px(7000)
    );
}

#[test]
fn preprocessed_css_parses_after_the_bridge() {
    let text = "<Frame><Head><Style>.k { width: 9px }</Style></Head><Body>\
                <Unstyled class=\"k\"/></Body></Frame>";
    let mut comp = compile(text, "file:///doc.fui").expect("compile");
    // The bridge compiled the source to identical CSS with an empty map.
    let map = frameui::sourcemap::SourceMap {
        sources: Vec::new(),
        sources_content: Vec::new(),
        mappings: Vec::new(),
    };
    assert!(comp.supply_preprocessed(".k { width: 9px }", &map));
    let mut doc = comp.finish().expect("finish");
    doc.compute_style(Vec::new());
    let items = doc.root().descendants(&doc.tree).items;
    assert_eq!(
        items[1].inner(&doc.tree).data.computed.width,
        frameui::style::Value::Px(9000)
    );
}
