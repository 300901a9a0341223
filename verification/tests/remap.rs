//! Source-map decoding and the greatest-lower-bound position remapping,
//! exercised with synthetic mappings.

use frameui::sourcemap::{parse_mappings, Mapping, MappingOrigin, SourceMap};

#[test]
fn decodes_simple_vlq_mappings() {
    // "AAAA" is the all-zero segment: generated column 0 maps to source 0,
    // line 0, column 0. The second line starts a fresh generated column.
    let ms = parse_mappings("AAAA;AACA").expect("mappings should decode");
    assert_eq!(ms.len(), 2);
    assert_eq!(ms[0].gen_line, 0);
    assert_eq!(ms[0].gen_col, 0);
    assert_eq!(
        ms[0].origin,
        Some(MappingOrigin { source: 0, line: 0, col: 0 })
    );
    assert_eq!(ms[1].gen_line, 1);
    assert_eq!(
        ms[1].origin,
        Some(MappingOrigin { source: 0, line: 1, col: 0 })
    );
}

#[test]
fn vlq_deltas_accumulate() {
    // "UACU" moves: generated col +10, source +0, line +1, col +10.
    let ms = parse_mappings("AAAA,UACU").expect("decode");
    assert_eq!(ms.len(), 2);
    assert_eq!(ms[1].gen_line, 0);
    assert_eq!(ms[1].gen_col, 10);
    assert_eq!(
        ms[1].origin,
        Some(MappingOrigin { source: 0, line: 1, col: 10 })
    );
}

#[test]
fn negative_deltas_decode() {
    // A negative source-line delta inside range: +2 then -1.
    let ms = parse_mappings("AAEA,CADA").expect("decode");
    assert_eq!(ms[0].origin.unwrap().line, 2);
    assert_eq!(ms[1].origin.unwrap().line, 1);
}

#[test]
fn garbage_mappings_are_rejected() {
    assert!(parse_mappings("!!").is_err());
}

fn synthetic_map() -> SourceMap {
    SourceMap {
        sources: vec!["a.scss".to_string(), "b.scss".to_string()],
        sources_content: vec![".a{}".to_string(), ".b{}".to_string()],
        mappings: vec![
            Mapping { gen_line: 0, gen_col: 0, origin: Some(MappingOrigin { source: 0, line: 0, col: 0 }) },
            Mapping { gen_line: 0, gen_col: 10, origin: Some(MappingOrigin { source: 0, line: 2, col: 4 }) },
            Mapping { gen_line: 3, gen_col: 2, origin: Some(MappingOrigin { source: 1, line: 7, col: 1 }) },
        ],
    }
}

#[test]
fn remapping_takes_the_greatest_lower_bound() {
    let map = synthetic_map();
    // Between the first two mappings: the earlier one is nearest below.
    let m = map.original_location_for(0, 5).expect("glb exists");
    assert_eq!(m.gen_col, 0);
    // Exactly on a mapping: that mapping.
    let m = map.original_location_for(0, 10).expect("glb exists");
    assert_eq!(m.origin.unwrap().line, 2);
    // Far past everything: the last mapping.
    let m = map.original_location_for(9, 0).expect("glb exists");
    assert_eq!(m.origin.unwrap().source, 1);
    // On a later line but before the column of the line's mapping: the
    // previous line's mapping wins.
    let m = map.original_location_for(3, 1).expect("glb exists");
    assert_eq!(m.gen_line, 0);
    assert_eq!(m.gen_col, 10);
}

#[test]
fn remapping_before_everything_is_none() {
    let map = SourceMap {
        sources: Vec::new(),
        sources_content: Vec::new(),
        mappings: vec![Mapping { gen_line: 2, gen_col: 0, origin: None }],
    };
    assert!(map.original_location_for(1, 99).is_none());
}
