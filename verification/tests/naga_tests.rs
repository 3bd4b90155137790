use wgsl_pp::pp::SourceMap;
use wgsl_pp::validator::Naga;
use wgsl_pp::wgsl_error::WgslError;

const GOOD_SHADER: &str = "@vertex\nfn vs_main() -> @builtin(position) vec4<f32> {\n    return vec4<f32>(0.0, 0.0, 0.0, 1.0);\n}\n";

#[test]
fn valid_shader_passes_validation() {
    let mut naga = Naga::new();
    let map = SourceMap::new();
    assert!(naga.validate_wgsl(GOOD_SHADER, &map).is_ok());
}

#[test]
fn parse_error_is_parser_shaped() {
    let mut naga = Naga::new();
    let map = SourceMap::new();
    let err = naga.validate_wgsl("fn broken(", &map).unwrap_err();
    match err {
        WgslError::ParserErr { error, .. } => assert!(!error.is_empty()),
        _ => panic!("expected a parser error"),
    }
}

#[test]
fn parse_error_line_is_translated_through_the_map() {
    let mut naga = Naga::new();
    // naga reports 1-based lines; pretend lines 1..9 of the buffer came from
    // an inclusion at original line 3 of the root file.
    let mut map = SourceMap::new();
    map.push_entry(1, 9, 3);
    let bad = "\nfn broken(\n";
    let err = naga.validate_wgsl(bad, &map).unwrap_err();
    match err {
        WgslError::ParserErr { line, .. } => assert_eq!(line, 3),
        _ => panic!("expected a parser error"),
    }
}

#[test]
fn duplicate_bindings_fail_validation() {
    let mut naga = Naga::new();
    let map = SourceMap::new();
    let shader = "@group(0) @binding(0) var<uniform> a: f32;\n@group(0) @binding(0) var<uniform> b: f32;\n@vertex\nfn vs_main() -> @builtin(position) vec4<f32> {\n    return vec4<f32>(a, b, 0.0, 1.0);\n}\n";
    match naga.validate_wgsl(shader, &map) {
        Err(WgslError::ValidationErr(_)) => {}
        Err(other) => panic!("expected a validation error, got another error: {:?}", kind(&other)),
        Ok(()) => panic!("expected a validation error, got success"),
    }
}

fn kind(e: &WgslError) -> &'static str {
    match e {
        WgslError::ValidationErr(_) => "validation",
        WgslError::ParserErr { .. } => "parser",
        WgslError::IoErr(_) => "io",
    }
}

#[test]
fn wgsl_tree_lists_declared_names() {
    let mut naga = Naga::new();
    let map = SourceMap::new();
    let shader = "struct Light {\n    power: f32,\n}\n@group(0) @binding(0) var<uniform> light: Light;\nfn helper() -> f32 {\n    return light.power;\n}\n@vertex\nfn vs_main() -> @builtin(position) vec4<f32> {\n    return vec4<f32>(helper(), 0.0, 0.0, 1.0);\n}\n";
    let tree = naga.get_wgsl_tree(shader, &map).unwrap();
    assert!(tree.types.contains(&"Light".to_string()));
    assert!(tree.global_variables.contains(&"light".to_string()));
    assert!(tree.functions.contains(&"helper".to_string()));
}

#[test]
fn from_parse_err_translates_a_located_error_but_not_an_unlocated_one() {
    // The map covers output line 0, so a located error inside the range is
    // translated, while an error without a location must stay untouched
    // rather than acquire the entry's directive line.
    let mut map = SourceMap::new();
    map.push_entry(0, 10, 2);
    match WgslError::from_parse_err("boom".to_string(), Some((7, 4)), &map) {
        WgslError::ParserErr { error, line, pos } => {
            assert_eq!(error, "boom");
            assert_eq!(line, 2);
            assert_eq!(pos, 4);
        }
        _ => panic!("expected a parser error"),
    }
    match WgslError::from_parse_err("boom".to_string(), None, &map) {
        WgslError::ParserErr { line, pos, .. } => {
            assert_eq!(line, 0);
            assert_eq!(pos, 0);
        }
        _ => panic!("expected a parser error"),
    }
}

#[test]
fn from_parse_parts_translates_the_line_and_keeps_the_column() {
    let mut map = SourceMap::new();
    map.push_entry(5, 10, 2);
    let err = WgslError::from_parse_parts("boom".to_string(), 7, 4, &map);
    match err {
        WgslError::ParserErr { error, line, pos } => {
            assert_eq!(error, "boom");
            assert_eq!(line, 2);
            assert_eq!(pos, 4);
        }
        _ => panic!("expected a parser error"),
    }
}
