use wgsl_pp::pp::DirectiveErrKind;
use wgsl_pp::pp::ParsedLine;
use wgsl_pp::pp::PpReply;
use wgsl_pp::pp::PpRequest;
use wgsl_pp::pp::SourceMap;
use wgsl_pp::pp::advance;
use wgsl_pp::pp::load_shader_preprocessed;
use wgsl_pp::pp::parse_line;
use wgsl_pp::pp::resolve;
use wgsl_pp::pp::split_lines;
use wgsl_pp::wgsl_error::WgslError;

/// Drives one preprocessing request over an in-memory table of files whose
/// paths are taken as already canonical.
fn run_pp(root: &str, files: &[(&str, &str)]) -> Result<(String, SourceMap), WgslError> {
    let (mut pp, mut req) = load_shader_preprocessed(root.as_bytes().to_vec());
    loop {
        req = match req {
            PpRequest::Canon { path } => {
                let p = String::from_utf8(path).unwrap();
                if files.iter().any(|(name, _)| *name == p) {
                    pp.step(PpReply::Path {
                        canon: p.into_bytes(),
                    })
                } else {
                    pp.step(PpReply::NoAccess {
                        msg: format!("no such file: {}", p),
                    })
                }
            }
            PpRequest::Read { path } => {
                let p = String::from_utf8(path).unwrap();
                let content = files.iter().find(|(name, _)| *name == p).map(|(_, c)| *c);
                match content {
                    Some(c) => pp.step(PpReply::Text {
                        content: c.as_bytes().to_vec(),
                    }),
                    None => pp.step(PpReply::NoAccess {
                        msg: format!("no such file: {}", p),
                    }),
                }
            }
            PpRequest::Done { text, map } => return Ok((String::from_utf8(text).unwrap(), map)),
            PpRequest::Fail { err } => return Err(err),
        };
    }
}

fn parser_err(e: WgslError) -> (String, usize, usize) {
    match e {
        WgslError::ParserErr { error, line, pos } => (error, line, pos),
        other => panic!("expected a parser-shaped error, got {:?}", err_name(&other)),
    }
}

fn err_name(e: &WgslError) -> &'static str {
    match e {
        WgslError::ValidationErr(_) => "validation",
        WgslError::ParserErr { .. } => "parser",
        WgslError::IoErr(_) => "io",
    }
}

#[test]
fn no_directives_identity() {
    let (text, map) = run_pp("root.wgsl", &[("root.wgsl", "a\nb\n")]).unwrap();
    assert_eq!(text, "a\nb\n");
    assert_eq!(map.map_line(0), 0);
    assert_eq!(map.map_line(1), 1);
    assert_eq!(map.map_line(57), 57);
}

#[test]
fn no_directives_normalizes_line_endings() {
    let (text, map) = run_pp("root.wgsl", &[("root.wgsl", "a\r\nb\r\nc")]).unwrap();
    assert_eq!(text, "a\nb\nc\n");
    assert_eq!(map.map_line(2), 2);
}

#[test]
fn empty_file_flattens_to_nothing() {
    let (text, _map) = run_pp("root.wgsl", &[("root.wgsl", "")]).unwrap();
    assert_eq!(text, "");
}

#[test]
fn single_child_layout_and_translation() {
    let files = [
        ("root.wgsl", "x\n#include \"c.wgsl\";\ny\n"),
        ("c.wgsl", "p\nq\n"),
    ];
    let (text, map) = run_pp("root.wgsl", &files).unwrap();
    assert_eq!(text, "x\np\nq\n\ny\n");
    // Output lines 1..3 came from the child included at root line 1.
    assert_eq!(map.map_line(0), 0);
    assert_eq!(map.map_line(1), 1);
    assert_eq!(map.map_line(2), 1);
    // Past the child's range the linear-offset rule applies: line - end + to.
    assert_eq!(map.map_line(3), 1);
    assert_eq!(map.map_line(4), 2);
}

#[test]
fn self_inclusion_terminates_with_empty_second_occurrence() {
    let files = [("s.wgsl", "a\n#include \"s.wgsl\";\nb\n")];
    let (text, _map) = run_pp("s.wgsl", &files).unwrap();
    assert_eq!(text, "a\n\nb\n");
}

#[test]
fn inclusion_cycle_of_length_two_terminates() {
    let files = [
        ("a.wgsl", "a1\n#include \"b.wgsl\";\na2\n"),
        ("b.wgsl", "b1\n#include \"a.wgsl\";\nb2\n"),
    ];
    let (text, _map) = run_pp("a.wgsl", &files).unwrap();
    assert_eq!(text, "a1\nb1\n\nb2\n\na2\n");
}

#[test]
fn diamond_inclusion_expands_once() {
    let files = [
        ("root.wgsl", "#include \"a.wgsl\";\n#include \"b.wgsl\";\n"),
        ("a.wgsl", "#include \"c.wgsl\";\nA\n"),
        ("b.wgsl", "#include \"c.wgsl\";\nB\n"),
        ("c.wgsl", "C\n"),
    ];
    let (text, _map) = run_pp("root.wgsl", &files).unwrap();
    assert_eq!(text.matches('C').count(), 1);
    assert_eq!(text, "C\n\nA\n\n\nB\n\n");
}

#[test]
fn missing_close_quote_reports_line_and_message() {
    let files = [("root.wgsl", "ok\n#include \"foo;\n")];
    let (error, line, pos) = parser_err(run_pp("root.wgsl", &files).unwrap_err());
    assert_eq!(error, "expected '\"' at the end of path");
    assert_eq!(line, 1);
    assert_eq!(pos, 0);
}

#[test]
fn missing_open_quote_reports_line_and_message() {
    let files = [("root.wgsl", "#include foo\";\n")];
    let (error, line, pos) = parser_err(run_pp("root.wgsl", &files).unwrap_err());
    assert_eq!(error, "expected '\"' after #include");
    assert_eq!(line, 0);
    assert_eq!(pos, 0);
}

#[test]
fn missing_semicolon_reports_line_and_message() {
    let files = [("root.wgsl", "a\nb\n#include \"x.wgsl\"\n")];
    let (error, line, pos) = parser_err(run_pp("root.wgsl", &files).unwrap_err());
    assert_eq!(error, "expected ';' after #include directive");
    assert_eq!(line, 2);
    assert_eq!(pos, 0);
}

#[test]
fn trailing_content_after_semicolon_is_an_error() {
    let files = [("root.wgsl", "#include \"x.wgsl\"; tail\n"), ("x.wgsl", "x\n")];
    let (error, line, _pos) = parser_err(run_pp("root.wgsl", &files).unwrap_err());
    assert_eq!(error, "expected ';' after #include directive");
    assert_eq!(line, 0);
}

#[test]
fn root_io_error_is_an_io_error() {
    let e = run_pp("gone.wgsl", &[]).unwrap_err();
    match e {
        WgslError::IoErr(msg) => assert!(msg.contains("gone.wgsl")),
        other => panic!("expected an I/O error, got {}", err_name(&other)),
    }
}

#[test]
fn nested_io_error_is_attributed_to_the_directive() {
    let files = [("root.wgsl", "a\n#include \"gone.wgsl\";\n")];
    let (error, line, pos) = parser_err(run_pp("root.wgsl", &files).unwrap_err());
    assert!(error.contains("gone.wgsl"));
    assert_eq!(line, 1);
    assert_eq!(pos, 10);
}

#[test]
fn nested_syntax_error_is_attributed_to_the_outer_directive() {
    let files = [
        ("root.wgsl", "pre\n#include \"a.wgsl\";\n"),
        ("a.wgsl", "x\ny\nz\n#include \"broken;\n"),
    ];
    let (error, line, pos) = parser_err(run_pp("root.wgsl", &files).unwrap_err());
    assert_eq!(error, "expected '\"' at the end of path");
    assert_eq!(line, 1);
    assert_eq!(pos, 0);
}

#[test]
fn directive_tolerates_surrounding_whitespace() {
    let files = [
        ("root.wgsl", "  \t#include   \"c.wgsl\"  ;  \n"),
        ("c.wgsl", "inner\n"),
    ];
    let (text, _map) = run_pp("root.wgsl", &files).unwrap();
    assert_eq!(text, "inner\n\n");
}

#[test]
fn included_path_is_resolved_against_the_including_file() {
    let files = [
        ("lib/root.wgsl", "#include \"sub/c.wgsl\";\n"),
        ("lib/sub/c.wgsl", "deep\n"),
    ];
    let (text, _map) = run_pp("lib/root.wgsl", &files).unwrap();
    assert_eq!(text, "deep\n\n");
}

#[test]
fn parse_line_classifies_lines() {
    match parse_line(&b"#include \"a/b.wgsl\";".to_vec()) {
        ParsedLine::Inc { path } => assert_eq!(path, b"a/b.wgsl".to_vec()),
        _ => panic!("expected a well-formed directive"),
    }
    assert!(matches!(
        parse_line(&b"let x = 1;".to_vec()),
        ParsedLine::Plain
    ));
    assert!(matches!(
        parse_line(&b"#include nope".to_vec()),
        ParsedLine::Bad {
            why: DirectiveErrKind::MissingOpenQuote
        }
    ));
    assert!(matches!(
        parse_line(&b"#include \"nope".to_vec()),
        ParsedLine::Bad {
            why: DirectiveErrKind::MissingCloseQuote
        }
    ));
    assert!(matches!(
        parse_line(&b"#include \"nope\"".to_vec()),
        ParsedLine::Bad {
            why: DirectiveErrKind::MissingSemicolon
        }
    ));
}

#[test]
fn advance_skips_whitespace_then_matches() {
    let v = b"   abc".to_vec();
    assert_eq!(advance(&v, 0, &b"ab".to_vec()), Some(5));
    assert_eq!(advance(&v, 0, &b"bc".to_vec()), None);
    assert_eq!(advance(&v, 5, &b"c".to_vec()), Some(6));
}

#[test]
fn resolve_joins_and_keeps_absolute_paths() {
    assert_eq!(
        resolve(&b"dir/root.wgsl".to_vec(), &b"sub/x.wgsl".to_vec()),
        b"dir/sub/x.wgsl".to_vec()
    );
    assert_eq!(
        resolve(&b"root.wgsl".to_vec(), &b"x.wgsl".to_vec()),
        b"x.wgsl".to_vec()
    );
    assert_eq!(
        resolve(&b"/a/b.wgsl".to_vec(), &b"/abs.wgsl".to_vec()),
        b"/abs.wgsl".to_vec()
    );
}

#[test]
fn split_lines_matches_line_semantics() {
    let lines = split_lines(&b"a\nb".to_vec());
    assert_eq!(lines, vec![b"a".to_vec(), b"b".to_vec()]);
    let lines = split_lines(&b"a\r\nb\n".to_vec());
    assert_eq!(lines, vec![b"a".to_vec(), b"b".to_vec()]);
    let lines = split_lines(&b"".to_vec());
    assert_eq!(lines, Vec::<Vec<u8>>::new());
}

#[test]
fn map_line_total_keeps_the_line_when_the_offset_leaves_the_range() {
    let mut map = SourceMap::new();
    map.push_entry(0, 1, usize::MAX);
    // The linear offset would pass the top of the line-number range, so the
    // queried line comes back unchanged.
    assert_eq!(map.map_line_total(10), 10);
    // Inside the range the recorded directive line is returned as usual.
    assert_eq!(map.map_line_total(0), usize::MAX);
}

#[test]
fn error_constructors_carry_their_positions() {
    let e = wgsl_pp::wgsl_error::include_syntax_error(4, "boom");
    assert_eq!(parser_err(e), ("boom".to_string(), 4, 0));
    let e = wgsl_pp::wgsl_error::include_io_error(9, "gone".to_string());
    assert_eq!(parser_err(e), ("gone".to_string(), 9, 10));
}

#[test]
fn preprocessing_begins_by_canonicalizing_the_root() {
    let (_pp, req) = load_shader_preprocessed(b"root.wgsl".to_vec());
    match req {
        PpRequest::Canon { path } => assert_eq!(path, b"root.wgsl".to_vec()),
        _ => panic!("expected a canonicalization request"),
    }
}

#[test]
fn map_line_on_empty_map_is_identity() {
    let map = SourceMap::new();
    assert_eq!(map.map_line(0), 0);
    assert_eq!(map.map_line(123), 123);
}

#[test]
fn map_line_inside_and_after_a_recorded_range() {
    let mut map = SourceMap::new();
    // Output lines 5..10 came from an inclusion at original line 2.
    map.push_entry(5, 10, 2);
    assert_eq!(map.map_line(4), 4);
    assert_eq!(map.map_line(5), 2);
    assert_eq!(map.map_line(7), 2);
    assert_eq!(map.map_line(9), 2);
    assert_eq!(map.map_line(10), 2);
    assert_eq!(map.map_line(13), 5);
}
