use glsl_compiler::assemble::{handle_include, manually_include, FileTable, IncludeError, MAX_INCLUDE_DEPTH};
use glsl_compiler::diagnostics::{
    failure_text, find_best_line, flatten_tokens, parse_number, parse_segment, remap_errors, split_on, Diagnostic, Leaf,
    Location, TokenNode,
};
use glsl_compiler::directive::{parse_invocation, Directive, ShaderStage, SourceKind, UsageError};
use glsl_compiler::pipeline::artifact_text;
use glsl_compiler::profiler::{
    get_id, inject_profiler, profile_begin_code, profile_end_code, profile_inject_code, ProfilerError,
};
use glsl_compiler::text::find_closing_bracket;

fn cs(s: &str) -> Vec<char> {
    s.chars().collect()
}

fn text(v: &[char]) -> String {
    v.iter().collect()
}

fn toks(list: &[&str]) -> Vec<String> {
    list.iter().map(|t| t.to_string()).collect()
}

fn flatten(source: &str, path: &str, files: &FileTable) -> Result<String, IncludeError> {
    manually_include(&cs(source), &cs(path), 0, files).map(|o| text(&o))
}

#[test]
fn closing_bracket_found() {
    assert_eq!(find_closing_bracket(&cs("a{b}c}d"), 0), Some(5));
    assert_eq!(find_closing_bracket(&cs("x{ {y} }z"), 2), Some(7));
    assert_eq!(find_closing_bracket(&cs("}"), 0), Some(0));
}

#[test]
fn closing_bracket_missing() {
    assert_eq!(find_closing_bracket(&cs("a{b}c"), 0), None);
    assert_eq!(find_closing_bracket(&cs(""), 0), None);
    assert_eq!(find_closing_bracket(&cs("ab}"), 5), None);
}

#[test]
fn scope_ids_reuse_first_seen() {
    let mut names: Vec<String> = Vec::new();
    let ids: Vec<usize> = ["main", "a", "main", "b"].iter().map(|n| get_id(&n.to_string(), &mut names)).collect();
    assert_eq!(ids, vec![0, 1, 0, 2]);
    assert_eq!(names, vec!["main".to_string(), "a".to_string(), "b".to_string()]);
}

#[test]
fn begin_and_end_code() {
    let mut names: Vec<String> = Vec::new();
    let b = profile_begin_code(&"main".to_string(), &mut names, true);
    assert_eq!(text(&b), "PROFILE_INIT();\nPROFILE_SCOPE_BEING(0);\n");
    let b = profile_begin_code(&"inner".to_string(), &mut names, false);
    assert_eq!(text(&b), "PROFILE_SCOPE_BEING(1);\n");
    let e = profile_end_code(&"inner".to_string(), &mut names);
    assert_eq!(text(&e), "\nPROFILE_SCOPE_END(1);\n");
    assert_eq!(names.len(), 2);
}

#[test]
fn preamble_sized_to_scopes() {
    let p = text(&profile_inject_code(12));
    assert!(p.starts_with("\n#extension GL_EXT_shader_realtime_clock : require\n"));
    assert!(p.contains("for (uint i = 0; i < 12; i++) {"));
    assert!(p.ends_with("}\n    "));
}

#[test]
fn profiler_instruments_scope() {
    let src = "#version 450\nvoid main()\n//PROFILE(\"main\");\n{\n    if (a) { return; }\n}\n";
    let (out, names) = inject_profiler(&cs(src)).unwrap();
    let expected = format!(
        "#version 450\n{}void main()\nPROFILE_INIT();\nPROFILE_SCOPE_BEING(0);\n\n{{\n    if (a) {{ \nPROFILE_SCOPE_END(0);\nreturn; }}\n\nPROFILE_SCOPE_END(0);\n}}\n",
        text(&profile_inject_code(1))
    );
    assert_eq!(text(&out), expected);
    assert_eq!(names, vec!["main".to_string()]);
}

#[test]
fn profiler_scope_table_order() {
    let src = "#version 450\n//PROFILE(\"main\");\n{\n//PROFILE(\"a\");\n{ }\n//PROFILE(\"main\");\n{ }\n//PROFILE(\"b\");\n{ }\n}\n";
    let (out, names) = inject_profiler(&cs(src)).unwrap();
    assert_eq!(names, vec!["main".to_string(), "a".to_string(), "b".to_string()]);
    let out = text(&out);
    assert!(out.contains("PROFILE_SCOPE_BEING(1);\n"));
    assert!(out.contains("PROFILE_SCOPE_BEING(2);\n"));
    assert_eq!(out.matches("PROFILE_INIT();").count(), 2);
}

#[test]
fn profiler_errors() {
    let no_main = "#version 450\n//PROFILE(\"a\");\n{ }\n";
    assert_eq!(inject_profiler(&cs(no_main)), Err(ProfilerError::MissingMain));
    assert_eq!(inject_profiler(&cs("#version 450\n{ }\n")), Err(ProfilerError::MissingMain));
    assert_eq!(inject_profiler(&cs("x //PROFILE(\"main\"\n{}")), Err(ProfilerError::UnterminatedMarker(2)));
    assert_eq!(inject_profiler(&cs("//PROFILE(\"main\");")), Err(ProfilerError::NoScope(0)));
    assert_eq!(inject_profiler(&cs("//PROFILE(\"main\");{ {}")), Err(ProfilerError::UnclosedScope(0)));
    assert_eq!(inject_profiler(&cs("//PROFILE(\"main\");{}")), Err(ProfilerError::NoVersion));
    assert_eq!(inject_profiler(&cs("//PROFILE(\"main\");{}#version 450")), Err(ProfilerError::VersionLineEnd));
}

#[test]
fn no_include_is_identity() {
    let files = FileTable::new();
    let src = "#version 450\nvoid main() {}\n";
    assert_eq!(flatten(src, "in_marco", &files), Ok(src.to_string()));
    assert_eq!(flatten("", "in_marco", &files), Ok(String::new()));
}

#[test]
fn plain_include_reads_file() {
    let mut files = FileTable::new();
    files.add("lib/common.glsl".to_string(), "float f() { return 1.0; }\n".to_string());
    let r = handle_include(&cs("lib/common.glsl"), &cs("in_marco"), &files).unwrap();
    assert_eq!(text(&r.0), "lib/common.glsl");
    assert_eq!(text(&r.1), "float f() { return 1.0; }\n");
    let out = flatten("a\n#include \"lib/common.glsl\"\nb", "in_marco", &files);
    assert_eq!(out, Ok("a\nfloat f() { return 1.0; }\n\nb".to_string()));
}

#[test]
fn plain_include_relative_to_file() {
    let mut files = FileTable::new();
    files.add("shaders/b.glsl".to_string(), "B".to_string());
    assert_eq!(flatten("#include \"b.glsl\"\n", "shaders/a.glsl", &files), Ok("B\n".to_string()));
    assert_eq!(
        flatten("#include \"b.glsl\"\n", "a.glsl", &files),
        Err(IncludeError::FileNotFound("b.glsl".to_string()))
    );
}

#[test]
fn snippet_include() {
    let mut files = FileTable::new();
    files.add("src/main.rs".to_string(), "glsl!{type = Include, name = \"s\", code = {X{Y}Z}};".to_string());
    assert_eq!(flatten("#include \"src/main.rs-s\"\n", "in_marco", &files), Ok("X{Y}Z\n".to_string()));
}

#[test]
fn include_separator_errors() {
    let files = FileTable::new();
    assert_eq!(
        flatten("#include \"a-b-c\"\n", "in_marco", &files),
        Err(IncludeError::TooManySeparators("a-b-c".to_string()))
    );
    assert_eq!(
        handle_include(&cs("x--y"), &cs("in_marco"), &files),
        Err(IncludeError::TooManySeparators("x--y".to_string()))
    );
}

#[test]
fn snippet_duplicate_and_missing() {
    let mut files = FileTable::new();
    files.add("h.rs".to_string(), "name = \"s\", code = {A} name = \"s\", code = {B}".to_string());
    files.add("g.rs".to_string(), "name = \"t\", code = {A}".to_string());
    assert_eq!(
        flatten("#include \"h.rs-s\"\n", "in_marco", &files),
        Err(IncludeError::MultipleSnippets("h.rs".to_string(), "s".to_string()))
    );
    assert_eq!(
        flatten("#include \"g.rs-s\"\n", "in_marco", &files),
        Err(IncludeError::SnippetNotFound("g.rs".to_string(), "s".to_string()))
    );
}

#[test]
fn snippet_brace_errors() {
    let mut files = FileTable::new();
    files.add("h.rs".to_string(), "name = \"s\"".to_string());
    files.add("g.rs".to_string(), "name = \"s\", code = {A{".to_string());
    assert_eq!(
        flatten("#include \"h.rs-s\"\n", "in_marco", &files),
        Err(IncludeError::NoOpeningBrace("s".to_string()))
    );
    assert_eq!(
        flatten("#include \"g.rs-s\"\n", "in_marco", &files),
        Err(IncludeError::NoClosingBrace("s".to_string()))
    );
}

#[test]
fn include_line_errors() {
    let mut files = FileTable::new();
    files.add("a".to_string(), "A".to_string());
    assert_eq!(flatten("#include \"a\"", "in_marco", &files), Err(IncludeError::MissingLineEnd));
    assert_eq!(flatten("#include \"a\n", "in_marco", &files), Err(IncludeError::QuoteCount));
    assert_eq!(flatten("#include \"a\" \"b\"\n", "in_marco", &files), Err(IncludeError::QuoteCount));
    assert_eq!(flatten("// #include\n", "in_marco", &files), Err(IncludeError::QuoteCount));
    assert_eq!(flatten("#include \"a\" #include\n", "in_marco", &files), Err(IncludeError::SharedLine));
    assert_eq!(flatten("#include \"a\" #include \"a\"\n", "in_marco", &files), Err(IncludeError::SharedLine));
    assert_eq!(
        flatten("#include \"b\"\n", "in_marco", &files),
        Err(IncludeError::FileNotFound("b".to_string()))
    );
}

#[test]
fn include_cycle_is_too_deep() {
    let mut files = FileTable::new();
    files.add("loop.glsl".to_string(), "#include \"loop.glsl\"\n".to_string());
    assert_eq!(flatten("#include \"loop.glsl\"\n", "in_marco", &files), Err(IncludeError::TooDeep));
    assert!(MAX_INCLUDE_DEPTH > 0);
}

#[test]
fn number_and_split() {
    assert_eq!(parse_number(&cs("1204")), Some(1204));
    assert_eq!(parse_number(&cs("")), None);
    assert_eq!(parse_number(&cs("12a")), None);
    assert_eq!(parse_number(&cs("99999999999999999999999")), None);
    let parts: Vec<String> = split_on(&cs("a::b:"), &cs(":")).iter().map(|p| text(p)).collect();
    assert_eq!(parts, vec!["a", "", "b", ""]);
}

#[test]
fn segment_parsing() {
    let (line, key, msg) = parse_segment(&cs("13: error: 'colo' : undeclared identifier\n")).unwrap();
    assert_eq!(line, 13);
    assert_eq!(text(&key), "colo");
    assert_eq!(text(&msg), " undeclared identifier\n  'colo' ");
    let (line, key, msg) = parse_segment(&cs("1:: 'k' :a:b")).unwrap();
    assert_eq!((line, text(&key), text(&msg)), (1, "k".to_string(), "a:b  'k' ".to_string()));
    let (_, _, msg) = parse_segment(&cs("2: error: 'x' : required extension not requested: GL_EXT_y\n")).unwrap();
    assert_eq!(text(&msg), " required extension not requested: GL_EXT_y\n  'x' ");
    assert_eq!(parse_segment(&cs("x: error: 'colo' : m")), None);
    assert_eq!(parse_segment(&cs("3: error: colo : m")), None);
    assert_eq!(parse_segment(&cs("3: error")), None);
}

const SOURCE: &str = "\n    #version 450 core\n    void main () {\n        imageStore(img, ivec2(pos), colo);\n    }\n";

const LEAF_TEXTS: [&str; 14] =
    ["#", "version", "450", "core", "void", "main", "imageStore", "img", ",", "ivec2", "pos", ",", "colo", ";"];

fn leaves() -> Vec<Leaf> {
    LEAF_TEXTS.iter().enumerate().map(|(i, t)| Leaf { text: t.to_string(), span: i }).collect()
}

fn tok(i: usize) -> TokenNode {
    TokenNode::Token(LEAF_TEXTS[i].to_string(), i)
}

/// `{ # version 450 core void main () { imageStore(img, ivec2(pos), colo); } }`
fn tree() -> TokenNode {
    let args = TokenNode::Group(vec![tok(7), tok(8), tok(9), TokenNode::Group(vec![tok(10)]), tok(11), tok(12)]);
    let body = TokenNode::Group(vec![tok(6), args, tok(13)]);
    TokenNode::Group(vec![tok(0), tok(1), tok(2), tok(3), tok(4), tok(5), TokenNode::Group(vec![]), body])
}

#[test]
fn tree_flattens_depth_first() {
    let flat: Vec<(String, usize)> = flatten_tokens(&tree()).into_iter().map(|l| (l.text, l.span)).collect();
    let want: Vec<(String, usize)> = leaves().into_iter().map(|l| (l.text, l.span)).collect();
    assert_eq!(flat, want);
    let single = flatten_tokens(&TokenNode::Token("x".to_string(), 9));
    assert_eq!(single.len(), 1);
    assert_eq!(single[0].span, 9);
}

#[test]
fn best_line_finds_token() {
    assert_eq!(find_best_line(&cs(SOURCE), &leaves(), &cs("colo"), 3), Some(12));
    assert_eq!(find_best_line(&cs(SOURCE), &leaves(), &cs("img"), 0), Some(7));
    assert_eq!(find_best_line(&cs(SOURCE), &leaves(), &cs("main"), 3), None);
    assert_eq!(find_best_line(&cs(SOURCE), &leaves(), &cs(""), 2), Some(4));
}

#[test]
fn remap_inline_errors() {
    let err = "in_marco:4: error: 'colo' : undeclared identifier\nin_marco:4: error: 'zzz' : unknown\nin_marco:garbled";
    let ds = remap_errors(&cs(err), &cs("in_marco"), &cs(SOURCE), &Some(tree()));
    assert_eq!(
        ds,
        vec![
            Diagnostic { location: Location::Span(12), message: " undeclared identifier\n  'colo' ".to_string() },
            Diagnostic { location: Location::CallSite, message: "4: error: 'zzz' : unknown\n".to_string() },
            Diagnostic { location: Location::CallSite, message: "Error: garbled".to_string() },
        ]
    );
}

#[test]
fn remap_file_errors_at_call_site() {
    let err = "shaders/a.glsl:4: error: 'colo' : undeclared identifier\n";
    let ds = remap_errors(&cs(err), &cs("shaders/a.glsl"), &cs(SOURCE), &None);
    assert_eq!(ds, vec![Diagnostic { location: Location::CallSite, message: err.to_string() }]);
    let ds = remap_errors(&cs("no location"), &cs("in_marco"), &cs(SOURCE), &Some(tree()));
    assert_eq!(ds, vec![Diagnostic { location: Location::CallSite, message: "no location".to_string() }]);
}

#[test]
fn invocation_flags() {
    let r = parse_invocation(&toks(&["type", "=", "Vertex", ";", "release", ",", "profile", ",", "print", ",", "file", "=", "\"a.glsl\""]), true);
    match r {
        Ok(Directive::Compile(inv)) => {
            assert_eq!(inv.stage, ShaderStage::Vertex);
            assert_eq!(inv.source, SourceKind::File(12));
            assert_eq!(inv.text, "a.glsl".to_string());
            assert!(!inv.debug && inv.profile && inv.print);
        }
        other => panic!("{:?}", other),
    }
    match parse_invocation(&toks(&["debug", "type", "=", "Miss", "code", "=", "{x}"]), false) {
        Ok(Directive::Compile(inv)) => {
            assert_eq!(inv.stage, ShaderStage::Miss);
            assert_eq!(inv.text, "x".to_string());
            assert!(inv.debug && !inv.profile && !inv.print);
        }
        other => panic!("{:?}", other),
    }
}

#[test]
fn invocation_declaration() {
    let r = parse_invocation(&toks(&["type", "=", "Include", ",", "name", "=", "\"s\"", ",", "code", "=", "{x}"]), true);
    assert_eq!(r, Ok(Directive::Declaration));
}

#[test]
fn invocation_errors() {
    let p = |t: &[&str]| parse_invocation(&toks(t), true);
    assert_eq!(p(&["code", "=", "{x}"]), Err(UsageError::MissingType));
    assert_eq!(p(&["type", "=", "Include", ",", "code", "=", "{x}"]), Err(UsageError::MissingName));
    assert_eq!(p(&["type", "=", "Include", ",", "name", ",", "code", "=", "{x}"]), Err(UsageError::MissingName));
    assert_eq!(p(&["type", "Compute"]), Err(UsageError::TypeWithoutAssign));
    assert_eq!(p(&["type", "="]), Err(UsageError::MissingTypeValue));
    assert_eq!(p(&["type", "=", "Tess"]), Err(UsageError::InvalidType(2)));
    assert_eq!(p(&["type", "=", "Compute", "code", "=", "{x}", "file", "=", "\"f\""]), Err(UsageError::CodeAndFile));
    assert_eq!(p(&["type", "=", "Compute", "file", "=", "f"]), Err(UsageError::FileNotQuoted));
    assert_eq!(p(&["type", "=", "Compute"]), Err(UsageError::MissingCode));
    assert_eq!(p(&["type", "=", "Compute", "code", "{x}"]), Err(UsageError::CodeWithoutAssign));
    assert_eq!(p(&["type", "=", "Compute", "code", "=", "x"]), Err(UsageError::MissingCodeValue));
}

#[test]
fn artifact_expression() {
    let t = artifact_text(&vec![3, 2, 35, 255], &vec!["main".to_string(), "a".to_string()]);
    assert_eq!(t, "(&[3,2,35,255,], &[\"main\",\"a\",])".to_string());
    assert_eq!(artifact_text(&vec![], &vec![]), "(&[], &[])".to_string());
}

#[test]
fn failure_expression_escapes() {
    assert_eq!(failure_text(&cs("in_marco:4: error: 'colo'")), "panic!(\"in_marco:4: error: 'colo'\")".to_string());
    assert_eq!(failure_text(&cs("a\"b\\c")), "panic!(\"a\\\"b\\\\c\")".to_string());
    assert_eq!(failure_text(&cs("")), "panic!(\"\")".to_string());
}

#[test]
fn spliced_plain_include() {
    let mut files = FileTable::new();
    files.add("p.glsl".to_string(), "P1\nP2".to_string());
    assert_eq!(flatten("A\n#include \"p.glsl\"\nB", "in_marco", &files), Ok("A\nP1\nP2\nB".to_string()));
}

#[test]
fn remap_keeps_message_with_colons() {
    let err = "in_marco:1:: 'k' :a:b";
    let tree = TokenNode::Group(vec![TokenNode::Token("x".to_string(), 0)]);
    let ds = remap_errors(&cs(err), &cs("in_marco"), &cs("x"), &Some(tree));
    assert_eq!(ds, vec![Diagnostic { location: Location::CallSite, message: "1:: 'k' :a:b".to_string() }]);
}

#[test]
fn profiler_returns_inside_scope_only() {
    let src = "#version 450\n//PROFILE(\"main\"); return\n{ return; }\n";
    let (out, _) = inject_profiler(&cs(src)).unwrap();
    let out = text(&out);
    assert_eq!(out.matches("PROFILE_SCOPE_END(0)").count(), 2);
    assert!(out.contains("PROFILE_SCOPE_BEING(0);\n return\n{ \nPROFILE_SCOPE_END(0);\nreturn; \nPROFILE_SCOPE_END(0);\n}"));
}
