use glsl_compiler::assemble::{FileTable, IncludeError};
use glsl_compiler::directive::{parse_invocation, Directive, ShaderStage, SourceKind};
use glsl_compiler::pipeline::{assemble_shader, load_source, GlslError};

fn text(v: &[char]) -> String {
    v.iter().collect()
}

fn toks(list: &[&str]) -> Vec<String> {
    list.iter().map(|t| t.to_string()).collect()
}

const INCLUDE_HOST: &str = "#[allow(dead_code)]\nfn included() {\n    glsl!{type = Include, name = \"included.glsl\", code = {\n        #define COLOR vec4(pos, 0.0, 1.0)\n    }};\n}\n";

const COMPUTE_SHADER: &str = "#version 450 core\n\nlayout(binding = 0, rgba8) uniform writeonly image2D img;\n\nvoid main () {\n    uvec2 pos = gl_GlobalInvocationID.xy;\n    imageStore(img, ivec2(pos), vec4(pos, 0.0, 1.0));\n}\n";

fn project_files() -> FileTable {
    let mut files = FileTable::new();
    files.add("tests/lib.rs".to_string(), INCLUDE_HOST.to_string());
    files.add("shaders/test.glsl".to_string(), COMPUTE_SHADER.to_string());
    files.add(
        "shaders/test_include.glsl".to_string(),
        "#define COLOR vec4(pos, 0.0, 1.0)\n".to_string(),
    );
    files.add(
        "shaders/test_include_include2.glsl".to_string(),
        "#include \"test_include.glsl\"\n".to_string(),
    );
    files.add(
        "shaders/test_include_include3.glsl".to_string(),
        "#version 450 core\n\n#include \"test_include_include2.glsl\"\n\nlayout(binding = 0, rgba8) uniform writeonly image2D img;\nvoid main () {\n    uvec2 pos = gl_GlobalInvocationID.xy;\n    imageStore(img, ivec2(pos), COLOR);\n}\n".to_string(),
    );
    files
}

/// Parses, loads and assembles one invocation.
fn run(tokens: &[&str], files: &FileTable) -> Result<(String, Vec<String>), GlslError> {
    let inv = match parse_invocation(&toks(tokens), true) {
        Ok(Directive::Compile(inv)) => inv,
        other => panic!("not a compile request: {:?}", other),
    };
    let (path, source) = load_source(&inv, files)?;
    let (out, scopes) = assemble_shader(&source, &path, inv.profile, files)?;
    Ok((text(&out), scopes))
}

const COLOR_MAIN: &str = "\n    layout(binding = 0, rgba8) uniform writeonly image2D img;\n    void main () {\n        uvec2 pos = gl_GlobalInvocationID.xy;\n        imageStore(img, ivec2(pos), COLOR);\n    }\n";

#[test]
fn void_main_empty() {
    let code = "{\n    #version 450 core\n\n    layout(binding = 0, rgba8) uniform writeonly image2D img;\n\n    void main () {\n        uvec2 pos = gl_GlobalInvocationID.xy;\n        vec4 color = vec4(pos, 0.0, 1.0);\n        \n        imageStore(img, ivec2(pos), color);\n    }\n}";
    let (out, scopes) = run(&["type", "=", "Compute", ",", "code", "=", code], &project_files()).unwrap();
    println!("{:?}", out);
    assert_eq!(out, code[1..code.len() - 1].to_string());
    assert!(scopes.is_empty());
}

#[test]
fn shader() {
    let code = format!("{{\n    #version 450 core\n\n    #include \"tests/lib.rs-included.glsl\"\n{}}}", COLOR_MAIN);
    let (out, _) = run(&["type", "=", "Compute", ",", "code", "=", &code], &project_files()).unwrap();
    println!("{:?}", out);
    let expected = format!("\n    #version 450 core\n\n    \n        #define COLOR vec4(pos, 0.0, 1.0)\n    \n{}", COLOR_MAIN);
    assert_eq!(out, expected);
}

#[test]
fn glsl_file_include() {
    let code = format!("{{\n    #version 450 core\n\n    #include \"shaders/test_include.glsl\"\n{}}}", COLOR_MAIN);
    let (out, _) = run(&["type", "=", "Compute", ",", "code", "=", &code], &project_files()).unwrap();
    println!("{:?}", out);
    let expected = format!("\n    #version 450 core\n\n    #define COLOR vec4(pos, 0.0, 1.0)\n\n{}", COLOR_MAIN);
    assert_eq!(out, expected);
}

#[test]
fn glsl_from_file() {
    let (out, _) = run(&["type", "=", "Compute", ",", "file", "=", "\"shaders/test.glsl\""], &project_files()).unwrap();
    println!("{:?}", out);
    assert_eq!(out, COMPUTE_SHADER.to_string());
}

#[test]
fn glsl_file_include_in_include() {
    let code = format!("{{\n    #version 450 core\n\n    #include \"shaders/test_include_include2.glsl\"\n{}}}", COLOR_MAIN);
    let (out, _) = run(&["type", "=", "Compute", ",", "code", "=", &code], &project_files()).unwrap();
    println!("{:?}", out);
    let expected = format!("\n    #version 450 core\n\n    #define COLOR vec4(pos, 0.0, 1.0)\n\n\n{}", COLOR_MAIN);
    assert_eq!(out, expected);
}

#[test]
fn glsl_file_include_in_include2() {
    let (out, _) = run(
        &["type", "=", "Compute", ",", "file", "=", "\"shaders/test_include_include3.glsl\""],
        &project_files(),
    )
    .unwrap();
    println!("{:?}", out);
    assert!(out.contains("#define COLOR vec4(pos, 0.0, 1.0)\n"));
    assert!(!out.contains("#include"));
}

#[test]
fn end_to_end_inline_compute() {
    let files = FileTable::new();
    let tokens = toks(&["type", "=", "Compute", ",", "code", "=", "{#version 450 core\nvoid main(){}}"]);
    match parse_invocation(&tokens, false) {
        Ok(Directive::Compile(inv)) => {
            assert_eq!(inv.stage, ShaderStage::Compute);
            assert_eq!(inv.source, SourceKind::Inline(6));
            assert!(!inv.debug);
        }
        other => panic!("{:?}", other),
    }
    let (out, scopes) = run(&["type", "=", "Compute", ",", "code", "=", "{#version 450 core\nvoid main(){}}"], &files).unwrap();
    assert_eq!(out, "#version 450 core\nvoid main(){}".to_string());
    assert!(scopes.is_empty());
}

#[test]
fn end_to_end_missing_file() {
    let r = run(&["type", "=", "Compute", ",", "file", "=", "\"missing.glsl\""], &FileTable::new());
    assert_eq!(r, Err(GlslError::Include(IncludeError::FileNotFound("missing.glsl".to_string()))));
}

#[test]
fn end_to_end_two_separators() {
    let r = run(
        &["type", "=", "Compute", ",", "code", "=", "{#version 450 core\n#include \"a-b-c\"\nvoid main(){}}"],
        &FileTable::new(),
    );
    assert_eq!(r, Err(GlslError::Include(IncludeError::TooManySeparators("a-b-c".to_string()))));
}

#[test]
fn end_to_end_profiled() {
    let code = "{#version 450 core\nvoid main()\n//PROFILE(\"main\");\n{\n}\n}";
    let (out, scopes) = run(&["type", "=", "Compute", ",", "profile", ",", "code", "=", code], &FileTable::new()).unwrap();
    assert_eq!(scopes, vec!["main".to_string()]);
    assert!(out.starts_with("#version 450 core\n\n#extension GL_EXT_shader_realtime_clock"));
    assert!(out.contains("PROFILE_INIT();\nPROFILE_SCOPE_BEING(0);\n"));
}
