//! Parsing of an invocation's `key = value` tokens into a compile request.

use vstd::prelude::*;
use crate::text::{chars_of, push_range, same_chars, string_of};

verus! {

/// The key that the parser last saw; for `type`, `code`, `name` and `file`,
/// whether its `=` followed.
#[derive(Debug, Clone, Copy, PartialEq, Eq)]
pub enum Key {
    NoKey,
    Type(bool),
    Code(bool),
    Name(bool),
    File(bool),
    Debug,
    Release,
    Profile,
    Print,
}

/// What the parser has gathered so far; values are token indices.
#[derive(Debug, Clone, Copy, PartialEq, Eq)]
pub struct ParseState {
    pub current: Key,
    pub type_key: Key,
    pub code_key: Key,
    pub type_value: Option<usize>,
    pub code_value: Option<usize>,
    pub file_value: Option<usize>,
    pub name_value: Option<usize>,
    pub debug: bool,
    pub profile: bool,
    pub print: bool,
}

/// `t` is a brace-delimited block.
pub open spec fn braced(t: Seq<char>) -> bool {
    t.len() >= 2 && t[0] == '{' && t[t.len() - 1] == '}'
}

/// `t` is a quoted string.
pub open spec fn quoted(t: Seq<char>) -> bool {
    t.len() >= 2 && t[0] == '"' && t[t.len() - 1] == '"'
}

/// The state after the token `t` at index `i`.
pub open spec fn step(st: ParseState, t: Seq<char>, i: usize) -> ParseState {
    if t == ","@ || t == ";"@ {
        st
    } else if t == "type"@ {
        ParseState { current: Key::Type(false), type_key: Key::Type(false), ..st }
    } else if t == "code"@ {
        ParseState { current: Key::Code(false), code_key: Key::Code(false), ..st }
    } else if t == "name"@ {
        ParseState { current: Key::Name(false), ..st }
    } else if t == "debug"@ {
        ParseState { current: Key::Debug, debug: true, ..st }
    } else if t == "release"@ {
        ParseState { current: Key::Release, debug: false, ..st }
    } else if t == "profile"@ {
        ParseState { current: Key::Profile, profile: true, ..st }
    } else if t == "print"@ {
        ParseState { current: Key::Print, print: true, ..st }
    } else if t == "file"@ {
        ParseState { current: Key::File(false), ..st }
    } else if t == "="@ {
        match st.current {
            Key::Type(false) => ParseState { current: Key::Type(true), type_key: Key::Type(true), ..st },
            Key::Code(false) => ParseState { current: Key::Code(true), code_key: Key::Code(true), ..st },
            Key::File(false) => ParseState { current: Key::File(true), ..st },
            Key::Name(false) => ParseState { current: Key::Name(true), ..st },
            _ => st,
        }
    } else {
        match st.current {
            Key::Type(true) => ParseState { type_value: Some(i), ..st },
            Key::Code(true) => if braced(t) {
                ParseState { code_value: Some(i), ..st }
            } else {
                st
            },
            Key::File(true) => ParseState { file_value: Some(i), ..st },
            Key::Name(true) => ParseState { name_value: Some(i), ..st },
            _ => st,
        }
    }
}

/// The state before any token.
pub open spec fn initial(default_debug: bool) -> ParseState {
    ParseState {
        current: Key::NoKey,
        type_key: Key::NoKey,
        code_key: Key::NoKey,
        type_value: None,
        code_value: None,
        file_value: None,
        name_value: None,
        debug: default_debug,
        profile: false,
        print: false,
    }
}

/// The state after the first `n` tokens.
pub open spec fn state_after(tokens: Seq<Seq<char>>, n: int, default_debug: bool) -> ParseState
    decreases n,
{
    if n <= 0 || n > tokens.len() {
        initial(default_debug)
    } else {
        step(state_after(tokens, n - 1, default_debug), tokens[n - 1], (n - 1) as usize)
    }
}

fn is_word(t: &Vec<char>, w: &str) -> (r: bool)
    ensures
        r == (t@ == w@),
{
    same_chars(t, &chars_of(w))
}

fn step_exec(st: ParseState, t: &Vec<char>, i: usize) -> (r: ParseState)
    ensures
        r == step(st, t@, i),
{
    if is_word(t, ",") || is_word(t, ";") {
        st
    } else if is_word(t, "type") {
        ParseState { current: Key::Type(false), type_key: Key::Type(false), ..st }
    } else if is_word(t, "code") {
        ParseState { current: Key::Code(false), code_key: Key::Code(false), ..st }
    } else if is_word(t, "name") {
        ParseState { current: Key::Name(false), ..st }
    } else if is_word(t, "debug") {
        ParseState { current: Key::Debug, debug: true, ..st }
    } else if is_word(t, "release") {
        ParseState { current: Key::Release, debug: false, ..st }
    } else if is_word(t, "profile") {
        ParseState { current: Key::Profile, profile: true, ..st }
    } else if is_word(t, "print") {
        ParseState { current: Key::Print, print: true, ..st }
    } else if is_word(t, "file") {
        ParseState { current: Key::File(false), ..st }
    } else if is_word(t, "=") {
        match st.current {
            Key::Type(false) => ParseState { current: Key::Type(true), type_key: Key::Type(true), ..st },
            Key::Code(false) => ParseState { current: Key::Code(true), code_key: Key::Code(true), ..st },
            Key::File(false) => ParseState { current: Key::File(true), ..st },
            Key::Name(false) => ParseState { current: Key::Name(true), ..st },
            _ => st,
        }
    } else {
        match st.current {
            Key::Type(true) => ParseState { type_value: Some(i), ..st },
            Key::Code(true) => {
                let n = t.len();
                if n >= 2 && t[0] == '{' && t[n - 1] == '}' {
                    ParseState { code_value: Some(i), ..st }
                } else {
                    st
                }
            },
            Key::File(true) => ParseState { file_value: Some(i), ..st },
            Key::Name(true) => ParseState { name_value: Some(i), ..st },
            _ => st,
        }
    }
}

/// The views of a list of token texts.
pub open spec fn tokens_view(v: Seq<String>) -> Seq<Seq<char>> {
    v.map_values(|t: String| t@)
}

/// The state after all of `tokens`.
pub fn scan_tokens(tokens: &Vec<String>, default_debug: bool) -> (r: ParseState)
    ensures
        r == state_after(tokens_view(tokens@), tokens@.len() as int, default_debug),
{
    let ghost tv = tokens_view(tokens@);
    let mut st = ParseState {
        current: Key::NoKey,
        type_key: Key::NoKey,
        code_key: Key::NoKey,
        type_value: None,
        code_value: None,
        file_value: None,
        name_value: None,
        debug: default_debug,
        profile: false,
        print: false,
    };
    let mut i: usize = 0;
    while i < tokens.len()
        invariant
            i <= tokens@.len(),
            tv == tokens_view(tokens@),
            st == state_after(tv, i as int, default_debug),
        decreases tokens@.len() - i,
    {
        let t = chars_of(tokens[i].as_str());
        assert(tv[i as int] == t@);
        st = step_exec(st, &t, i);
        i = i + 1;
    }
    st
}

proof fn lemma_state_bounds(tokens: Seq<Seq<char>>, n: int, default_debug: bool)
    requires
        0 <= n <= tokens.len() <= usize::MAX,
    ensures
        state_after(tokens, n, default_debug).type_value matches Some(i) ==> i < n,
        state_after(tokens, n, default_debug).code_value matches Some(i) ==> i < n,
        state_after(tokens, n, default_debug).file_value matches Some(i) ==> i < n,
    decreases n,
{
    if n > 0 {
        lemma_state_bounds(tokens, n - 1, default_debug);
    }
}

/// Shader stages that can be compiled.
#[derive(Debug, Clone, Copy, PartialEq, Eq, Structural)]
pub enum ShaderStage {
    Compute,
    Vertex,
    Fragment,
    Geometry,
    Mesh,
    RayGeneration,
    AnyHit,
    ClosestHit,
    Miss,
}

/// Malformed invocations; a token index says which value is at fault.
#[derive(Debug, Clone, Copy, PartialEq, Eq, Structural)]
pub enum UsageError {
    /// No `type` key.
    MissingType,
    /// `type` without `=`.
    TypeWithoutAssign,
    /// `type =` without a value.
    MissingTypeValue,
    /// A snippet declaration (`type = Include`) without `name = <value>`.
    MissingName,
    /// A `type` value that names no stage.
    InvalidType(usize),
    /// Both `code` and `file`.
    CodeAndFile,
    /// A `file` value that is not quoted.
    FileNotQuoted,
    /// Neither `code` nor `file`.
    MissingCode,
    /// `code` without `=`.
    CodeWithoutAssign,
    /// `code =` without a block.
    MissingCodeValue,
}

/// Where the shader source comes from: the code block or the file path at a token index.
#[derive(Debug, Clone, Copy, PartialEq, Eq, Structural)]
pub enum SourceKind {
    Inline(usize),
    File(usize),
}

/// A request to compile one shader.
#[derive(Debug, Clone, PartialEq, Eq)]
pub struct Invocation {
    pub stage: ShaderStage,
    pub source: SourceKind,
    /// The code inside the braces, or the path inside the quotes.
    pub text: String,
    pub debug: bool,
    pub profile: bool,
    pub print: bool,
}

/// What an invocation asks for.
#[derive(Debug, Clone, PartialEq, Eq)]
pub enum Directive {
    /// A named snippet declaration, which compiles nothing.
    Declaration,
    Compile(Invocation),
}

/// The stage named by `t`.
pub open spec fn stage_of(t: Seq<char>) -> Option<ShaderStage> {
    if t == "Compute"@ {
        Some(ShaderStage::Compute)
    } else if t == "Vertex"@ {
        Some(ShaderStage::Vertex)
    } else if t == "Fragment"@ {
        Some(ShaderStage::Fragment)
    } else if t == "Geometry"@ {
        Some(ShaderStage::Geometry)
    } else if t == "Mesh"@ {
        Some(ShaderStage::Mesh)
    } else if t == "RayGeneration"@ {
        Some(ShaderStage::RayGeneration)
    } else if t == "AnyHit"@ {
        Some(ShaderStage::AnyHit)
    } else if t == "ClosestHit"@ {
        Some(ShaderStage::ClosestHit)
    } else if t == "Miss"@ {
        Some(ShaderStage::Miss)
    } else {
        None
    }
}

/// An invocation as (stage, source, text, debug, profile, print).
pub type InvocationView = (ShaderStage, SourceKind, Seq<char>, bool, bool, bool);

/// What the tokens of an invocation ask for: `None` for a snippet declaration.
pub open spec fn directive_of(tokens: Seq<Seq<char>>, default_debug: bool) -> Result<
    Option<InvocationView>,
    UsageError,
> {
    let st = state_after(tokens, tokens.len() as int, default_debug);
    match st.type_key {
        Key::Type(true) => match st.type_value {
            None => Err(UsageError::MissingTypeValue),
            Some(ti) => if tokens[ti as int] == "Include"@ {
                if st.name_value is None {
                    Err(UsageError::MissingName)
                } else {
                    Ok(None)
                }
            } else {
                match stage_of(tokens[ti as int]) {
                    None => Err(UsageError::InvalidType(ti)),
                    Some(stage) => match st.file_value {
                        Some(fi) => {
                            let f = tokens[fi as int];
                            if st.code_value is Some {
                                Err(UsageError::CodeAndFile)
                            } else if !quoted(f) {
                                Err(UsageError::FileNotQuoted)
                            } else {
                                Ok(Some((stage, SourceKind::File(fi), f.subrange(1, f.len() - 1), st.debug, st.profile, st.print)))
                            }
                        },
                        None => match st.code_key {
                            Key::Code(true) => match st.code_value {
                                None => Err(UsageError::MissingCodeValue),
                                Some(ci) => {
                                    let c = tokens[ci as int];
                                    Ok(Some((stage, SourceKind::Inline(ci), c.subrange(1, c.len() - 1), st.debug, st.profile, st.print)))
                                },
                            },
                            Key::Code(false) => Err(UsageError::CodeWithoutAssign),
                            _ => Err(UsageError::MissingCode),
                        },
                    },
                }
            },
        },
        Key::Type(false) => Err(UsageError::TypeWithoutAssign),
        _ => Err(UsageError::MissingType),
    }
}

/// The view of a parsed directive.
pub open spec fn directive_view(d: Directive) -> Option<InvocationView> {
    match d {
        Directive::Declaration => None,
        Directive::Compile(inv) => Some((inv.stage, inv.source, inv.text@, inv.debug, inv.profile, inv.print)),
    }
}

fn stage_exec(t: &Vec<char>) -> (r: Option<ShaderStage>)
    ensures
        r == stage_of(t@),
{
    if is_word(t, "Compute") {
        Some(ShaderStage::Compute)
    } else if is_word(t, "Vertex") {
        Some(ShaderStage::Vertex)
    } else if is_word(t, "Fragment") {
        Some(ShaderStage::Fragment)
    } else if is_word(t, "Geometry") {
        Some(ShaderStage::Geometry)
    } else if is_word(t, "Mesh") {
        Some(ShaderStage::Mesh)
    } else if is_word(t, "RayGeneration") {
        Some(ShaderStage::RayGeneration)
    } else if is_word(t, "AnyHit") {
        Some(ShaderStage::AnyHit)
    } else if is_word(t, "ClosestHit") {
        Some(ShaderStage::ClosestHit)
    } else if is_word(t, "Miss") {
        Some(ShaderStage::Miss)
    } else {
        None
    }
}

fn inner_text(t: &Vec<char>) -> (r: String)
    requires
        t@.len() >= 2,
    ensures
        r@ == t@.subrange(1, t@.len() - 1),
{
    let mut v: Vec<char> = Vec::new();
    push_range(&mut v, t, 1, t.len() - 1);
    string_of(&v)
}

/// Parses the top-level token texts of an invocation; `default_debug` is the
/// mode used where neither `debug` nor `release` is given.
pub fn parse_invocation(tokens: &Vec<String>, default_debug: bool) -> (r: Result<Directive, UsageError>)
    ensures
        match r {
            Ok(d) => directive_of(tokens_view(tokens@), default_debug) == Ok::<Option<InvocationView>, UsageError>(directive_view(d)),
            Err(e) => directive_of(tokens_view(tokens@), default_debug) == Err::<Option<InvocationView>, UsageError>(e),
        },
{
    let ghost tv = tokens_view(tokens@);
    let st = scan_tokens(tokens, default_debug);
    let ntok = tokens.len();
    assert(tv.len() == ntok);
    proof {
        lemma_state_bounds(tv, tv.len() as int, default_debug);
    }
    match st.type_key {
        Key::Type(true) => {},
        Key::Type(false) => { return Err(UsageError::TypeWithoutAssign); },
        _ => { return Err(UsageError::MissingType); },
    }
    let ti = match st.type_value {
        None => { return Err(UsageError::MissingTypeValue); },
        Some(ti) => ti,
    };
    let type_text = chars_of(tokens[ti].as_str());
    assert(tv[ti as int] == type_text@);
    if is_word(&type_text, "Include") {
        if st.name_value.is_none() {
            return Err(UsageError::MissingName);
        }
        return Ok(Directive::Declaration);
    }
    let stage = match stage_exec(&type_text) {
        None => { return Err(UsageError::InvalidType(ti)); },
        Some(s) => s,
    };
    match st.file_value {
        Some(fi) => {
            if st.code_value.is_some() {
                return Err(UsageError::CodeAndFile);
            }
            let f = chars_of(tokens[fi].as_str());
            assert(tv[fi as int] == f@);
            let n = f.len();
            if n < 2 || f[0] != '"' || f[n - 1] != '"' {
                return Err(UsageError::FileNotQuoted);
            }
            let text = inner_text(&f);
            Ok(Directive::Compile(Invocation {
                stage,
                source: SourceKind::File(fi),
                text,
                debug: st.debug,
                profile: st.profile,
                print: st.print,
            }))
        },
        None => {
            match st.code_key {
                Key::Code(true) => {},
                Key::Code(false) => { return Err(UsageError::CodeWithoutAssign); },
                _ => { return Err(UsageError::MissingCode); },
            }
            let ci = match st.code_value {
                None => { return Err(UsageError::MissingCodeValue); },
                Some(ci) => ci,
            };
            let c = chars_of(tokens[ci].as_str());
            assert(tv[ci as int] == c@);
            proof {
                lemma_code_value_braced(tv, tv.len() as int, default_debug);
            }
            let text = inner_text(&c);
            Ok(Directive::Compile(Invocation {
                stage,
                source: SourceKind::Inline(ci),
                text,
                debug: st.debug,
                profile: st.profile,
                print: st.print,
            }))
        },
    }
}

proof fn lemma_code_value_braced(tokens: Seq<Seq<char>>, n: int, default_debug: bool)
    requires
        0 <= n <= tokens.len() <= usize::MAX,
    ensures
        state_after(tokens, n, default_debug).code_value matches Some(i) ==> braced(tokens[i as int]),
    decreases n,
{
    if n > 0 {
        lemma_code_value_braced(tokens, n - 1, default_debug);
    }
}

} // verus!
