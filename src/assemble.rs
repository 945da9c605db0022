//! Source assembly: every `#include "<spec>"` directive is replaced by the
//! (recursively assembled) text it names, either a whole file or a snippet
//! declared in a host file.

use vstd::prelude::*;
use crate::text::{
    chars_of, closing_from, find_closing_bracket, find_from, find_spec, lemma_find_spec, occurs_at,
    push_all, push_range, same_chars, string_of,
};

verus! {

/// Virtual path of code written inline, whose plain includes are taken as given.
pub const INLINE_PATH: &'static str = "in_marco";

/// Includes nested deeper than this are refused.
pub const MAX_INCLUDE_DEPTH: usize = 32;

/// The contents of the files that includes may name, by path.
pub struct FileTable {
    pub entries: Vec<(String, String)>,
}

/// Content of the first entry at or after `i` whose path is `path`.
pub open spec fn lookup_from(e: Seq<(String, String)>, i: int, path: Seq<char>) -> Option<Seq<char>>
    decreases e.len() - i,
{
    if i < 0 || i >= e.len() {
        None
    } else if e[i].0@ == path {
        Some(e[i].1@)
    } else {
        lookup_from(e, i + 1, path)
    }
}

impl FileTable {
    /// Content of the first entry with path `path`.
    pub open spec fn lookup(&self, path: Seq<char>) -> Option<Seq<char>> {
        lookup_from(self.entries@, 0, path)
    }

    /// A table without files.
    pub fn new() -> (r: FileTable)
        ensures
            r.entries@.len() == 0,
    {
        FileTable { entries: Vec::new() }
    }

    /// Records the content of one file.
    pub fn add(&mut self, path: String, content: String)
        ensures
            final(self).entries@ == old(self).entries@.push((path, content)),
    {
        self.entries.push((path, content));
    }

    /// Content of the file with path `path`.
    pub fn get(&self, path: &Vec<char>) -> (r: Option<Vec<char>>)
        ensures
            match r {
                Some(c) => self.lookup(path@) == Some(c@),
                None => self.lookup(path@) is None,
            },
    {
        let p = string_of(path);
        let mut i: usize = 0;
        while i < self.entries.len()
            invariant
                i <= self.entries@.len(),
                p@ == path@,
                self.lookup(path@) == lookup_from(self.entries@, i as int, path@),
            decreases self.entries@.len() - i,
        {
            if self.entries[i].0 == p {
                return Some(chars_of(self.entries[i].1.as_str()));
            }
            i = i + 1;
        }
        None
    }
}

/// Why an include could not be resolved.
#[derive(Debug, Clone, PartialEq, Eq)]
pub enum IncludeError {
    /// An `#include` line without a line break after it.
    MissingLineEnd,
    /// An `#include` line without exactly two quotes.
    QuoteCount,
    /// An `#include` line that holds a second `#include`.
    SharedLine,
    /// A file that the table does not hold.
    FileNotFound(String),
    /// An include spec with more than one `-`.
    TooManySeparators(String),
    /// No snippet of that name in the host file (host, name).
    SnippetNotFound(String, String),
    /// More than one snippet of that name in the host file (host, name).
    MultipleSnippets(String, String),
    /// No `{` after the snippet's name.
    NoOpeningBrace(String),
    /// The snippet's body is not closed.
    NoClosingBrace(String),
    /// Includes nested deeper than the limit.
    TooDeep,
}

/// Mathematical form of an include error.
pub enum IncludeFault {
    MissingLineEnd,
    QuoteCount,
    SharedLine,
    FileNotFound(Seq<char>),
    TooManySeparators(Seq<char>),
    SnippetNotFound(Seq<char>, Seq<char>),
    MultipleSnippets(Seq<char>, Seq<char>),
    NoOpeningBrace(Seq<char>),
    NoClosingBrace(Seq<char>),
    TooDeep,
}

impl View for IncludeError {
    type V = IncludeFault;

    open spec fn view(&self) -> IncludeFault {
        match self {
            IncludeError::MissingLineEnd => IncludeFault::MissingLineEnd,
            IncludeError::QuoteCount => IncludeFault::QuoteCount,
            IncludeError::SharedLine => IncludeFault::SharedLine,
            IncludeError::FileNotFound(p) => IncludeFault::FileNotFound(p@),
            IncludeError::TooManySeparators(s) => IncludeFault::TooManySeparators(s@),
            IncludeError::SnippetNotFound(h, n) => IncludeFault::SnippetNotFound(h@, n@),
            IncludeError::MultipleSnippets(h, n) => IncludeFault::MultipleSnippets(h@, n@),
            IncludeError::NoOpeningBrace(n) => IncludeFault::NoOpeningBrace(n@),
            IncludeError::NoClosingBrace(n) => IncludeFault::NoClosingBrace(n@),
            IncludeError::TooDeep => IncludeFault::TooDeep,
        }
    }
}

/// Index of the last `/` in `s[..i]`.
pub open spec fn last_slash(s: Seq<char>, i: int) -> Option<int>
    decreases i,
{
    if i <= 0 || i > s.len() {
        None
    } else if s[i - 1] == '/' {
        Some(i - 1)
    } else {
        last_slash(s, i - 1)
    }
}

/// Path of a plain include `file` written in the unit at `origin`: inline code
/// takes it as given, a file resolves it against its own directory.
pub open spec fn join_path(origin: Seq<char>, file: Seq<char>) -> Seq<char> {
    if origin == INLINE_PATH@ {
        file
    } else {
        match last_slash(origin, origin.len() as int) {
            Some(k) => origin.subrange(0, k + 1) + file,
            None => file,
        }
    }
}

/// The text that declares the snippet `name`.
pub open spec fn snippet_marker(name: Seq<char>) -> Seq<char> {
    "name = \""@ + name + seq!['"']
}

/// Body of the snippet `name` declared in `content`, the text of `host`.
pub open spec fn snippet_in(host: Seq<char>, content: Seq<char>, name: Seq<char>) -> Result<
    Seq<char>,
    IncludeFault,
> {
    match find_spec(content, 0, snippet_marker(name)) {
        None => Err(IncludeFault::SnippetNotFound(host, name)),
        Some(m) => if find_spec(content, m + 1, snippet_marker(name)) is Some {
            Err(IncludeFault::MultipleSnippets(host, name))
        } else {
            match find_spec(content, m, seq!['{']) {
                None => Err(IncludeFault::NoOpeningBrace(name)),
                Some(b) => match closing_from(content, b + 1, b + 1) {
                    None => Err(IncludeFault::NoClosingBrace(name)),
                    Some(c) => Ok(content.subrange(b + 1, c)),
                },
            }
        },
    }
}

/// Virtual path of a snippet, for the includes inside it.
pub open spec fn snippet_path(host: Seq<char>, name: Seq<char>) -> Seq<char> {
    host + "_glsl_macro_"@ + name
}

/// What include spec `spec`, written in the unit at `origin`, resolves to:
/// its virtual path and its text.
pub open spec fn resolve_spec(spec: Seq<char>, origin: Seq<char>, files: FileTable) -> Result<
    (Seq<char>, Seq<char>),
    IncludeFault,
> {
    match find_spec(spec, 0, seq!['-']) {
        None => {
            let p = join_path(origin, spec);
            match files.lookup(p) {
                None => Err(IncludeFault::FileNotFound(p)),
                Some(c) => Ok((p, c)),
            }
        },
        Some(d) => if find_spec(spec, d + 1, seq!['-']) is Some {
            Err(IncludeFault::TooManySeparators(spec))
        } else {
            let host = spec.subrange(0, d);
            let name = spec.subrange(d + 1, spec.len() as int);
            match files.lookup(host) {
                None => Err(IncludeFault::FileNotFound(host)),
                Some(c) => match snippet_in(host, c, name) {
                    Err(e) => Err(e),
                    Ok(body) => Ok((snippet_path(host, name), body)),
                },
            }
        },
    }
}

/// The `#include` directive at `k`: the index of its line break and the text
/// between its two quotes. Every `#include` is a directive, so a line holding
/// a second one is refused.
pub open spec fn directive_at(s: Seq<char>, k: int) -> Result<(int, Seq<char>), IncludeFault> {
    match find_spec(s, k, seq!['\n']) {
        None => Err(IncludeFault::MissingLineEnd),
        Some(l) => {
            let line = s.subrange(k, l);
            if find_spec(line, 8, "#include"@) is Some {
                Err(IncludeFault::SharedLine)
            } else {
                match find_spec(line, 0, seq!['"']) {
                    None => Err(IncludeFault::QuoteCount),
                    Some(q1) => match find_spec(line, q1 + 1, seq!['"']) {
                        None => Err(IncludeFault::QuoteCount),
                        Some(q2) => if find_spec(line, q2 + 1, seq!['"']) is Some {
                            Err(IncludeFault::QuoteCount)
                        } else {
                            Ok((l, line.subrange(q1 + 1, q2)))
                        },
                    },
                }
            }
        },
    }
}

/// `s[from..]` with every include directive replaced by the assembled text
/// it names; `path` is the virtual path of `s`, `depth` its nesting depth.
pub open spec fn expand_from(
    s: Seq<char>,
    from: int,
    path: Seq<char>,
    depth: nat,
    files: FileTable,
) -> Result<Seq<char>, IncludeFault>
    decreases MAX_INCLUDE_DEPTH - depth, s.len() - from,
    via expand_from_decreases
{
    if from < 0 || from > s.len() {
        Ok(Seq::empty())
    } else {
        match find_spec(s, from, "#include"@) {
            None => Ok(s.subrange(from, s.len() as int)),
            Some(k) => match directive_at(s, k) {
                Err(e) => Err(e),
                Ok((l, spec)) => match resolve_spec(spec, path, files) {
                    Err(e) => Err(e),
                    Ok((rpath, content)) => if depth >= MAX_INCLUDE_DEPTH {
                        Err(IncludeFault::TooDeep)
                    } else {
                        match expand_from(content, 0, rpath, depth + 1, files) {
                            Err(e) => Err(e),
                            Ok(c) => match expand_from(s, l, path, depth, files) {
                                Err(e) => Err(e),
                                Ok(rest) => Ok(s.subrange(from, k) + c + rest),
                            },
                        }
                    },
                },
            },
        }
    }
}

#[via_fn]
proof fn expand_from_decreases(
    s: Seq<char>,
    from: int,
    path: Seq<char>,
    depth: nat,
    files: FileTable,
) {
    if 0 <= from <= s.len() {
        lemma_find_spec(s, from, "#include"@);
        if let Some(k) = find_spec(s, from, "#include"@) {
            lemma_find_spec(s, k, seq!['\n']);
            reveal_strlit("#include");
            assert(s.subrange(k, k + 8)[0] == s[k]);
            if let Some(l) = find_spec(s, k, seq!['\n']) {
                assert(s.subrange(l, l + 1)[0] == s[l]);
            }
        }
    }
}

/// The whole of `s`, assembled.
pub open spec fn assembled(s: Seq<char>, path: Seq<char>, files: FileTable) -> Result<Seq<char>, IncludeFault> {
    expand_from(s, 0, path, 0, files)
}

fn join_path_exec(origin: &Vec<char>, file: &Vec<char>) -> (r: Vec<char>)
    ensures
        r@ == join_path(origin@, file@),
{
    let inline = chars_of(INLINE_PATH);
    if same_chars(origin, &inline) {
        return file.clone();
    }
    assert(origin@ != INLINE_PATH@);
    let mut i: usize = origin.len();
    while i > 0
        invariant
            i <= origin@.len(),
            origin@ != INLINE_PATH@,
            last_slash(origin@, origin@.len() as int) == last_slash(origin@, i as int),
        decreases i,
    {
        if origin[i - 1] == '/' {
            let mut out: Vec<char> = Vec::new();
            push_range(&mut out, origin, 0, i);
            push_all(&mut out, file);
            assert(last_slash(origin@, i as int) == Some((i - 1) as int));
            assert(out@ =~= origin@.subrange(0, i as int) + file@);
            return out;
        }
        i = i - 1;
    }
    file.clone()
}

/// Resolves a plain include of `file_path` written in the unit at `origin_path`.
pub fn handle_glsl_include(file_path: &Vec<char>, origin_path: &Vec<char>, files: &FileTable) -> (r:
    Result<(Vec<char>, Vec<char>), IncludeError>)
    ensures
        match r {
            Ok((p, c)) => p@ == join_path(origin_path@, file_path@) && files.lookup(p@) == Some(c@),
            Err(e) => files.lookup(join_path(origin_path@, file_path@)) is None
                && e@ == IncludeFault::FileNotFound(join_path(origin_path@, file_path@)),
        },
{
    let path = join_path_exec(origin_path, file_path);
    match files.get(&path) {
        Some(c) => Ok((path, c)),
        None => Err(IncludeError::FileNotFound(string_of(&path))),
    }
}

/// Resolves the snippet `name` declared in the host file `file_path`.
pub fn handle_rust_include(file_path: &Vec<char>, glsl_macro_name: &Vec<char>, files: &FileTable) -> (r:
    Result<(Vec<char>, Vec<char>), IncludeError>)
    ensures
        match r {
            Ok((p, c)) => match files.lookup(file_path@) {
                Some(content) => p@ == snippet_path(file_path@, glsl_macro_name@)
                    && snippet_in(file_path@, content, glsl_macro_name@) == Ok::<Seq<char>, IncludeFault>(c@),
                None => false,
            },
            Err(e) => match files.lookup(file_path@) {
                Some(content) => snippet_in(file_path@, content, glsl_macro_name@) == Err::<Seq<char>, IncludeFault>(e@),
                None => e@ == IncludeFault::FileNotFound(file_path@),
            },
        },
{
    let content = match files.get(file_path) {
        Some(c) => c,
        None => { return Err(IncludeError::FileNotFound(string_of(file_path))); },
    };
    let mut marker = chars_of("name = \"");
    push_all(&mut marker, glsl_macro_name);
    marker.push('"');
    assert(marker@ =~= snippet_marker(glsl_macro_name@));
    let m = match find_from(&content, 0, &marker) {
        Some(m) => m,
        None => {
            return Err(IncludeError::SnippetNotFound(string_of(file_path), string_of(glsl_macro_name)));
        },
    };
    let n = content.len();
    assert(m < n);
    if m + 1 <= content.len() {
        if find_from(&content, m + 1, &marker).is_some() {
            return Err(IncludeError::MultipleSnippets(string_of(file_path), string_of(glsl_macro_name)));
        }
    } else {
        assert(find_spec(content@, m + 1, snippet_marker(glsl_macro_name@)) is None);
    }
    let brace = vec!['{'];
    assert(brace@ =~= seq!['{']);
    let b = match find_from(&content, m, &brace) {
        Some(b) => b,
        None => { return Err(IncludeError::NoOpeningBrace(string_of(glsl_macro_name))); },
    };
    proof {
        lemma_find_spec(content@, m as int, seq!['{']);
    }
    let c = match find_closing_bracket(&content, b + 1) {
        Some(c) => c,
        None => { return Err(IncludeError::NoClosingBrace(string_of(glsl_macro_name))); },
    };
    let mut body: Vec<char> = Vec::new();
    push_range(&mut body, &content, b + 1, c);
    let mut p = file_path.clone();
    push_all(&mut p, &chars_of("_glsl_macro_"));
    push_all(&mut p, glsl_macro_name);
    assert(body@ =~= content@.subrange(b + 1, c as int));
    Ok((p, body))
}

/// Resolves the include spec `path` written in the unit at `file_path`: a
/// spec without `-` names a file, one with a single `-` a snippet in a host
/// file, and one with more is refused.
pub fn handle_include(path: &Vec<char>, file_path: &Vec<char>, files: &FileTable) -> (r: Result<
    (Vec<char>, Vec<char>),
    IncludeError,
>)
    ensures
        match r {
            Ok((p, c)) => resolve_spec(path@, file_path@, *files) == Ok::<(Seq<char>, Seq<char>), IncludeFault>((p@, c@)),
            Err(e) => resolve_spec(path@, file_path@, *files) == Err::<(Seq<char>, Seq<char>), IncludeFault>(e@),
        },
{
    let dash = vec!['-'];
    assert(dash@ =~= seq!['-']);
    let d = match find_from(path, 0, &dash) {
        None => { return handle_glsl_include(path, file_path, files); },
        Some(d) => d,
    };
    let n = path.len();
    assert(d < n);
    if find_from(path, d + 1, &dash).is_some() {
        return Err(IncludeError::TooManySeparators(string_of(path)));
    }
    let mut host: Vec<char> = Vec::new();
    push_range(&mut host, path, 0, d);
    let mut name: Vec<char> = Vec::new();
    push_range(&mut name, path, d + 1, path.len());
    handle_rust_include(&host, &name, files)
}

/// Parses the `#include` directive at `k`: the index of its line break and
/// the include spec between its quotes.
fn parse_directive(s: &Vec<char>, k: usize) -> (r: Result<(usize, Vec<char>), IncludeError>)
    requires
        k <= s@.len(),
    ensures
        match r {
            Ok((l, spec)) => directive_at(s@, k as int) == Ok::<(int, Seq<char>), IncludeFault>((l as int, spec@)),
            Err(e) => directive_at(s@, k as int) == Err::<(int, Seq<char>), IncludeFault>(e@),
        },
{
    let newline = vec!['\n'];
    assert(newline@ =~= seq!['\n']);
    let l = match find_from(s, k, &newline) {
        None => { return Err(IncludeError::MissingLineEnd); },
        Some(l) => l,
    };
    proof {
        lemma_find_spec(s@, k as int, seq!['\n']);
    }
    let mut line: Vec<char> = Vec::new();
    push_range(&mut line, s, k, l);
    if find_from(&line, 8, &chars_of("#include")).is_some() {
        return Err(IncludeError::SharedLine);
    }
    let quote = vec!['"'];
    assert(quote@ =~= seq!['"']);
    let q1 = match find_from(&line, 0, &quote) {
        None => { return Err(IncludeError::QuoteCount); },
        Some(q) => q,
    };
    proof {
        lemma_find_spec(line@, 0, seq!['"']);
    }
    let q2 = match find_from(&line, q1 + 1, &quote) {
        None => { return Err(IncludeError::QuoteCount); },
        Some(q) => q,
    };
    proof {
        lemma_find_spec(line@, q1 + 1, seq!['"']);
    }
    if find_from(&line, q2 + 1, &quote).is_some() {
        return Err(IncludeError::QuoteCount);
    }
    let mut spec: Vec<char> = Vec::new();
    push_range(&mut spec, &line, q1 + 1, q2);
    Ok((l, spec))
}

/// `s[from..]` with every include directive replaced by the assembled text it names.
fn include_from(s: &Vec<char>, from: usize, path: &Vec<char>, depth: usize, files: &FileTable) -> (r:
    Result<Vec<char>, IncludeError>)
    requires
        from <= s@.len(),
        depth <= MAX_INCLUDE_DEPTH,
    ensures
        match r {
            Ok(o) => expand_from(s@, from as int, path@, depth as nat, *files) == Ok::<Seq<char>, IncludeFault>(o@),
            Err(e) => expand_from(s@, from as int, path@, depth as nat, *files) == Err::<Seq<char>, IncludeFault>(e@),
        },
    decreases MAX_INCLUDE_DEPTH - depth, s@.len() - from,
{
    proof {
        lemma_find_spec(s@, from as int, "#include"@);
    }
    let k = match find_from(s, from, &chars_of("#include")) {
        None => {
            let mut out: Vec<char> = Vec::new();
            push_range(&mut out, s, from, s.len());
            return Ok(out);
        },
        Some(k) => k,
    };
    let (l, spec) = match parse_directive(s, k) {
        Err(e) => { return Err(e); },
        Ok(d) => d,
    };
    proof {
        lemma_find_spec(s@, k as int, seq!['\n']);
        reveal_strlit("#include");
        assert(s@.subrange(k as int, k + 8)[0] == s@[k as int]);
        assert(s@.subrange(l as int, l + 1)[0] == s@[l as int]);
    }
    let (rpath, content) = match handle_include(&spec, path, files) {
        Err(e) => { return Err(e); },
        Ok(x) => x,
    };
    if depth >= MAX_INCLUDE_DEPTH {
        return Err(IncludeError::TooDeep);
    }
    let c = match include_from(&content, 0, &rpath, depth + 1, files) {
        Err(e) => { return Err(e); },
        Ok(c) => c,
    };
    let rest = match include_from(s, l, path, depth, files) {
        Err(e) => { return Err(e); },
        Ok(rest) => rest,
    };
    let mut out: Vec<char> = Vec::new();
    push_range(&mut out, s, from, k);
    push_all(&mut out, &c);
    push_all(&mut out, &rest);
    Ok(out)
}

/// `source`, the text of the unit at `path` nested `recursion_depth` deep,
/// with every include directive replaced by the assembled text it names.
pub fn manually_include(source: &Vec<char>, path: &Vec<char>, recursion_depth: usize, files: &FileTable) -> (r:
    Result<Vec<char>, IncludeError>)
    requires
        recursion_depth <= MAX_INCLUDE_DEPTH,
    ensures
        match r {
            Ok(o) => expand_from(source@, 0, path@, recursion_depth as nat, *files) == Ok::<Seq<char>, IncludeFault>(o@),
            Err(e) => expand_from(source@, 0, path@, recursion_depth as nat, *files) == Err::<Seq<char>, IncludeFault>(e@),
        },
{
    include_from(source, 0, path, recursion_depth, files)
}

/// A source without include directives assembles to itself.
pub proof fn lemma_no_include_identity(s: Seq<char>, path: Seq<char>, depth: nat, files: FileTable)
    requires
        free_of_directives(s),
    ensures
        expand_from(s, 0, path, depth, files) == Ok::<Seq<char>, IncludeFault>(s),
{
    lemma_find_spec(s, 0, "#include"@);
    assert(s.subrange(0, s.len() as int) =~= s);
}

/// A plain include of a file without include directives resolves to the
/// file's content, which assembles to itself.
pub proof fn lemma_plain_include_reads_file(
    spec: Seq<char>,
    origin: Seq<char>,
    files: FileTable,
    content: Seq<char>,
    depth: nat,
)
    requires
        forall|i: int| 0 <= i < spec.len() ==> spec[i] != '-',
        files.lookup(join_path(origin, spec)) == Some(content),
        free_of_directives(content),
    ensures
        resolve_spec(spec, origin, files) == Ok::<(Seq<char>, Seq<char>), IncludeFault>(
            (join_path(origin, spec), content),
        ),
        expand_from(content, 0, join_path(origin, spec), depth, files) == Ok::<Seq<char>, IncludeFault>(
            content,
        ),
{
    lemma_find_spec(spec, 0, seq!['-']);
    if let Some(d) = find_spec(spec, 0, seq!['-']) {
        assert(spec.subrange(d, d + 1)[0] == spec[d]);
    }
    lemma_no_include_identity(content, join_path(origin, spec), depth, files);
}

/// An include spec with two `-` separators is refused.
pub proof fn lemma_two_separators_refused(
    spec: Seq<char>,
    origin: Seq<char>,
    files: FileTable,
    i: int,
    j: int,
)
    requires
        0 <= i < j < spec.len(),
        spec[i] == '-',
        spec[j] == '-',
    ensures
        resolve_spec(spec, origin, files) == Err::<(Seq<char>, Seq<char>), IncludeFault>(
            IncludeFault::TooManySeparators(spec),
        ),
{
    assert(spec.subrange(i, i + 1) =~= seq!['-']);
    assert(spec.subrange(j, j + 1) =~= seq!['-']);
    assert(occurs_at(spec, i, seq!['-']));
    assert(occurs_at(spec, j, seq!['-']));
    lemma_find_spec(spec, 0, seq!['-']);
    let d = find_spec(spec, 0, seq!['-'])->0;
    assert(d <= i);
    lemma_find_spec(spec, d + 1, seq!['-']);
}

/// Two declarations of one snippet name make a cross reference to it fail.
pub proof fn lemma_duplicate_snippet_refused(
    host: Seq<char>,
    content: Seq<char>,
    name: Seq<char>,
    i: int,
    j: int,
)
    requires
        0 <= i < j,
        occurs_at(content, i, snippet_marker(name)),
        occurs_at(content, j, snippet_marker(name)),
    ensures
        snippet_in(host, content, name) == Err::<Seq<char>, IncludeFault>(
            IncludeFault::MultipleSnippets(host, name),
        ),
{
    lemma_find_spec(content, 0, snippet_marker(name));
    let m = find_spec(content, 0, snippet_marker(name))->0;
    assert(m <= i);
    lemma_find_spec(content, m + 1, snippet_marker(name));
}

/// A cross reference to a snippet name that is never declared fails.
pub proof fn lemma_missing_snippet_refused(host: Seq<char>, content: Seq<char>, name: Seq<char>)
    requires
        forall|k: int| !occurs_at(content, k, snippet_marker(name)),
    ensures
        snippet_in(host, content, name) == Err::<Seq<char>, IncludeFault>(
            IncludeFault::SnippetNotFound(host, name),
        ),
{
    lemma_find_spec(content, 0, snippet_marker(name));
}

proof fn lemma_find_first(s: Seq<char>, from: int, pat: Seq<char>, k: int)
    requires
        0 <= from <= k,
        occurs_at(s, k, pat),
        forall|j: int| from <= j < k ==> !occurs_at(s, j, pat),
    ensures
        find_spec(s, from, pat) == Some(k),
{
    lemma_find_spec(s, from, pat);
}

proof fn lemma_find_none(s: Seq<char>, from: int, pat: Seq<char>)
    requires
        0 <= from,
        forall|j: int| from <= j ==> !occurs_at(s, j, pat),
    ensures
        find_spec(s, from, pat) is None,
{
    lemma_find_spec(s, from, pat);
}

/// `t` holds no include directive.
pub open spec fn free_of_directives(t: Seq<char>) -> bool {
    forall|j: int| !occurs_at(t, j, "#include"@)
}

/// The source `a`, then the directive line `#include "<spec>"`, then `b`.
pub open spec fn with_directive(a: Seq<char>, spec: Seq<char>, b: Seq<char>) -> Seq<char> {
    a + "#include \""@ + spec + seq!['"', '\n'] + b
}

/// An occurrence of `pat` that lies inside the part `t` of `s` starting at `off`.
proof fn lemma_occurs_inside(s: Seq<char>, t: Seq<char>, off: int, j: int, pat: Seq<char>)
    requires
        0 <= off <= j,
        j + pat.len() <= off + t.len(),
        off + t.len() <= s.len(),
        s.subrange(off, off + t.len()) == t,
        occurs_at(s, j, pat),
    ensures
        occurs_at(t, j - off, pat),
{
    assert(t.subrange(j - off, j - off + pat.len()) =~= s.subrange(j, j + pat.len()));
}

/// The directive line of `with_directive(a, spec, b)` is its first directive,
/// it reads as `spec`, and no directive follows its line break.
proof fn lemma_directive_line(a: Seq<char>, spec: Seq<char>, b: Seq<char>)
    requires
        free_of_directives(a),
        free_of_directives(spec),
        free_of_directives(b),
        forall|i: int| 0 <= i < spec.len() ==> spec[i] != '"' && spec[i] != '\n',
    ensures
        ({
            let s = with_directive(a, spec, b);
            let k = a.len() as int;
            let l = k + 11 + spec.len();
            &&& find_spec(s, 0, "#include"@) == Some(k)
            &&& directive_at(s, k) == Ok::<(int, Seq<char>), IncludeFault>((l, spec))
            &&& find_spec(s, l, "#include"@) is None
            &&& s.subrange(0, k) == a
            &&& s.subrange(l, s.len() as int) == seq!['\n'] + b
        }),
{
    reveal_strlit("#include");
    reveal_strlit("#include \"");
    let inc = "#include"@;
    let s = with_directive(a, spec, b);
    let k = a.len() as int;
    let n = spec.len() as int;
    let l = k + 11 + n;
    let line = s.subrange(k, l);
    assert(line =~= "#include \""@ + spec + seq!['"']);
    assert(line.len() == 11 + n);
    assert(line.subrange(10, 10 + n) =~= spec);
    assert(s.subrange(0, k) =~= a);
    assert(s.subrange(l, s.len() as int) =~= seq!['\n'] + b);
    assert(s.subrange(k + 10, k + 10 + n) =~= spec);
    assert(s.subrange(l + 1, s.len() as int) =~= b);
    assert(forall|i: int| 0 <= i < k ==> s[i] == a[i]);
    assert(forall|i: int| 0 <= i < n ==> s[k + 10 + i] == spec[i]);
    assert(forall|i: int| 0 <= i < 10 ==> s[k + i] == "#include \""@[i]);
    assert(s[k + 10 + n] == '"');
    assert(s[l] == '\n');
    // the first directive is at k
    assert(s.subrange(k, k + 8) =~= inc);
    assert forall|j: int| 0 <= j < k implies !occurs_at(s, j, inc) by {
        if occurs_at(s, j, inc) {
            if j + 8 <= k {
                lemma_occurs_inside(s, a, 0, j, inc);
            } else {
                assert(s.subrange(j, j + 8)[k - j] == s[k]);
            }
        }
    }
    lemma_find_first(s, 0, inc, k);
    // its line ends at l
    assert(s.subrange(l, l + 1) =~= seq!['\n']);
    assert forall|j: int| k <= j < l implies !occurs_at(s, j, seq!['\n']) by {
        if occurs_at(s, j, seq!['\n']) {
            assert(s.subrange(j, j + 1)[0] == s[j]);
            if j >= k + 10 && j < k + 10 + n {
                assert(spec[j - k - 10] == s[j]);
            }
        }
    }
    lemma_find_first(s, k, seq!['\n'], l);
    // the line holds no second directive
    assert forall|j: int| 8 <= j implies !occurs_at(line, j, inc) by {
        if occurs_at(line, j, inc) {
            assert(line.subrange(j, j + 8)[0] == line[j]);
            assert(line[8] == ' ' && line[9] == '"');
            if j + 8 <= 10 + n {
                assert(j >= 10);
                assert(line.subrange(10, 10 + spec.len() as int) == spec);
                lemma_occurs_inside(line, spec, 10, j, inc);
            } else {
                assert(line.subrange(j, j + 8)[10 + n - j] == line[10 + n]);
            }
        }
    }
    lemma_find_none(line, 8, inc);
    // its two quotes
    assert(line.subrange(9, 10) =~= seq!['"']);
    assert(line.subrange(10 + n, 11 + n) =~= seq!['"']);
    assert forall|j: int| 0 <= j < 9 implies !occurs_at(line, j, seq!['"']) by {
        if occurs_at(line, j, seq!['"']) {
            assert(line.subrange(j, j + 1)[0] == line[j]);
        }
    }
    assert forall|j: int| 10 <= j < 10 + n implies !occurs_at(line, j, seq!['"']) by {
        if occurs_at(line, j, seq!['"']) {
            assert(line.subrange(j, j + 1)[0] == line[j]);
            assert(spec[j - 10] == line[j]);
        }
    }
    lemma_find_first(line, 0, seq!['"'], 9);
    lemma_find_first(line, 10, seq!['"'], 10 + n);
    lemma_find_none(line, 11 + n, seq!['"']);
    assert(line.subrange(10, 10 + n) =~= spec);
    // nothing after the line break is a directive
    assert forall|j: int| l <= j implies !occurs_at(s, j, inc) by {
        if occurs_at(s, j, inc) {
            assert(s.subrange(j, j + 8)[0] == s[j]);
            lemma_occurs_inside(s, b, l + 1, j, inc);
        }
    }
    lemma_find_none(s, l, inc);
}

/// A plain include, written inline, of a file without include directives is
/// replaced by exactly the file's content; the rest of the source is kept.
pub proof fn lemma_plain_include_spliced(
    a: Seq<char>,
    spec: Seq<char>,
    b: Seq<char>,
    files: FileTable,
    content: Seq<char>,
    depth: nat,
)
    requires
        free_of_directives(a),
        free_of_directives(spec),
        free_of_directives(b),
        forall|i: int| 0 <= i < spec.len() ==> spec[i] != '"' && spec[i] != '\n' && spec[i] != '-',
        files.lookup(spec) == Some(content),
        free_of_directives(content),
        depth < MAX_INCLUDE_DEPTH,
    ensures
        expand_from(with_directive(a, spec, b), 0, INLINE_PATH@, depth, files) == Ok::<Seq<char>, IncludeFault>(
            a + content + seq!['\n'] + b,
        ),
{
    let s = with_directive(a, spec, b);
    let l = (a.len() + 11 + spec.len()) as int;
    lemma_directive_line(a, spec, b);
    reveal_strlit("#include \"");
    assert(s.len() == l + 1 + b.len());
    assert(join_path(INLINE_PATH@, spec) == spec);
    lemma_plain_include_reads_file(spec, INLINE_PATH@, files, content, depth + 1);
    lemma_no_include_identity(content, spec, depth + 1, files);
    assert(expand_from(s, l, INLINE_PATH@, depth, files) == Ok::<Seq<char>, IncludeFault>(
        s.subrange(l, s.len() as int),
    ));
    assert(resolve_spec(spec, INLINE_PATH@, files) == Ok::<(Seq<char>, Seq<char>), IncludeFault>((spec, content)));
    assert(expand_from(s, 0, INLINE_PATH@, depth, files) == Ok::<Seq<char>, IncludeFault>(
        s.subrange(0, a.len() as int) + content + s.subrange(l, s.len() as int),
    ));
    assert(a + content + (seq!['\n'] + b) =~= a + content + seq!['\n'] + b);
}

/// A source whose directive names a spec with two `-` separators fails with
/// that error, where no earlier directive fails first.
pub proof fn lemma_two_separators_spliced(
    a: Seq<char>,
    spec: Seq<char>,
    b: Seq<char>,
    path: Seq<char>,
    files: FileTable,
    depth: nat,
    i: int,
    j: int,
)
    requires
        free_of_directives(a),
        free_of_directives(spec),
        free_of_directives(b),
        forall|x: int| 0 <= x < spec.len() ==> spec[x] != '"' && spec[x] != '\n',
        0 <= i < j < spec.len(),
        spec[i] == '-',
        spec[j] == '-',
    ensures
        expand_from(with_directive(a, spec, b), 0, path, depth, files) == Err::<Seq<char>, IncludeFault>(
            IncludeFault::TooManySeparators(spec),
        ),
{
    lemma_directive_line(a, spec, b);
    lemma_two_separators_refused(spec, path, files, i, j);
}

} // verus!
