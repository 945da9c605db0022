//! The assembly pipeline of one invocation: its source, include resolution,
//! optional profiling instrumentation, and the text of its result.

use vstd::prelude::*;
use crate::assemble::{assembled, manually_include, FileTable, IncludeError, IncludeFault, INLINE_PATH};
use crate::directive::{Invocation, InvocationView, SourceKind};
use crate::profiler::{inject_profiler, instrumented, names_view, ProfilerError};
use crate::text::{chars_of, decimal, push_all, push_decimal, string_of};

verus! {

/// Why an invocation failed before reaching the compiler.
#[derive(Debug, Clone, PartialEq, Eq)]
pub enum GlslError {
    Include(IncludeError),
    Profiler(ProfilerError),
}

/// Mathematical form of a pipeline error.
pub enum GlslFault {
    Include(IncludeFault),
    Profiler(ProfilerError),
}

impl View for GlslError {
    type V = GlslFault;

    open spec fn view(&self) -> GlslFault {
        match self {
            GlslError::Include(e) => GlslFault::Include(e@),
            GlslError::Profiler(e) => GlslFault::Profiler(*e),
        }
    }
}

/// The virtual path and text of an invocation's source: inline code, or the
/// content of the named file.
pub open spec fn source_of(inv: InvocationView, files: FileTable) -> Result<(Seq<char>, Seq<char>), GlslFault> {
    match inv.1 {
        SourceKind::Inline(_) => Ok((INLINE_PATH@, inv.2)),
        SourceKind::File(_) => match files.lookup(inv.2) {
            None => Err(GlslFault::Include(IncludeFault::FileNotFound(inv.2))),
            Some(c) => Ok((inv.2, c)),
        },
    }
}

/// The text handed to the compiler and the scope table: `text` assembled,
/// then instrumented where `profile` holds.
pub open spec fn prepared(text: Seq<char>, path: Seq<char>, profile: bool, files: FileTable) -> Result<
    (Seq<char>, Seq<Seq<char>>),
    GlslFault,
> {
    match assembled(text, path, files) {
        Err(e) => Err(GlslFault::Include(e)),
        Ok(a) => if profile {
            match instrumented(a) {
                Err(e) => Err(GlslFault::Profiler(e)),
                Ok(r) => Ok(r),
            }
        } else {
            Ok((a, Seq::empty()))
        },
    }
}

/// The virtual path and text of `inv`'s source.
pub fn load_source(inv: &Invocation, files: &FileTable) -> (r: Result<(Vec<char>, Vec<char>), GlslError>)
    ensures
        match r {
            Ok((p, t)) => source_of(
                (inv.stage, inv.source, inv.text@, inv.debug, inv.profile, inv.print),
                *files,
            ) == Ok::<(Seq<char>, Seq<char>), GlslFault>((p@, t@)),
            Err(e) => source_of(
                (inv.stage, inv.source, inv.text@, inv.debug, inv.profile, inv.print),
                *files,
            ) == Err::<(Seq<char>, Seq<char>), GlslFault>(e@),
        },
{
    let text = chars_of(inv.text.as_str());
    match inv.source {
        SourceKind::Inline(_) => Ok((chars_of(INLINE_PATH), text)),
        SourceKind::File(_) => match files.get(&text) {
            None => Err(GlslError::Include(IncludeError::FileNotFound(string_of(&text)))),
            Some(c) => Ok((text, c)),
        },
    }
}

/// Assembles `text`, the source at virtual path `path`, and instruments it
/// where `profile` holds; returns it with the scope table (empty without
/// profiling).
pub fn assemble_shader(text: &Vec<char>, path: &Vec<char>, profile: bool, files: &FileTable) -> (r: Result<
    (Vec<char>, Vec<String>),
    GlslError,
>)
    ensures
        match r {
            Ok((o, t)) => prepared(text@, path@, profile, *files) == Ok::<(Seq<char>, Seq<Seq<char>>), GlslFault>(
                (o@, names_view(t@)),
            ),
            Err(e) => prepared(text@, path@, profile, *files) == Err::<(Seq<char>, Seq<Seq<char>>), GlslFault>(e@),
        },
{
    let a = match manually_include(text, path, 0, files) {
        Err(e) => { return Err(GlslError::Include(e)); },
        Ok(a) => a,
    };
    if profile {
        match inject_profiler(&a) {
            Err(e) => Err(GlslError::Profiler(e)),
            Ok(r) => Ok(r),
        }
    } else {
        let t: Vec<String> = Vec::new();
        assert(names_view(t@) =~= Seq::<Seq<char>>::empty());
        Ok((a, t))
    }
}

/// `b` as decimal numbers, each followed by a comma.
pub open spec fn byte_list(b: Seq<u8>) -> Seq<char>
    decreases b.len(),
{
    if b.len() == 0 {
        Seq::empty()
    } else {
        byte_list(b.drop_last()) + decimal(b.last() as nat) + seq![',']
    }
}

/// `n` as quoted strings, each followed by a comma.
pub open spec fn name_list(n: Seq<Seq<char>>) -> Seq<char>
    decreases n.len(),
{
    if n.len() == 0 {
        Seq::empty()
    } else {
        name_list(n.drop_last()) + seq!['"'] + n.last() + seq!['"', ',']
    }
}

/// The expression that a successful compilation expands to: the binary as a
/// byte slice and the scope names as a string slice.
pub open spec fn artifact(bytes: Seq<u8>, names: Seq<Seq<char>>) -> Seq<char> {
    "(&["@ + byte_list(bytes) + "], &["@ + name_list(names) + "])"@
}

/// The expression for the compiled binary `bytes` and the scope table `names`.
pub fn artifact_text(bytes: &Vec<u8>, names: &Vec<String>) -> (r: String)
    ensures
        r@ == artifact(bytes@, names_view(names@)),
{
    let mut out = chars_of("(&[");
    let ghost head = out@;
    let mut i: usize = 0;
    assert(bytes@.subrange(0, 0) =~= Seq::<u8>::empty());
    while i < bytes.len()
        invariant
            i <= bytes@.len(),
            head == "(&["@,
            out@ == head + byte_list(bytes@.subrange(0, i as int)),
        decreases bytes@.len() - i,
    {
        push_decimal(&mut out, bytes[i] as usize);
        out.push(',');
        assert(bytes@.subrange(0, i + 1).drop_last() =~= bytes@.subrange(0, i as int));
        assert(out@ =~= head + byte_list(bytes@.subrange(0, i + 1)));
        i = i + 1;
    }
    assert(bytes@.subrange(0, i as int) =~= bytes@);
    push_all(&mut out, &chars_of("], &["));
    let ghost mid = out@;
    let ghost nv = names_view(names@);
    let mut j: usize = 0;
    assert(nv.subrange(0, 0) =~= Seq::<Seq<char>>::empty());
    assert(mid =~= mid + name_list(nv.subrange(0, 0)));
    while j < names.len()
        invariant
            j <= names@.len(),
            nv == names_view(names@),
            out@ == mid + name_list(nv.subrange(0, j as int)),
        decreases names@.len() - j,
    {
        out.push('"');
        push_all(&mut out, &chars_of(names[j].as_str()));
        out.push('"');
        out.push(',');
        assert(nv.subrange(0, j + 1).drop_last() =~= nv.subrange(0, j as int));
        assert(nv[j as int] == names@[j as int]@);
        assert(out@ =~= mid + name_list(nv.subrange(0, j + 1)));
        j = j + 1;
    }
    assert(nv.subrange(0, j as int) =~= nv);
    push_all(&mut out, &chars_of("])"));
    assert(out@ =~= artifact(bytes@, nv));
    string_of(&out)
}

} // verus!
