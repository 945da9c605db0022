//! Profiler instrumentation: scope table, begin/end calls and the runtime
//! preamble inserted into a flattened shader source.

use vstd::prelude::*;
use crate::text::{
    chars_of, closing_from, decimal, find_closing_bracket, find_from, find_spec, occurs_at,
    lemma_find_spec, occurs_at_exec, push_all, push_decimal, push_range, same_chars, string_of,
};

verus! {

/// The names of a scope table, as character sequences.
pub open spec fn names_view(v: Seq<String>) -> Seq<Seq<char>> {
    v.map_values(|s: String| s@)
}

/// The table after `name` was looked up: a name not yet present is appended.
pub open spec fn with_name(table: Seq<Seq<char>>, name: Seq<char>) -> Seq<Seq<char>> {
    if table.contains(name) {
        table
    } else {
        table.push(name)
    }
}

/// The distinct names of `s`, in order of first occurrence.
pub open spec fn first_seen(s: Seq<Seq<char>>) -> Seq<Seq<char>>
    decreases s.len(),
{
    if s.len() == 0 {
        Seq::empty()
    } else {
        with_name(first_seen(s.drop_last()), s.last())
    }
}

/// The id of scope `name`: its index in the table, where a name seen for
/// the first time is appended.
pub fn get_id(name: &String, profile_scope_names: &mut Vec<String>) -> (id: usize)
    ensures
        names_view(final(profile_scope_names)@) == with_name(
            names_view(old(profile_scope_names)@),
            name@,
        ),
        id < final(profile_scope_names)@.len(),
        names_view(final(profile_scope_names)@)[id as int] == name@,
        forall|j: int| 0 <= j < id ==> names_view(final(profile_scope_names)@)[j] != name@,
{
    let mut i: usize = 0;
    while i < profile_scope_names.len()
        invariant
            i <= profile_scope_names@.len(),
            profile_scope_names@ == old(profile_scope_names)@,
            forall|j: int| 0 <= j < i ==> names_view(profile_scope_names@)[j] != name@,
        decreases profile_scope_names@.len() - i,
    {
        if profile_scope_names[i] == *name {
            assert(names_view(profile_scope_names@)[i as int] == name@);
            assert(names_view(profile_scope_names@).contains(name@));
            return i;
        }
        i = i + 1;
    }
    assert(!names_view(old(profile_scope_names)@).contains(name@));
    profile_scope_names.push(name.clone());
    assert(names_view(profile_scope_names@) =~= names_view(old(profile_scope_names)@).push(name@));
    profile_scope_names.len() - 1
}

/// Call that starts the timing of a scope.
pub const SCOPE_BEGIN: &'static str = "PROFILE_SCOPE_BEING(";

/// Call that ends the timing of a scope, after a line break.
pub const SCOPE_END: &'static str = "\nPROFILE_SCOPE_END(";

/// Closes a begin or end call.
pub const CALL_CLOSE: &'static str = ");\n";

/// Call that resets the timing storage, placed before the `main` scope begins.
pub const SCOPE_INIT: &'static str = "PROFILE_INIT();\n";

/// The text that begins scope `id`, after a reset where `with_init` holds.
pub open spec fn begin_text(id: nat, with_init: bool) -> Seq<char> {
    (if with_init { SCOPE_INIT@ } else { Seq::empty() }) + SCOPE_BEGIN@ + decimal(id) + CALL_CLOSE@
}

/// The text that ends scope `id`.
pub open spec fn end_text(id: nat) -> Seq<char> {
    SCOPE_END@ + decimal(id) + CALL_CLOSE@
}

/// The begin call for scope `name`, preceded by the reset call where `with_init` holds.
pub fn profile_begin_code(name: &String, profile_scope_names: &mut Vec<String>, with_init: bool) -> (r: Vec<char>)
    ensures
        names_view(final(profile_scope_names)@) == with_name(
            names_view(old(profile_scope_names)@),
            name@,
        ),
        exists|id: int|
            0 <= id < final(profile_scope_names)@.len()
            && names_view(final(profile_scope_names)@)[id] == name@
            && (forall|j: int| 0 <= j < id ==> names_view(final(profile_scope_names)@)[j] != name@)
            && r@ == begin_text(id as nat, with_init),
{
    let id = get_id(name, profile_scope_names);
    let mut out: Vec<char> = Vec::new();
    if with_init {
        push_all(&mut out, &chars_of(SCOPE_INIT));
    }
    push_all(&mut out, &chars_of(SCOPE_BEGIN));
    push_decimal(&mut out, id);
    push_all(&mut out, &chars_of(CALL_CLOSE));
    assert(out@ =~= begin_text(id as nat, with_init));
    out
}

/// The end call for scope `name`.
pub fn profile_end_code(name: &String, profile_scope_names: &mut Vec<String>) -> (r: Vec<char>)
    ensures
        names_view(final(profile_scope_names)@) == with_name(
            names_view(old(profile_scope_names)@),
            name@,
        ),
        exists|id: int|
            0 <= id < final(profile_scope_names)@.len()
            && names_view(final(profile_scope_names)@)[id] == name@
            && (forall|j: int| 0 <= j < id ==> names_view(final(profile_scope_names)@)[j] != name@)
            && r@ == end_text(id as nat),
{
    let id = get_id(name, profile_scope_names);
    let mut out: Vec<char> = Vec::new();
    push_all(&mut out, &chars_of(SCOPE_END));
    push_decimal(&mut out, id);
    push_all(&mut out, &chars_of(CALL_CLOSE));
    assert(out@ =~= end_text(id as nat));
    out
}

/// First part of the runtime preamble, before the number of scopes.
pub const PREAMBLE_HEAD: &'static str = "\n#extension GL_EXT_shader_realtime_clock : require\n\nlayout(binding = 10) uniform ProfilerIn {\n    uint active_pixel_x;\n    uint active_pixel_y;\n} profiler_in;\n\nlayout(binding = 11) buffer ProfilerOut {\n    uint[] data;\n} profiler_out;\n\nvoid PROFILE_INIT() {\n    if (profiler_in.active_pixel_x != gl_GlobalInvocationID.x || profiler_in.active_pixel_y != gl_GlobalInvocationID.y) {\n        return;\n    }\n\n    for (uint i = 0; i < ";

/// Second part of the runtime preamble, after the number of scopes.
pub const PREAMBLE_TAIL: &'static str = "; i++) {\n        profiler_out.data[i * 5] = 0;\n    }\n}\n\nvoid PROFILE_SCOPE_BEING(uint id) {\n    if (profiler_in.active_pixel_x != gl_GlobalInvocationID.x || profiler_in.active_pixel_y != gl_GlobalInvocationID.y) {\n        return;\n    }\n    uint index = id * 5;\n\n    uvec2 timing = clockRealtime2x32EXT();\n    profiler_out.data[index]++;\n    profiler_out.data[index + 1] = timing.x;\n    profiler_out.data[index + 2] = timing.y;\n}\n\nvoid PROFILE_SCOPE_END(uint id) {\n    if (profiler_in.active_pixel_x != gl_GlobalInvocationID.x || profiler_in.active_pixel_y != gl_GlobalInvocationID.y) {\n        return;\n    }\n    uint index = id * 5;\n\n    uvec2 timing = clockRealtime2x32EXT();\n    profiler_out.data[index + 3] = timing.x;\n    profiler_out.data[index + 4] = timing.y;\n}\n    ";

/// The runtime preamble for `num_scopes` scopes.
pub open spec fn preamble(num_scopes: nat) -> Seq<char> {
    PREAMBLE_HEAD@ + decimal(num_scopes) + PREAMBLE_TAIL@
}

/// The runtime preamble: timing storage and the init, begin and end
/// routines, sized to `num_scopes` scopes.
pub fn profile_inject_code(num_scopes: usize) -> (r: Vec<char>)
    ensures
        r@ == preamble(num_scopes as nat),
{
    let mut out = chars_of(PREAMBLE_HEAD);
    push_decimal(&mut out, num_scopes);
    push_all(&mut out, &chars_of(PREAMBLE_TAIL));
    out
}

/// Why a source could not be instrumented.
#[derive(Debug, Clone, Copy, PartialEq, Eq, Structural)]
pub enum ProfilerError {
    /// The marker at this index has no `");` after its name.
    UnterminatedMarker(usize),
    /// The marker at this index is not followed by a `{`.
    NoScope(usize),
    /// The scope of the marker at this index is not closed.
    UnclosedScope(usize),
    /// No scope is named `main`.
    MissingMain,
    /// The source has no `#version` line.
    NoVersion,
    /// The `#version` line has no line break after it.
    VersionLineEnd,
}

/// A profiler marker found in a source: where it starts, where its text ends,
/// the index of the brace closing its scope, the scope's name, and the index
/// of the brace opening its scope.
#[derive(Debug, Clone, PartialEq, Eq)]
pub struct ScopeMarker {
    pub start: usize,
    pub end: usize,
    pub close: usize,
    pub name: String,
    pub open: usize,
}

/// A marker as (start, end, close, name, open).
pub type MarkerView = (int, int, int, Seq<char>, int);

/// A marker as a tuple.
pub open spec fn marker_view(m: ScopeMarker) -> MarkerView {
    (m.start as int, m.end as int, m.close as int, m.name@, m.open as int)
}

/// The markers of a list, as tuples.
pub open spec fn markers_view(v: Seq<ScopeMarker>) -> Seq<MarkerView> {
    v.map_values(|m: ScopeMarker| marker_view(m))
}

/// The scope names of a list of markers, in order.
pub open spec fn marker_names(ms: Seq<MarkerView>) -> Seq<Seq<char>> {
    ms.map_values(|m: MarkerView| m.3)
}

/// The markers of `s` from index `from` on, left to right.
pub open spec fn scan_markers(s: Seq<char>, from: int) -> Result<Seq<MarkerView>, ProfilerError>
    decreases s.len() - from,
    via scan_markers_decreases
{
    if from < 0 || from > s.len() {
        Ok(Seq::empty())
    } else {
        match find_spec(s, from, "//PROFILE(\""@) {
            None => Ok(Seq::empty()),
            Some(p) => match find_spec(s, p + 11, "\");"@) {
                None => Err(ProfilerError::UnterminatedMarker(p as usize)),
                Some(e) => match find_spec(s, e + 3, seq!['{']) {
                    None => Err(ProfilerError::NoScope(p as usize)),
                    Some(b) => match closing_from(s, b + 1, b + 1) {
                        None => Err(ProfilerError::UnclosedScope(p as usize)),
                        Some(c) => match scan_markers(s, e + 3) {
                            Err(x) => Err(x),
                            Ok(rest) => Ok(seq![(p, e + 3, c, s.subrange(p + 11, e), b)] + rest),
                        },
                    },
                },
            },
        }
    }
}

#[via_fn]
proof fn scan_markers_decreases(s: Seq<char>, from: int) {
    if 0 <= from <= s.len() {
        lemma_find_spec(s, from, "//PROFILE(\""@);
        if let Some(p) = find_spec(s, from, "//PROFILE(\""@) {
            lemma_find_spec(s, p + 11, "\");"@);
        }
    }
}

/// `r` with `a` put in front of its markers.
pub open spec fn prepend(
    a: Seq<MarkerView>,
    r: Result<Seq<MarkerView>, ProfilerError>,
) -> Result<Seq<MarkerView>, ProfilerError> {
    match r {
        Ok(rest) => Ok(a + rest),
        Err(e) => Err(e),
    }
}

/// Markers that lie inside `s`, each ending after it starts.
pub open spec fn markers_valid(ms: Seq<MarkerView>, len: int) -> bool {
    forall|k: int| 0 <= k < ms.len() ==> 0 <= (#[trigger] ms[k]).0 < ms[k].1 <= len && 0 <= ms[k].2 < len
}

/// The markers of `source`, left to right.
pub fn collect_markers(source: &Vec<char>) -> (r: Result<Vec<ScopeMarker>, ProfilerError>)
    ensures
        match r {
            Ok(ms) => scan_markers(source@, 0) == Ok::<Seq<MarkerView>, ProfilerError>(markers_view(ms@))
                && markers_valid(markers_view(ms@), source@.len() as int),
            Err(e) => scan_markers(source@, 0) == Err::<Seq<MarkerView>, ProfilerError>(e),
        },
{
    let marker = chars_of("//PROFILE(\"");
    let name_end = chars_of("\");");
    let brace = vec!['{'];
    assert(brace@ =~= seq!['{']);
    let mut acc: Vec<ScopeMarker> = Vec::new();
    let mut from: usize = 0;
    loop
        invariant
            from <= source@.len(),
            marker@ == "//PROFILE(\""@,
            name_end@ == "\");"@,
            brace@ == seq!['{'],
            scan_markers(source@, 0) == prepend(markers_view(acc@), scan_markers(source@, from as int)),
            markers_valid(markers_view(acc@), source@.len() as int),
        decreases source@.len() - from,
    {
        proof {
            lemma_find_spec(source@, from as int, "//PROFILE(\""@);
        }
        let p = match find_from(source, from, &marker) {
            None => {
                assert(markers_view(acc@) + Seq::empty() =~= markers_view(acc@));
                return Ok(acc);
            },
            Some(p) => p,
        };
        let n = source.len();
        proof {
            reveal_strlit("//PROFILE(\"");
            lemma_find_spec(source@, p + 11, "\");"@);
        }
        assert(p + 11 <= n);
        let e = match find_from(source, p + 11, &name_end) {
            None => { return Err(ProfilerError::UnterminatedMarker(p)); },
            Some(e) => e,
        };
        proof {
            reveal_strlit("\");");
        }
        assert(e + 3 <= n);
        let b = match find_from(source, e + 3, &brace) {
            None => { return Err(ProfilerError::NoScope(p)); },
            Some(b) => b,
        };
        proof {
            lemma_find_spec(source@, e + 3, seq!['{']);
        }
        let c = match find_closing_bracket(source, b + 1) {
            None => { return Err(ProfilerError::UnclosedScope(p)); },
            Some(c) => c,
        };
        let mut name_chars: Vec<char> = Vec::new();
        push_range(&mut name_chars, source, p + 11, e);
        let m = ScopeMarker { start: p, end: e + 3, close: c, name: string_of(&name_chars), open: b };
        let ghost old_acc = markers_view(acc@);
        acc.push(m);
        proof {
            let mv = (p as int, e + 3, c as int, source@.subrange(p + 11, e as int), b as int);
            assert(marker_view(m) == mv);
            assert(markers_view(acc@) =~= old_acc.push(mv));
            match scan_markers(source@, e + 3) {
                Ok(rest) => {
                    assert(old_acc + (seq![mv] + rest) =~= old_acc.push(mv) + rest);
                },
                Err(x) => {},
            }
        }
        from = e + 3;
    }
}

/// Index of the first `name` in `t` at or after `i` (`t.len()` if none).
pub open spec fn position_from(t: Seq<Seq<char>>, name: Seq<char>, i: int) -> int
    decreases t.len() - i,
{
    if i < 0 || i >= t.len() {
        i
    } else if t[i] == name {
        i
    } else {
        position_from(t, name, i + 1)
    }
}

/// The id of scope `name` in table `t`.
pub open spec fn scope_id(t: Seq<Seq<char>>, name: Seq<char>) -> nat {
    position_from(t, name, 0) as nat
}

proof fn lemma_position(t: Seq<Seq<char>>, name: Seq<char>, id: int, i: int)
    requires
        0 <= i <= id < t.len(),
        t[id] == name,
        forall|j: int| 0 <= j < id ==> t[j] != name,
    ensures
        position_from(t, name, i) == id,
    decreases id - i,
{
    if i < id {
        lemma_position(t, name, id, i + 1);
    }
}

/// The first-seen table holds exactly the names of the list.
pub proof fn lemma_first_seen_contains(s: Seq<Seq<char>>, x: Seq<char>)
    ensures
        first_seen(s).contains(x) <==> s.contains(x),
    decreases s.len(),
{
    if s.len() > 0 {
        lemma_first_seen_contains(s.drop_last(), x);
        let p = first_seen(s.drop_last());
        if s.contains(x) && x != s.last() {
            let k = choose|k: int| 0 <= k < s.len() && s[k] == x;
            assert(s.drop_last()[k] == x);
        }
        if s.drop_last().contains(x) {
            let k = choose|k: int| 0 <= k < s.drop_last().len() && s.drop_last()[k] == x;
            assert(s[k] == x);
        }
        if !p.contains(s.last()) {
            assert(p.push(s.last())[p.len() as int] == s.last());
            if p.contains(x) {
                let k = choose|k: int| 0 <= k < p.len() && p[k] == x;
                assert(p.push(s.last())[k] == x);
            }
            if p.push(s.last()).contains(x) && x != s.last() {
                let k = choose|k: int| 0 <= k < p.len() + 1 && p.push(s.last())[k] == x;
                assert(p[k] == x);
            }
        }
        if x == s.last() {
            assert(s[s.len() - 1] == x);
        }
    }
}

/// The first-seen table lists no name twice: a repeated name keeps its first id.
pub proof fn lemma_first_seen_distinct(s: Seq<Seq<char>>)
    ensures
        forall|i: int, j: int|
            0 <= i < j < first_seen(s).len() ==> first_seen(s)[i] != first_seen(s)[j],
    decreases s.len(),
{
    if s.len() > 0 {
        lemma_first_seen_distinct(s.drop_last());
        let p = first_seen(s.drop_last());
        if !p.contains(s.last()) {
            assert forall|i: int, j: int| 0 <= i < j < p.push(s.last()).len() implies p.push(s.last())[i]
                != p.push(s.last())[j] by {
                if j == p.len() {
                    if p[i] == s.last() {
                        assert(p.contains(s.last()));
                    }
                }
            }
        }
    }
}

/// The scope table of a list of markers: distinct names, in order of first occurrence.
pub fn scope_table(ms: &Vec<ScopeMarker>) -> (t: Vec<String>)
    ensures
        names_view(t@) == first_seen(marker_names(markers_view(ms@))),
{
    let ghost names = marker_names(markers_view(ms@));
    let mut t: Vec<String> = Vec::new();
    let mut k: usize = 0;
    assert(names.subrange(0, 0) =~= Seq::<Seq<char>>::empty());
    assert(names_view(t@) =~= Seq::<Seq<char>>::empty());
    while k < ms.len()
        invariant
            k <= ms@.len(),
            names == marker_names(markers_view(ms@)),
            names_view(t@) == first_seen(names.subrange(0, k as int)),
            t@.len() <= k,
        decreases ms@.len() - k,
    {
        let ghost before = t@;
        get_id(&ms[k].name, &mut t);
        assert(names_view(before).len() == before.len());
        assert(names_view(t@).len() == t@.len());
        assert(names.subrange(0, k + 1).drop_last() =~= names.subrange(0, k as int));
        assert(names.subrange(0, k + 1).last() == ms@[k as int].name@);
        k = k + 1;
    }
    assert(names.subrange(0, k as int) =~= names);
    t
}

/// Position in `ms` at or after `k` of the marker starting at `i`.
pub open spec fn marker_from(ms: Seq<MarkerView>, i: int, k: int) -> Option<int>
    decreases ms.len() - k,
{
    if k < 0 || k >= ms.len() {
        None
    } else if ms[k].0 == i {
        Some(k)
    } else {
        marker_from(ms, i, k + 1)
    }
}

proof fn lemma_marker_from(ms: Seq<MarkerView>, i: int, k: int)
    requires
        k >= 0,
    ensures
        match marker_from(ms, i, k) {
            Some(x) => k <= x < ms.len() && ms[x].0 == i,
            None => true,
        },
    decreases ms.len() - k,
{
    if k < ms.len() && ms[k].0 != i {
        lemma_marker_from(ms, i, k + 1);
    }
}

/// The end calls placed at index `i` by the markers `ms[..k]`, innermost
/// (latest) first: at the brace closing a scope, and before each `return`
/// between its braces.
pub open spec fn ends_at(
    s: Seq<char>,
    ms: Seq<MarkerView>,
    t: Seq<Seq<char>>,
    i: int,
    k: int,
) -> Seq<char>
    decreases k,
{
    if k <= 0 || k > ms.len() {
        Seq::empty()
    } else {
        let m = ms[k - 1];
        let here = m.2 == i || (m.4 <= i < m.2 && occurs_at(s, i, "return"@));
        (if here { end_text(scope_id(t, m.3)) } else { Seq::empty() }) + ends_at(s, ms, t, i, k - 1)
    }
}

/// `s[i..]` instrumented: each marker replaced by its begin call (after the
/// reset call for `main`), and the end calls inserted.
pub open spec fn render_from(
    s: Seq<char>,
    ms: Seq<MarkerView>,
    t: Seq<Seq<char>>,
    i: int,
) -> Seq<char>
    decreases s.len() - i,
{
    if i < 0 || i >= s.len() {
        Seq::empty()
    } else {
        let pre = ends_at(s, ms, t, i, ms.len() as int);
        match marker_from(ms, i, 0) {
            Some(k) => if i < ms[k].1 <= s.len() {
                pre + begin_text(scope_id(t, ms[k].3), ms[k].3 == "main"@) + render_from(s, ms, t, ms[k].1)
            } else {
                pre + seq![s[i]] + render_from(s, ms, t, i + 1)
            },
            None => pre + seq![s[i]] + render_from(s, ms, t, i + 1),
        }
    }
}

/// The instrumented form of `s` and its scope table.
pub open spec fn instrumented(s: Seq<char>) -> Result<(Seq<char>, Seq<Seq<char>>), ProfilerError> {
    match scan_markers(s, 0) {
        Err(e) => Err(e),
        Ok(ms) => {
            let t = first_seen(marker_names(ms));
            if !t.contains("main"@) {
                Err(ProfilerError::MissingMain)
            } else {
                let body = render_from(s, ms, t, 0);
                match find_spec(body, 0, "#version"@) {
                    None => Err(ProfilerError::NoVersion),
                    Some(v) => match find_spec(body, v, seq!['\n']) {
                        None => Err(ProfilerError::VersionLineEnd),
                        Some(l) => Ok(
                            (
                                body.subrange(0, l + 1) + preamble(t.len()) + body.subrange(
                                    l + 1,
                                    body.len() as int,
                                ),
                                t,
                            ),
                        ),
                    },
                }
            }
        },
    }
}

/// Every scope name of `ms` is in the table `t`.
pub open spec fn names_in(ms: Seq<MarkerView>, t: Seq<Seq<char>>) -> bool {
    forall|k: int| 0 <= k < ms.len() ==> t.contains(#[trigger] ms[k].3)
}

/// Appends the end calls that the markers place at index `i`.
fn push_ends(
    s: &Vec<char>,
    ms: &Vec<ScopeMarker>,
    table: &mut Vec<String>,
    i: usize,
    out: &mut Vec<char>,
)
    requires
        names_in(markers_view(ms@), names_view(old(table)@)),
    ensures
        names_view(final(table)@) == names_view(old(table)@),
        final(out)@ == old(out)@ + ends_at(
            s@,
            markers_view(ms@),
            names_view(old(table)@),
            i as int,
            ms@.len() as int,
        ),
{
    let ghost tv = names_view(table@);
    let ghost mv = markers_view(ms@);
    let ret = chars_of("return");
    let mut k: usize = ms.len();
    assert(old(out)@ + ends_at(s@, mv, tv, i as int, k as int) =~= out@ + ends_at(s@, mv, tv, i as int, k as int));
    while k > 0
        invariant
            k <= ms@.len(),
            ret@ == "return"@,
            mv == markers_view(ms@),
            names_view(table@) == tv,
            names_in(mv, tv),
            old(out)@ + ends_at(s@, mv, tv, i as int, ms@.len() as int) == out@ + ends_at(s@, mv, tv, i as int, k as int),
        decreases k,
    {
        let m = &ms[k - 1];
        assert(mv[k - 1] == marker_view(*m));
        let here = m.close == i || (m.open <= i && i < m.close && occurs_at_exec(s, i, &ret));
        let ghost before = out@;
        if here {
            let e = profile_end_code(&m.name, table);
            proof {
                assert(tv.contains(mv[k - 1].3));
                let id = choose|id: int|
                    0 <= id < table@.len() && names_view(table@)[id] == m.name@ && (forall|j: int|
                        0 <= j < id ==> names_view(table@)[j] != m.name@) && e@ == end_text(id as nat);
                lemma_position(tv, m.name@, id, 0);
            }
            push_all(out, &e);
            assert(out@ + ends_at(s@, mv, tv, i as int, k - 1) =~= before + ends_at(s@, mv, tv, i as int, k as int));
        } else {
            assert(out@ + ends_at(s@, mv, tv, i as int, k - 1) =~= before + ends_at(s@, mv, tv, i as int, k as int));
        }
        k = k - 1;
    }
    assert(ends_at(s@, mv, tv, i as int, 0) =~= Seq::<char>::empty());
    assert(out@ =~= out@ + ends_at(s@, mv, tv, i as int, 0));
}

/// The position in `ms` of the marker that starts at `i`.
fn marker_index(ms: &Vec<ScopeMarker>, i: usize) -> (r: Option<usize>)
    ensures
        match r {
            Some(k) => marker_from(markers_view(ms@), i as int, 0) == Some(k as int) && k < ms@.len(),
            None => marker_from(markers_view(ms@), i as int, 0) is None,
        },
{
    let ghost mv = markers_view(ms@);
    let mut k: usize = 0;
    while k < ms.len()
        invariant
            k <= ms@.len(),
            mv == markers_view(ms@),
            marker_from(mv, i as int, 0) == marker_from(mv, i as int, k as int),
        decreases ms@.len() - k,
    {
        assert(mv[k as int] == marker_view(ms@[k as int]));
        if ms[k].start == i {
            return Some(k);
        }
        k = k + 1;
    }
    None
}

/// `source` with every marker replaced by its begin call and the end calls inserted.
fn render(source: &Vec<char>, ms: &Vec<ScopeMarker>, table: &mut Vec<String>) -> (out: Vec<char>)
    requires
        markers_valid(markers_view(ms@), source@.len() as int),
        names_in(markers_view(ms@), names_view(old(table)@)),
    ensures
        names_view(final(table)@) == names_view(old(table)@),
        out@ == render_from(source@, markers_view(ms@), names_view(old(table)@), 0),
{
    let ghost tv = names_view(table@);
    let ghost mv = markers_view(ms@);
    let main_name = chars_of("main");
    let mut out: Vec<char> = Vec::new();
    let mut i: usize = 0;
    while i < source.len()
        invariant
            i <= source@.len(),
            main_name@ == "main"@,
            mv == markers_view(ms@),
            names_view(table@) == tv,
            names_in(mv, tv),
            markers_valid(mv, source@.len() as int),
            render_from(source@, mv, tv, 0) == out@ + render_from(source@, mv, tv, i as int),
        decreases source@.len() - i,
    {
        let ghost before = out@;
        push_ends(source, ms, table, i, &mut out);
        let ghost pre = ends_at(source@, mv, tv, i as int, mv.len() as int);
        match marker_index(ms, i) {
            Some(k) => {
                assert(mv[k as int] == marker_view(ms@[k as int]));
                proof {
                    lemma_marker_from(mv, i as int, 0);
                    assert(0 <= mv[k as int].0 < mv[k as int].1 <= source@.len());
                }
                let m = &ms[k];
                let is_main = same_chars(&chars_of(m.name.as_str()), &main_name);
                let b = profile_begin_code(&m.name, table, is_main);
                proof {
                    assert(tv.contains(mv[k as int].3));
                    let id = choose|id: int|
                        0 <= id < table@.len() && names_view(table@)[id] == m.name@ && (forall|j: int|
                            0 <= j < id ==> names_view(table@)[j] != m.name@) && b@ == begin_text(id as nat, is_main);
                    lemma_position(tv, m.name@, id, 0);
                }
                push_all(&mut out, &b);
                assert(out@ + render_from(source@, mv, tv, m.end as int) =~= before + render_from(source@, mv, tv, i as int));
                i = m.end;
            },
            None => {
                out.push(source[i]);
                assert(out@ + render_from(source@, mv, tv, i + 1) =~= before + render_from(source@, mv, tv, i as int));
                i = i + 1;
            },
        }
    }
    assert(out@ =~= out@ + render_from(source@, mv, tv, i as int));
    out
}

/// Whether `t` holds `name`.
fn table_has(t: &Vec<String>, name: &String) -> (r: bool)
    ensures
        r == names_view(t@).contains(name@),
{
    let mut j: usize = 0;
    while j < t.len()
        invariant
            j <= t@.len(),
            forall|x: int| 0 <= x < j ==> names_view(t@)[x] != name@,
        decreases t@.len() - j,
    {
        if t[j] == *name {
            assert(names_view(t@)[j as int] == name@);
            return true;
        }
        j = j + 1;
    }
    false
}

/// Instruments `source` for profiling: each `//PROFILE("<name>");` marker
/// becomes a begin call of its scope's id (after a reset for `main`), an end
/// call is put before the brace closing the scope and before each `return`
/// inside it, and the runtime preamble follows the `#version` line. Also
/// returns the scope table, whose index is the scope id.
pub fn inject_profiler(source: &Vec<char>) -> (r: Result<(Vec<char>, Vec<String>), ProfilerError>)
    ensures
        match r {
            Ok((o, t)) => instrumented(source@) == Ok::<(Seq<char>, Seq<Seq<char>>), ProfilerError>((o@, names_view(t@))),
            Err(e) => instrumented(source@) == Err::<(Seq<char>, Seq<Seq<char>>), ProfilerError>(e),
        },
{
    let ms = match collect_markers(source) {
        Err(e) => { return Err(e); },
        Ok(ms) => ms,
    };
    let ghost mv = markers_view(ms@);
    let mut table = scope_table(&ms);
    let ghost tv = names_view(table@);
    proof {
        assert forall|k: int| 0 <= k < mv.len() implies tv.contains(#[trigger] mv[k].3) by {
            assert(marker_names(mv)[k] == mv[k].3);
            assert(marker_names(mv).contains(mv[k].3));
            lemma_first_seen_contains(marker_names(mv), mv[k].3);
        }
    }
    let main_name = string_of(&chars_of("main"));
    if !table_has(&table, &main_name) {
        return Err(ProfilerError::MissingMain);
    }
    let body = render(source, &ms, &mut table);
    let version = chars_of("#version");
    let v = match find_from(&body, 0, &version) {
        None => { return Err(ProfilerError::NoVersion); },
        Some(v) => v,
    };
    let newline = vec!['\n'];
    assert(newline@ =~= seq!['\n']);
    let l = match find_from(&body, v, &newline) {
        None => { return Err(ProfilerError::VersionLineEnd); },
        Some(l) => l,
    };
    proof {
        lemma_find_spec(body@, v as int, seq!['\n']);
    }
    let n = body.len();
    assert(l < n);
    let mut out: Vec<char> = Vec::new();
    push_range(&mut out, &body, 0, l + 1);
    push_all(&mut out, &profile_inject_code(table.len()));
    push_range(&mut out, &body, l + 1, body.len());
    assert(names_view(table@).len() == table@.len());
    Ok((out, table))
}

/// The scope table lists each marker's name once, in order of first
/// occurrence, so a repeated name keeps the id of its first occurrence; a
/// source without a scope named `main` is refused.
pub proof fn lemma_scope_table(s: Seq<char>, ms: Seq<MarkerView>)
    requires
        scan_markers(s, 0) == Ok::<Seq<MarkerView>, ProfilerError>(ms),
    ensures
        instrumented(s) matches Ok((o, t)) ==> {
            &&& t == first_seen(marker_names(ms))
            &&& forall|i: int, j: int| 0 <= i < j < t.len() ==> t[i] != t[j]
            &&& forall|k: int| 0 <= k < ms.len() ==> t.contains(#[trigger] ms[k].3)
        },
        !marker_names(ms).contains("main"@) ==> instrumented(s) == Err::<(Seq<char>, Seq<Seq<char>>), ProfilerError>(
            ProfilerError::MissingMain,
        ),
{
    let names = marker_names(ms);
    lemma_first_seen_distinct(names);
    lemma_first_seen_contains(names, "main"@);
    assert forall|k: int| 0 <= k < ms.len() implies first_seen(names).contains(#[trigger] ms[k].3) by {
        assert(names[k] == ms[k].3);
        lemma_first_seen_contains(names, ms[k].3);
    }
}

/// The full text of a marker for scope `name`.
pub open spec fn marker_text(name: Seq<char>) -> Seq<char> {
    "//PROFILE(\""@ + name + "\");"@
}

proof fn lemma_scan_marker_text(s: Seq<char>, from: int)
    requires
        0 <= from,
    ensures
        scan_markers(s, from) matches Ok(ms) ==> forall|k: int|
            0 <= k < ms.len() ==> occurs_at(s, (#[trigger] ms[k]).0, marker_text(ms[k].3)),
    decreases s.len() - from,
{
    if from <= s.len() {
        lemma_find_spec(s, from, "//PROFILE(\""@);
        if let Some(p) = find_spec(s, from, "//PROFILE(\""@) {
            reveal_strlit("//PROFILE(\"");
            lemma_find_spec(s, p + 11, "\");"@);
            if let Some(e) = find_spec(s, p + 11, "\");"@) {
                reveal_strlit("\");");
                lemma_scan_marker_text(s, e + 3);
                if let Ok(ms) = scan_markers(s, from) {
                    let name = s.subrange(p + 11, e);
                    assert(s.subrange(p, e + 3) =~= s.subrange(p, p + 11) + name + s.subrange(e, e + 3));
                    assert(occurs_at(s, p, marker_text(name)));
                    let rest = scan_markers(s, e + 3)->Ok_0;
                    assert forall|k: int| 0 <= k < ms.len() implies occurs_at(s, (#[trigger] ms[k]).0, marker_text(ms[k].3)) by {
                        if k > 0 {
                            assert(ms[k] == rest[k - 1]);
                        }
                    }
                }
            }
        }
    }
}

/// A source without the marker text `//PROFILE("main");` cannot be
/// instrumented: where its markers are well formed, it lacks the `main` scope.
pub proof fn lemma_no_main_marker_fails(s: Seq<char>)
    requires
        forall|j: int| !occurs_at(s, j, marker_text("main"@)),
    ensures
        instrumented(s) is Err,
        scan_markers(s, 0) is Ok ==> instrumented(s) == Err::<(Seq<char>, Seq<Seq<char>>), ProfilerError>(
            ProfilerError::MissingMain,
        ),
{
    lemma_scan_marker_text(s, 0);
    if let Ok(ms) = scan_markers(s, 0) {
        let names = marker_names(ms);
        if names.contains("main"@) {
            let k = choose|k: int| 0 <= k < names.len() && names[k] == "main"@;
            assert(names[k] == ms[k].3);
            assert(occurs_at(s, ms[k].0, marker_text(ms[k].3)));
        }
        lemma_first_seen_contains(names, "main"@);
    }
}

} // verus!
