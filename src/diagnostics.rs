//! Mapping of compiler diagnostics back onto the tokens of embedded code.

use vstd::prelude::*;
use crate::text::{
    chars_of, count_char, find_from, find_spec, lemma_find_spec, push_all, push_range, string_of,
};

verus! {

/// A token of embedded code without inner tokens: its source text and the
/// handle of its place in the embedding.
#[derive(Debug, Clone)]
pub struct Leaf {
    pub text: String,
    pub span: usize,
}

/// A token tree of embedded code: a bracketed group of tokens, or a single
/// token with its source text and the handle of its place in the embedding.
pub enum TokenNode {
    Group(Vec<TokenNode>),
    Token(String, usize),
}

/// The single tokens of `ts`, as (text, handle), in depth-first order.
pub open spec fn tree_leaves(ts: Seq<TokenNode>) -> Seq<(Seq<char>, usize)>
    decreases ts,
{
    if ts.len() == 0 {
        Seq::empty()
    } else {
        tree_leaves(ts.drop_last()) + match ts.last() {
            TokenNode::Token(t, id) => seq![(t@, id)],
            TokenNode::Group(ch) => tree_leaves(ch@),
        }
    }
}

/// The leaves of a token tree, as (text, handle), in depth-first order.
pub open spec fn leaves_view(v: Seq<Leaf>) -> Seq<(Seq<char>, usize)> {
    v.map_values(|l: Leaf| (l.text@, l.span))
}

/// Appends the single tokens of `t`, depth first.
fn push_leaves(t: &TokenNode, out: &mut Vec<Leaf>)
    ensures
        leaves_view(final(out)@) == leaves_view(old(out)@) + tree_leaves(seq![*t]),
    decreases t,
{
    assert(seq![*t].drop_last() =~= Seq::<TokenNode>::empty());
    match t {
        TokenNode::Token(text, id) => {
            let ghost before = out@;
            out.push(Leaf { text: text.clone(), span: *id });
            assert(seq![*t].last() == *t);
            assert(tree_leaves(Seq::<TokenNode>::empty()) =~= Seq::empty());
            assert(leaves_view(out@) =~= leaves_view(before).push((text@, *id)));
            assert(leaves_view(out@) =~= leaves_view(old(out)@) + tree_leaves(seq![*t]));
        },
        TokenNode::Group(ch) => {
            let mut i: usize = 0;
            assert(ch@.subrange(0, 0) =~= Seq::<TokenNode>::empty());
            assert(leaves_view(out@) =~= leaves_view(old(out)@) + tree_leaves(ch@.subrange(0, 0)));
            while i < ch.len()
                invariant
                    i <= ch@.len(),
                    *t == TokenNode::Group(*ch),
                    leaves_view(out@) == leaves_view(old(out)@) + tree_leaves(ch@.subrange(0, i as int)),
                decreases ch@.len() - i,
            {
                proof {
                    vstd::std_specs::vec::axiom_vec_index_decreases(*ch, i as int);
                    assert(t->Group_0 == *ch);
                    assert(decreases_to!(*t => t->Group_0));
                    assert(decreases_to!(*t => ch[i as int]));
                }
                push_leaves(&ch[i], out);
                proof {
                    let x = ch@[i as int];
                    assert(seq![x].drop_last() =~= Seq::<TokenNode>::empty());
                    assert(ch@.subrange(0, i + 1).drop_last() =~= ch@.subrange(0, i as int));
                    assert(ch@.subrange(0, i + 1).last() == x);
                    assert(tree_leaves(seq![x]) =~= tree_leaves(Seq::<TokenNode>::empty()) + match x {
                        TokenNode::Token(t, id) => seq![(t@, id)],
                        TokenNode::Group(c) => tree_leaves(c@),
                    });
                }
                assert(leaves_view(out@) =~= leaves_view(old(out)@) + tree_leaves(ch@.subrange(0, i + 1)));
                i = i + 1;
            }
            assert(ch@.subrange(0, i as int) =~= ch@);
        },
    }
}

/// The single tokens of a token tree, depth first: the leaves that
/// diagnostics are located on.
pub fn flatten_tokens(t: &TokenNode) -> (r: Vec<Leaf>)
    ensures
        leaves_view(r@) == tree_leaves(seq![*t]),
{
    let mut r: Vec<Leaf> = Vec::new();
    push_leaves(t, &mut r);
    assert(leaves_view(r@) =~= tree_leaves(seq![*t]));
    r
}

/// The pieces of `s[from..]` between occurrences of `sep`.
pub open spec fn split_from(s: Seq<char>, from: int, sep: Seq<char>) -> Seq<Seq<char>>
    decreases s.len() - from,
    via split_from_decreases
{
    if from < 0 || from > s.len() || sep.len() == 0 {
        seq![s]
    } else {
        match find_spec(s, from, sep) {
            None => seq![s.subrange(from, s.len() as int)],
            Some(i) => seq![s.subrange(from, i)] + split_from(s, i + sep.len(), sep),
        }
    }
}

#[via_fn]
proof fn split_from_decreases(s: Seq<char>, from: int, sep: Seq<char>) {
    if 0 <= from <= s.len() {
        lemma_find_spec(s, from, sep);
    }
}

/// The views of a list of character vectors.
pub open spec fn pieces_view(v: Seq<Vec<char>>) -> Seq<Seq<char>> {
    v.map_values(|p: Vec<char>| p@)
}

/// The pieces of `s` between occurrences of `sep`.
pub fn split_on(s: &Vec<char>, sep: &Vec<char>) -> (r: Vec<Vec<char>>)
    requires
        sep@.len() > 0,
    ensures
        pieces_view(r@) == split_from(s@, 0, sep@),
{
    let mut r: Vec<Vec<char>> = Vec::new();
    let mut from: usize = 0;
    loop
        invariant
            from <= s@.len(),
            sep@.len() > 0,
            split_from(s@, 0, sep@) == pieces_view(r@) + split_from(s@, from as int, sep@),
        decreases s@.len() - from,
    {
        proof {
            lemma_find_spec(s@, from as int, sep@);
        }
        let ghost before = pieces_view(r@);
        match find_from(s, from, sep) {
            None => {
                let mut piece: Vec<char> = Vec::new();
                push_range(&mut piece, s, from, s.len());
                r.push(piece);
                assert(pieces_view(r@) =~= before + split_from(s@, from as int, sep@));
                return r;
            },
            Some(i) => {
                let n = s.len();
                assert(i + sep@.len() <= n);
                let mut piece: Vec<char> = Vec::new();
                push_range(&mut piece, s, from, i);
                r.push(piece);
                assert(pieces_view(r@) + split_from(s@, i + sep@.len(), sep@) =~= before + split_from(
                    s@,
                    from as int,
                    sep@,
                ));
                from = i + sep.len();
            },
        }
    }
}

/// Value of a non-empty string of decimal digits.
pub open spec fn digits_value(s: Seq<char>) -> nat
    decreases s.len(),
{
    if s.len() == 0 {
        0
    } else {
        (digits_value(s.drop_last()) * 10 + (s.last() as int - '0' as int)) as nat
    }
}

/// `s` is a non-empty string of decimal digits.
pub open spec fn all_digits(s: Seq<char>) -> bool {
    s.len() > 0 && forall|i: int| 0 <= i < s.len() ==> '0' <= #[trigger] s[i] <= '9'
}

/// The number written in decimal digits by `s`, where it fits a `usize`.
pub fn parse_number(s: &Vec<char>) -> (r: Option<usize>)
    ensures
        match r {
            Some(n) => all_digits(s@) && n == digits_value(s@),
            None => !all_digits(s@) || digits_value(s@) > usize::MAX,
        },
{
    if s.len() == 0 {
        return None;
    }
    let mut n: usize = 0;
    let mut i: usize = 0;
    while i < s.len()
        invariant
            i <= s@.len(),
            forall|j: int| 0 <= j < i ==> '0' <= #[trigger] s@[j] <= '9',
            n == digits_value(s@.subrange(0, i as int)),
        decreases s@.len() - i,
    {
        let c = s[i];
        if c < '0' || c > '9' {
            return None;
        }
        let d = (c as u32 - '0' as u32) as usize;
        assert(s@.subrange(0, i + 1).drop_last() =~= s@.subrange(0, i as int));
        if n > (usize::MAX - d) / 10 {
            proof {
                if all_digits(s@) {
                    lemma_digits_monotone(s@, i + 1);
                }
            }
            return None;
        }
        n = n * 10 + d;
        i = i + 1;
    }
    assert(s@.subrange(0, i as int) =~= s@);
    Some(n)
}

proof fn lemma_digits_monotone(s: Seq<char>, i: int)
    requires
        0 <= i <= s.len(),
        forall|j: int| 0 <= j < s.len() ==> '0' <= #[trigger] s[j] <= '9',
    ensures
        digits_value(s) >= digits_value(s.subrange(0, i)),
    decreases s.len(),
{
    if i < s.len() {
        assert(s.drop_last().subrange(0, i) =~= s.subrange(0, i));
        assert forall|j: int| 0 <= j < s.drop_last().len() implies '0' <= #[trigger] s.drop_last()[j] <= '9' by {
            assert(s.drop_last()[j] == s[j]);
        }
        lemma_digits_monotone(s.drop_last(), i);
        assert('0' <= s[s.len() - 1] <= '9');
    } else {
        assert(s.subrange(0, i) =~= s);
    }
}

/// The handle of the first leaf, from the `k`-th on, whose text holds `key`
/// and which lies on line `line` or later of `src` (counted from 0). Each
/// leaf's text is searched for from the cursor `pos`, where line `cur`
/// starts counting; a leaf found moves the cursor to its start, one not
/// found leaves it.
pub open spec fn best_from(
    src: Seq<char>,
    leaves: Seq<(Seq<char>, usize)>,
    key: Seq<char>,
    line: int,
    k: int,
    pos: int,
    cur: int,
) -> Option<usize>
    decreases leaves.len() - k,
{
    if k < 0 || k >= leaves.len() {
        None
    } else {
        match find_spec(src, pos, leaves[k].0) {
            None => best_from(src, leaves, key, line, k + 1, pos, cur),
            Some(p) => {
                let cur2 = cur + count_char(src.subrange(pos, p), '\n');
                if find_spec(leaves[k].0, 0, key) is Some && cur2 >= line {
                    Some(leaves[k].1)
                } else {
                    best_from(src, leaves, key, line, k + 1, p, cur2)
                }
            },
        }
    }
}

proof fn lemma_count_bound(s: Seq<char>, c: char)
    ensures
        count_char(s, c) <= s.len(),
    decreases s.len(),
{
    if s.len() > 0 {
        lemma_count_bound(s.drop_last(), c);
    }
}

/// Number of line breaks in `s[from..to]`.
fn count_newlines(s: &Vec<char>, from: usize, to: usize) -> (r: usize)
    requires
        from <= to <= s@.len(),
    ensures
        r == count_char(s@.subrange(from as int, to as int), '\n'),
{
    let mut n: usize = 0;
    let mut i: usize = from;
    assert(s@.subrange(from as int, from as int) =~= Seq::<char>::empty());
    while i < to
        invariant
            from <= i <= to <= s@.len(),
            n == count_char(s@.subrange(from as int, i as int), '\n'),
            n <= i - from,
        decreases to - i,
    {
        assert(s@.subrange(from as int, i + 1).drop_last() =~= s@.subrange(from as int, i as int));
        if s[i] == '\n' {
            n = n + 1;
        }
        i = i + 1;
    }
    n
}

/// The handle of the first leaf whose text holds `key` and which lies on line
/// `line` or later of `source`, lines counted from 0 (see `best_from`).
pub fn find_best_line(source: &Vec<char>, leaves: &Vec<Leaf>, key: &Vec<char>, line: usize) -> (r: Option<usize>)
    ensures
        r == best_from(source@, leaves_view(leaves@), key@, line as int, 0, 0, 0),
{
    let ghost lv = leaves_view(leaves@);
    let mut k: usize = 0;
    let mut pos: usize = 0;
    let mut cur: usize = 0;
    while k < leaves.len()
        invariant
            k <= leaves@.len(),
            pos <= source@.len(),
            cur <= pos,
            lv == leaves_view(leaves@),
            best_from(source@, lv, key@, line as int, 0, 0, 0) == best_from(
                source@,
                lv,
                key@,
                line as int,
                k as int,
                pos as int,
                cur as int,
            ),
        decreases leaves@.len() - k,
    {
        let text = chars_of(leaves[k].text.as_str());
        assert(lv[k as int] == (leaves@[k as int].text@, leaves@[k as int].span));
        match find_from(source, pos, &text) {
            None => {},
            Some(p) => {
                proof {
                    lemma_find_spec(source@, pos as int, text@);
                }
                let added = count_newlines(source, pos, p);
                proof {
                    lemma_count_bound(source@.subrange(pos as int, p as int), '\n');
                }
                cur = cur + added;
                pos = p;
                if find_from(&text, 0, key).is_some() && cur >= line {
                    return Some(leaves[k].span);
                }
            },
        }
        k = k + 1;
    }
    None
}

/// Where a diagnostic points: at an embedded token, or at the invocation.
#[derive(Debug, Clone, Copy, PartialEq, Eq, Structural)]
pub enum Location {
    Span(usize),
    CallSite,
}

/// One diagnostic of a failed compilation.
#[derive(Debug, Clone, PartialEq, Eq)]
pub struct Diagnostic {
    pub location: Location,
    pub message: String,
}

/// A list of diagnostics, as (location, message).
pub open spec fn diagnostics_view(v: Seq<Diagnostic>) -> Seq<(Location, Seq<char>)> {
    v.map_values(|d: Diagnostic| (d.location, d.message@))
}

/// The reported line, the offending token and the message of one diagnostic
/// segment `<line>:<column>: '<token>' :<message>`. The message is the whole
/// rest of the segment, colons included, followed by the quoted token.
pub open spec fn segment_parts(seg: Seq<char>) -> Option<(nat, Seq<char>, Seq<char>)> {
    match find_spec(seg, 0, seq![':']) {
        None => None,
        Some(c1) => match find_spec(seg, c1 + 1, seq![':']) {
            None => None,
            Some(c2) => match find_spec(seg, c2 + 1, seq![':']) {
                None => None,
                Some(c3) => {
                    let num = seg.subrange(0, c1);
                    let k = seg.subrange(c2 + 1, c3);
                    let rest = seg.subrange(c3 + 1, seg.len() as int);
                    if !all_digits(num) || digits_value(num) > usize::MAX {
                        None
                    } else if k.len() >= 4 && k.subrange(0, 2) == " '"@ && k.subrange(k.len() - 2, k.len() as int)
                        == "' "@ {
                        Some((digits_value(num), k.subrange(2, k.len() - 2), rest + seq![' '] + k))
                    } else {
                        None
                    }
                },
            },
        },
    }
}

/// The diagnostic for one segment of compiler output.
pub open spec fn diagnostic_for(seg: Seq<char>, source: Seq<char>, leaves: Seq<(Seq<char>, usize)>) -> (
    Location,
    Seq<char>,
) {
    match segment_parts(seg) {
        None => (Location::CallSite, "Error: "@ + seg),
        Some((line, key, msg)) => {
            let target = if line == 0 { 0 } else { line - 1 };
            match best_from(source, leaves, key, target, 0, 0, 0) {
                Some(span) => (Location::Span(span), msg),
                None => (Location::CallSite, seg),
            }
        },
    }
}

/// The diagnostics of compiler output `err` for the unit at `path`: one per
/// segment starting with `<path>:`, located on the embedded tokens where
/// there are any; else the whole output at the invocation.
pub open spec fn remapped(
    err: Seq<char>,
    path: Seq<char>,
    source: Seq<char>,
    leaves: Option<Seq<(Seq<char>, usize)>>,
) -> Seq<(Location, Seq<char>)> {
    let segs = split_from(err, 0, path + seq![':']);
    match leaves {
        None => seq![(Location::CallSite, err)],
        Some(ls) => if segs.len() <= 1 {
            seq![(Location::CallSite, err)]
        } else {
            segs.subrange(1, segs.len() as int).map_values(|seg: Seq<char>| diagnostic_for(seg, source, ls))
        },
    }
}

/// Parses one diagnostic segment into its line, offending token and message.
pub fn parse_segment(seg: &Vec<char>) -> (r: Option<(usize, Vec<char>, Vec<char>)>)
    ensures
        match r {
            Some((line, key, msg)) => segment_parts(seg@) == Some((line as nat, key@, msg@)),
            None => segment_parts(seg@) is None,
        },
{
    let colon = vec![':'];
    assert(colon@ =~= seq![':']);
    let len = seg.len();
    let c1 = match find_from(seg, 0, &colon) {
        None => { return None; },
        Some(c) => c,
    };
    proof {
        lemma_find_spec(seg@, 0, seq![':']);
    }
    let c2 = match find_from(seg, c1 + 1, &colon) {
        None => { return None; },
        Some(c) => c,
    };
    proof {
        lemma_find_spec(seg@, c1 + 1, seq![':']);
    }
    let c3 = match find_from(seg, c2 + 1, &colon) {
        None => { return None; },
        Some(c) => c,
    };
    proof {
        lemma_find_spec(seg@, c2 + 1, seq![':']);
    }
    assert(c3 < len);
    let mut num: Vec<char> = Vec::new();
    push_range(&mut num, seg, 0, c1);
    let line = match parse_number(&num) {
        None => { return None; },
        Some(n) => n,
    };
    let mut k: Vec<char> = Vec::new();
    push_range(&mut k, seg, c2 + 1, c3);
    let n = k.len();
    if n < 4 || k[0] != ' ' || k[1] != '\'' || k[n - 2] != '\'' || k[n - 1] != ' ' {
        proof {
            reveal_strlit(" '");
            reveal_strlit("' ");
            if n >= 4 {
                assert(k@.subrange(0, 2)[0] == k@[0]);
                assert(k@.subrange(0, 2)[1] == k@[1]);
                assert(k@.subrange(n - 2, n as int)[0] == k@[n - 2]);
                assert(k@.subrange(n - 2, n as int)[1] == k@[n - 1]);
            }
        }
        return None;
    }
    proof {
        reveal_strlit(" '");
        reveal_strlit("' ");
        assert(k@.subrange(0, 2) =~= " '"@);
        assert(k@.subrange(n - 2, n as int) =~= "' "@);
    }
    let mut key: Vec<char> = Vec::new();
    push_range(&mut key, &k, 2, n - 2);
    let mut msg: Vec<char> = Vec::new();
    push_range(&mut msg, seg, c3 + 1, len);
    msg.push(' ');
    push_all(&mut msg, &k);
    assert(msg@ =~= seg@.subrange(c3 + 1, len as int) + seq![' '] + k@);
    Some((line, key, msg))
}

/// The diagnostic for one segment of compiler output.
fn diagnose_segment(seg: &Vec<char>, source: &Vec<char>, leaves: &Vec<Leaf>) -> (d: Diagnostic)
    ensures
        (d.location, d.message@) == diagnostic_for(seg@, source@, leaves_view(leaves@)),
{
    match parse_segment(seg) {
        None => {
            let mut m = chars_of("Error: ");
            push_all(&mut m, seg);
            Diagnostic { location: Location::CallSite, message: string_of(&m) }
        },
        Some((line, key, msg)) => {
            let target = if line == 0 { 0 } else { line - 1 };
            match find_best_line(source, leaves, &key, target) {
                Some(span) => Diagnostic { location: Location::Span(span), message: string_of(&msg) },
                None => Diagnostic { location: Location::CallSite, message: string_of(seg) },
            }
        },
    }
}

/// The diagnostics of compiler output `err` for the unit at `path`; `tree`
/// holds the embedded tokens where the source was written inline.
pub fn remap_errors(err: &Vec<char>, path: &Vec<char>, source: &Vec<char>, tree: &Option<TokenNode>) -> (r:
    Vec<Diagnostic>)
    ensures
        diagnostics_view(r@) == remapped(
            err@,
            path@,
            source@,
            match tree {
                Some(t) => Some(tree_leaves(seq![*t])),
                None => None,
            },
        ),
{
    let leaves = match tree {
        Some(t) => Some(flatten_tokens(t)),
        None => None,
    };
    let mut sep = path.clone();
    sep.push(':');
    assert(sep@ =~= path@ + seq![':']);
    let segs = split_on(err, &sep);
    let ghost sv = pieces_view(segs@);
    let mut r: Vec<Diagnostic> = Vec::new();
    match &leaves {
        None => {
            r.push(Diagnostic { location: Location::CallSite, message: string_of(err) });
            assert(diagnostics_view(r@) =~= seq![(Location::CallSite, err@)]);
            r
        },
        Some(ls) => {
            if segs.len() <= 1 {
                r.push(Diagnostic { location: Location::CallSite, message: string_of(err) });
                assert(diagnostics_view(r@) =~= seq![(Location::CallSite, err@)]);
                return r;
            }
            let ghost want = sv.subrange(1, sv.len() as int).map_values(
                |seg: Seq<char>| diagnostic_for(seg, source@, leaves_view(ls@)),
            );
            let mut i: usize = 1;
            while i < segs.len()
                invariant
                    1 <= i <= segs@.len(),
                    sv == pieces_view(segs@),
                    want.len() == sv.len() - 1,
                    want == sv.subrange(1, sv.len() as int).map_values(
                        |seg: Seq<char>| diagnostic_for(seg, source@, leaves_view(ls@)),
                    ),
                    diagnostics_view(r@) == want.subrange(0, i - 1),
                decreases segs@.len() - i,
            {
                let d = diagnose_segment(&segs[i], source, ls);
                let ghost dv = (d.location, d.message@);
                let ghost before = r@;
                r.push(d);
                assert(r@ == before.push(d));
                assert(diagnostics_view(r@) =~= diagnostics_view(before).push(dv));
                assert(sv[i as int] == segs@[i as int]@);
                assert(want[i - 1] == diagnostic_for(sv[i as int], source@, leaves_view(ls@)));
                assert(diagnostics_view(r@) =~= want.subrange(0, i as int));
                i = i + 1;
            }
            assert(want.subrange(0, i - 1) =~= want);
            r
        },
    }
}

proof fn lemma_absent_key_from(
    src: Seq<char>,
    leaves: Seq<(Seq<char>, usize)>,
    key: Seq<char>,
    line: int,
    k: int,
    pos: int,
    cur: int,
)
    requires
        forall|j: int| 0 <= j < leaves.len() ==> find_spec(#[trigger] leaves[j].0, 0, key) is None,
    ensures
        best_from(src, leaves, key, line, k, pos, cur) is None,
    decreases leaves.len() - k,
{
    if 0 <= k < leaves.len() {
        match find_spec(src, pos, leaves[k].0) {
            None => lemma_absent_key_from(src, leaves, key, line, k + 1, pos, cur),
            Some(p) => {
                let cur2 = cur + count_char(src.subrange(pos, p), '\n');
                lemma_absent_key_from(src, leaves, key, line, k + 1, p, cur2);
            },
        }
    }
}

/// A diagnostic whose offending token is held by no embedded token falls
/// back to the invocation's own location, carrying the compiler's text unchanged.
pub proof fn lemma_absent_token_call_site(
    seg: Seq<char>,
    source: Seq<char>,
    leaves: Seq<(Seq<char>, usize)>,
    line: nat,
    key: Seq<char>,
    msg: Seq<char>,
)
    requires
        segment_parts(seg) == Some((line, key, msg)),
        forall|j: int| 0 <= j < leaves.len() ==> find_spec(#[trigger] leaves[j].0, 0, key) is None,
    ensures
        diagnostic_for(seg, source, leaves) == (Location::CallSite, seg),
{
    let target = if line == 0 { 0 } else { line - 1 };
    lemma_absent_key_from(source, leaves, key, target, 0, 0, 0);
}

/// The offending token of segment `seg` is held by no leaf.
pub open spec fn token_absent(seg: Seq<char>, leaves: Seq<(Seq<char>, usize)>) -> bool {
    match segment_parts(seg) {
        Some((_, key, _)) => forall|j: int| 0 <= j < leaves.len() ==> find_spec(#[trigger] leaves[j].0, 0, key) is None,
        None => false,
    }
}

/// Compiler output for inline code gives one diagnostic per segment, none
/// dropped; each segment whose offending token no embedded token holds is
/// placed at the invocation with the compiler's text unchanged.
pub proof fn lemma_remapped_absent_tokens(
    err: Seq<char>,
    path: Seq<char>,
    source: Seq<char>,
    leaves: Seq<(Seq<char>, usize)>,
)
    requires
        split_from(err, 0, path + seq![':']).len() > 1,
    ensures
        ({
            let segs = split_from(err, 0, path + seq![':']);
            let r = remapped(err, path, source, Some(leaves));
            &&& r.len() == segs.len() - 1
            &&& forall|i: int|
                0 <= i < r.len() && token_absent(segs[i + 1], leaves) ==> #[trigger] r[i] == (
                    Location::CallSite,
                    segs[i + 1],
                )
        }),
{
    let segs = split_from(err, 0, path + seq![':']);
    let r = remapped(err, path, source, Some(leaves));
    assert forall|i: int| 0 <= i < r.len() && token_absent(segs[i + 1], leaves) implies #[trigger] r[i] == (
        Location::CallSite,
        segs[i + 1],
    ) by {
        let seg = segs[i + 1];
        assert(segs.subrange(1, segs.len() as int)[i] == seg);
        let (line, key, msg) = segment_parts(seg)->Some_0;
        lemma_absent_token_call_site(seg, source, leaves, line, key, msg);
    }
}

/// `s` with each `"` and `\` escaped by a backslash.
pub open spec fn escaped(s: Seq<char>) -> Seq<char>
    decreases s.len(),
{
    if s.len() == 0 {
        Seq::empty()
    } else {
        escaped(s.drop_last()) + if s.last() == '"' || s.last() == '\\' {
            seq!['\\', s.last()]
        } else {
            seq![s.last()]
        }
    }
}

/// The expression that a failed compilation expands to: a panic carrying
/// the compiler output, so that a broken shader cannot go unnoticed.
pub open spec fn failure(err: Seq<char>) -> Seq<char> {
    "panic!(\""@ + escaped(err) + "\")"@
}

/// The failing expression for compiler output `err`.
pub fn failure_text(err: &Vec<char>) -> (r: String)
    ensures
        r@ == failure(err@),
{
    let mut out = chars_of("panic!(\"");
    let ghost head = out@;
    let mut i: usize = 0;
    assert(err@.subrange(0, 0) =~= Seq::<char>::empty());
    while i < err.len()
        invariant
            i <= err@.len(),
            head == "panic!(\""@,
            out@ == head + escaped(err@.subrange(0, i as int)),
        decreases err@.len() - i,
    {
        let c = err[i];
        if c == '"' || c == '\\' {
            out.push('\\');
        }
        out.push(c);
        assert(err@.subrange(0, i + 1).drop_last() =~= err@.subrange(0, i as int));
        assert(out@ =~= head + escaped(err@.subrange(0, i + 1)));
        i = i + 1;
    }
    assert(err@.subrange(0, i as int) =~= err@);
    push_all(&mut out, &chars_of("\")"));
    assert(out@ =~= failure(err@));
    string_of(&out)
}

} // verus!
