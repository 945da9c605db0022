//! Text primitives over character sequences.

use vstd::prelude::*;

verus! {

/// `pat` occurs in `s` starting at index `i`.
pub open spec fn occurs_at(s: Seq<char>, i: int, pat: Seq<char>) -> bool {
    0 <= i && i + pat.len() <= s.len() && s.subrange(i, i + pat.len()) == pat
}

/// Change of brace depth caused by one character.
pub open spec fn brace_delta(c: char) -> int {
    if c == '{' {
        1
    } else if c == '}' {
        -1
    } else {
        0
    }
}

/// Brace depth after reading `s[start..k]`, counting from depth 1
/// (just inside an opening brace).
pub open spec fn depth_after(s: Seq<char>, start: int, k: int) -> int
    decreases k - start,
{
    if k <= start {
        1
    } else {
        depth_after(s, start, k - 1) + brace_delta(s[k - 1])
    }
}

/// `k` is the index of the brace that closes the region opened just before `start`.
pub open spec fn closes_at(s: Seq<char>, start: int, k: int) -> bool {
    &&& start <= k < s.len()
    &&& depth_after(s, start, k + 1) == 0
    &&& forall|j: int| start < j <= k ==> #[trigger] depth_after(s, start, j) > 0
}

/// Facts about the first occurrence found by `find_spec`.
pub proof fn lemma_find_spec(s: Seq<char>, from: int, pat: Seq<char>)
    requires
        from >= 0,
    ensures
        match find_spec(s, from, pat) {
            Some(k) => from <= k && occurs_at(s, k, pat) && forall|j: int|
                from <= j < k ==> !occurs_at(s, j, pat),
            None => forall|j: int| from <= j ==> !occurs_at(s, j, pat),
        },
    decreases s.len() + 1 - from,
{
    if from > s.len() {
    } else if occurs_at(s, from, pat) {
    } else {
        lemma_find_spec(s, from + 1, pat);
    }
}

/// The first index at or after `from` where `pat` occurs in `s`.
pub open spec fn find_spec(s: Seq<char>, from: int, pat: Seq<char>) -> Option<int>
    decreases s.len() + 1 - from,
{
    if from < 0 || from > s.len() {
        None
    } else if occurs_at(s, from, pat) {
        Some(from)
    } else {
        find_spec(s, from + 1, pat)
    }
}

/// The first `k >= i` where the brace depth counted from `start` drops to 0.
pub open spec fn closing_from(s: Seq<char>, start: int, i: int) -> Option<int>
    decreases s.len() - i,
{
    if i < start || i >= s.len() {
        None
    } else if depth_after(s, start, i + 1) == 0 {
        Some(i)
    } else {
        closing_from(s, start, i + 1)
    }
}

/// Number of occurrences of `c` in `s`.
pub open spec fn count_char(s: Seq<char>, c: char) -> nat
    decreases s.len(),
{
    if s.len() == 0 {
        0
    } else {
        count_char(s.drop_last(), c) + if s.last() == c { 1nat } else { 0nat }
    }
}

/// Whether `pat` occurs in `s` at index `i`.
pub fn occurs_at_exec(s: &Vec<char>, i: usize, pat: &Vec<char>) -> (r: bool)
    ensures
        r == occurs_at(s@, i as int, pat@),
{
    if i > s.len() || pat.len() > s.len() - i {
        return false;
    }
    let mut k: usize = 0;
    while k < pat.len()
        invariant
            i + pat@.len() <= s@.len(),
            k <= pat@.len(),
            i <= s@.len(),
            s@.len() <= usize::MAX,
            forall|j: int| 0 <= j < k ==> s@[i + j] == pat@[j],
        decreases pat@.len() - k,
    {
        if s[i + k] != pat[k] {
            assert(s@.subrange(i as int, i + pat@.len())[k as int] != pat@[k as int]);
            return false;
        }
        k = k + 1;
    }
    assert(s@.subrange(i as int, i + pat@.len()) =~= pat@);
    true
}

/// Whether two character sequences are equal.
pub fn same_chars(a: &Vec<char>, b: &Vec<char>) -> (r: bool)
    ensures
        r == (a@ == b@),
{
    if a.len() != b.len() {
        return false;
    }
    let r = occurs_at_exec(a, 0, b);
    assert(a@ =~= a@.subrange(0, b@.len() as int));
    r
}

/// The first index at or after `from` where `pat` occurs in `s`.
pub fn find_from(s: &Vec<char>, from: usize, pat: &Vec<char>) -> (r: Option<usize>)
    ensures
        match r {
            Some(k) => from <= k && occurs_at(s@, k as int, pat@) && forall|j: int|
                from <= j < k ==> !occurs_at(s@, j, pat@),
            None => forall|j: int| from <= j ==> !occurs_at(s@, j, pat@),
        },
        r is Some ==> find_spec(s@, from as int, pat@) == Some(r->0 as int),
        r is None ==> find_spec(s@, from as int, pat@) is None,
{
    let mut i: usize = from;
    if i > s.len() {
        return None;
    }
    while i < s.len()
        invariant
            from <= i <= s@.len(),
            forall|j: int| from <= j < i ==> !occurs_at(s@, j, pat@),
            find_spec(s@, from as int, pat@) == find_spec(s@, i as int, pat@),
        decreases s@.len() - i,
    {
        if occurs_at_exec(s, i, pat) {
            return Some(i);
        }
        i = i + 1;
    }
    if occurs_at_exec(s, i, pat) {
        return Some(i);
    }
    assert forall|j: int| from <= j implies !occurs_at(s@, j, pat@) by {
        if j > i && occurs_at(s@, j, pat@) {
            assert(j + pat@.len() <= s@.len());
        }
    }
    assert(find_spec(s@, i + 1, pat@) == None::<int>);
    None
}

/// The index of the brace that closes the region opened just before `start`:
/// the depth starts at 1 and the region ends where it first drops to 0.
pub fn find_closing_bracket(content: &Vec<char>, start: usize) -> (r: Option<usize>)
    ensures
        match r {
            Some(k) => closes_at(content@, start as int, k as int),
            None => forall|j: int|
                start < j <= content@.len() ==> #[trigger] depth_after(content@, start as int, j) > 0,
        },
        r is Some ==> closing_from(content@, start as int, start as int) == Some(r->0 as int),
        r is None ==> closing_from(content@, start as int, start as int) is None,
{
    // braces opened after `start` and not yet closed: the depth minus one
    let mut inner: usize = 0;
    let mut i: usize = start;
    if i >= content.len() {
        return None;
    }
    while i < content.len()
        invariant
            start <= i <= content@.len(),
            inner as int + 1 == depth_after(content@, start as int, i as int),
            inner <= i - start,
            forall|j: int| start < j <= i ==> #[trigger] depth_after(content@, start as int, j) > 0,
            closing_from(content@, start as int, start as int) == closing_from(content@, start as int, i as int),
        decreases content@.len() - i,
    {
        let c = content[i];
        assert(depth_after(content@, start as int, i + 1) == depth_after(content@, start as int, i as int) + brace_delta(content@[i as int]));
        if c == '{' {
            inner = inner + 1;
        } else if c == '}' {
            if inner == 0 {
                return Some(i);
            }
            inner = inner - 1;
        }
        i = i + 1;
    }
    None
}

/// The characters of a string slice.
pub fn chars_of(s: &str) -> (r: Vec<char>)
    ensures
        r@ == s@,
{
    let n = s.unicode_len();
    let mut r: Vec<char> = Vec::new();
    let mut i: usize = 0;
    while i < n
        invariant
            n == s@.len(),
            i <= n,
            r@ == s@.subrange(0, i as int),
        decreases n - i,
    {
        r.push(s.get_char(i));
        i = i + 1;
        assert(r@ =~= s@.subrange(0, i as int));
    }
    assert(s@.subrange(0, i as int) =~= s@);
    r
}

/// A string holding the given characters.
/// Relies on `String`'s `FromIterator<&char>`: every character, in order.
#[verifier::external_body]
pub(crate) fn string_of(v: &Vec<char>) -> (r: String)
    ensures
        r@ == v@,
{
    v.iter().collect()
}

/// The decimal digit for `d < 10`.
pub open spec fn digit_char(d: nat) -> char {
    if d == 0 { '0' } else if d == 1 { '1' } else if d == 2 { '2' } else if d == 3 { '3' }
    else if d == 4 { '4' } else if d == 5 { '5' } else if d == 6 { '6' } else if d == 7 { '7' }
    else if d == 8 { '8' } else { '9' }
}

/// Decimal rendering of a natural number, without leading zeros.
pub open spec fn decimal(n: nat) -> Seq<char>
    decreases n,
{
    if n < 10 {
        seq![digit_char(n)]
    } else {
        decimal(n / 10).push(digit_char(n % 10))
    }
}

fn digit_exec(d: usize) -> (c: char)
    requires
        d < 10,
    ensures
        c == digit_char(d as nat),
{
    if d == 0 { '0' } else if d == 1 { '1' } else if d == 2 { '2' } else if d == 3 { '3' }
    else if d == 4 { '4' } else if d == 5 { '5' } else if d == 6 { '6' } else if d == 7 { '7' }
    else if d == 8 { '8' } else { '9' }
}

/// Appends the decimal rendering of `n`.
pub fn push_decimal(out: &mut Vec<char>, n: usize)
    ensures
        final(out)@ == old(out)@ + decimal(n as nat),
    decreases n,
{
    if n >= 10 {
        push_decimal(out, n / 10);
    }
    out.push(digit_exec(n % 10));
    assert(final(out)@ =~= old(out)@ + decimal(n as nat));
}

/// Appends every character of `v`.
pub fn push_all(out: &mut Vec<char>, v: &Vec<char>)
    ensures
        final(out)@ == old(out)@ + v@,
{
    let mut i: usize = 0;
    while i < v.len()
        invariant
            i <= v@.len(),
            out@ == old(out)@ + v@.subrange(0, i as int),
        decreases v@.len() - i,
    {
        out.push(v[i]);
        i = i + 1;
        assert(out@ =~= old(out)@ + v@.subrange(0, i as int));
    }
    assert(v@.subrange(0, i as int) =~= v@);
}

/// Appends the characters of `s[from..to]`.
pub fn push_range(out: &mut Vec<char>, s: &Vec<char>, from: usize, to: usize)
    requires
        from <= to <= s@.len(),
    ensures
        final(out)@ == old(out)@ + s@.subrange(from as int, to as int),
{
    let mut i: usize = from;
    while i < to
        invariant
            from <= i <= to <= s@.len(),
            out@ == old(out)@ + s@.subrange(from as int, i as int),
        decreases to - i,
    {
        out.push(s[i]);
        i = i + 1;
        assert(out@ =~= old(out)@ + s@.subrange(from as int, i as int));
    }
}

} // verus!
