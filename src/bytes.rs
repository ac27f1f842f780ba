use vstd::prelude::*;

verus! {

/// ASCII whitespace as `char::is_whitespace` sees it: tab, line feed,
/// vertical tab, form feed, carriage return and space.
pub open spec fn is_ws(b: u8) -> bool {
    b == 9u8 || b == 10u8 || b == 11u8 || b == 12u8 || b == 13u8 || b == 32u8
}

/// First index in `[i, end)` that is not whitespace, or `end`.
pub open spec fn skip_ws(s: Seq<u8>, i: int, end: int) -> int
    decreases end - i,
{
    if i < end && is_ws(s[i]) {
        skip_ws(s, i + 1, end)
    } else {
        i
    }
}

/// First index in `[i, end)` that is whitespace, or `end`.
pub open spec fn token_end(s: Seq<u8>, i: int, end: int) -> int
    decreases end - i,
{
    if i < end && !is_ws(s[i]) {
        token_end(s, i + 1, end)
    } else {
        i
    }
}

/// `end` moved left past trailing whitespace, not below `start`.
pub open spec fn trim_end(s: Seq<u8>, start: int, end: int) -> int
    decreases end - start,
{
    if start < end && is_ws(s[end - 1]) {
        trim_end(s, start, end - 1)
    } else {
        end
    }
}

/// The index just past the first line feed in `[i, end)`, or `end`.
pub open spec fn line_end(s: Seq<u8>, i: int, end: int) -> int
    decreases end - i,
{
    if i >= end {
        end
    } else if s[i] == 10u8 {
        i + 1
    } else {
        line_end(s, i + 1, end)
    }
}

pub fn skip_ws_exec(s: &[u8], i: usize, end: usize) -> (r: usize)
    requires
        i <= end <= s@.len(),
    ensures
        r == skip_ws(s@, i as int, end as int),
        i <= r <= end,
{
    let mut j: usize = i;
    while j < end && is_ws_exec(s[j])
        invariant
            i <= j <= end <= s@.len(),
            skip_ws(s@, j as int, end as int) == skip_ws(s@, i as int, end as int),
        decreases end - j,
    {
        j = j + 1;
    }
    j
}

pub fn token_end_exec(s: &[u8], i: usize, end: usize) -> (r: usize)
    requires
        i <= end <= s@.len(),
    ensures
        r == token_end(s@, i as int, end as int),
        i <= r <= end,
{
    let mut j: usize = i;
    while j < end && !is_ws_exec(s[j])
        invariant
            i <= j <= end <= s@.len(),
            token_end(s@, j as int, end as int) == token_end(s@, i as int, end as int),
        decreases end - j,
    {
        j = j + 1;
    }
    j
}

pub fn trim_end_exec(s: &[u8], start: usize, end: usize) -> (r: usize)
    requires
        start <= end <= s@.len(),
    ensures
        r == trim_end(s@, start as int, end as int),
        start <= r <= end,
{
    let mut j: usize = end;
    while start < j && is_ws_exec(s[j - 1])
        invariant
            start <= j <= end <= s@.len(),
            trim_end(s@, start as int, j as int) == trim_end(s@, start as int, end as int),
        decreases j - start,
    {
        j = j - 1;
    }
    j
}

pub fn line_end_exec(s: &[u8], i: usize, end: usize) -> (r: usize)
    requires
        i <= end <= s@.len(),
    ensures
        r == line_end(s@, i as int, end as int),
        i <= r <= end,
        i < end ==> i < r,
{
    let mut j: usize = i;
    while j < end && s[j] != 10u8
        invariant
            i <= j <= end <= s@.len(),
            line_end(s@, j as int, end as int) == line_end(s@, i as int, end as int),
        decreases end - j,
    {
        j = j + 1;
    }
    if j < end {
        j + 1
    } else {
        j
    }
}

pub fn is_ws_exec(b: u8) -> (r: bool)
    ensures
        r == is_ws(b),
{
    b == 9u8 || b == 10u8 || b == 11u8 || b == 12u8 || b == 13u8 || b == 32u8
}

/// Appends `src` to `out`.
pub fn push_all(out: &mut Vec<u8>, src: &[u8])
    ensures
        final(out)@ == old(out)@ + src@,
{
    let ghost start = out@;
    let mut i: usize = 0;
    while i < src.len()
        invariant
            i <= src@.len(),
            out@ == start + src@.subrange(0, i as int),
        decreases src@.len() - i,
    {
        out.push(src[i]);
        i = i + 1;
        assert(out@ =~= start + src@.subrange(0, i as int));
    }
    assert(src@.subrange(0, i as int) =~= src@);
}

} // verus!
