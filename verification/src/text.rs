//! Byte-text helpers: indentation of the line an offset lies on.

use vstd::prelude::*;

verus! {

/// A horizontal whitespace byte: space or tab.
pub open spec fn is_indent_byte(b: u8) -> bool {
    b == 32 || b == 9
}

/// The index of the last line break strictly before `pos`, or `-1`.
pub open spec fn last_newline_before(s: Seq<u8>, pos: int) -> int
    decreases pos,
{
    if pos <= 0 {
        -1
    } else if s[pos - 1] == 10 {
        pos - 1
    } else {
        last_newline_before(s, pos - 1)
    }
}

/// The end of the run of indentation bytes starting at `j`.
pub open spec fn indent_run_end(s: Seq<u8>, j: int) -> int
    decreases s.len() - j,
{
    if j < 0 || j >= s.len() || !is_indent_byte(s[j]) {
        j
    } else {
        indent_run_end(s, j + 1)
    }
}

/// The indentation of the line that the offset `pos` of `s` lies on: the
/// run of spaces and tabs that opens that line.
pub open spec fn line_indent_at(s: Seq<u8>, pos: int) -> Seq<u8> {
    let l = last_newline_before(s, pos);
    s.subrange(l + 1, indent_run_end(s, l + 1))
}

proof fn lemma_indent_run_bounds(s: Seq<u8>, j: int)
    requires
        0 <= j <= s.len(),
    ensures
        j <= indent_run_end(s, j) <= s.len(),
    decreases s.len() - j,
{
    if j < s.len() && is_indent_byte(s[j]) {
        lemma_indent_run_bounds(s, j + 1);
    }
}

proof fn lemma_last_newline_bounds(s: Seq<u8>, pos: int)
    requires
        0 <= pos <= s.len(),
    ensures
        -1 <= last_newline_before(s, pos) < pos,
    decreases pos,
{
    if pos > 0 && s[pos - 1] != 10 {
        lemma_last_newline_bounds(s, pos - 1);
    }
}

/// The indentation of the line that offset `pos` of `v` lies on.
pub fn line_indent(v: &Vec<u8>, pos: usize) -> (r: Vec<u8>)
    requires
        pos <= v@.len(),
    ensures
        r@ == line_indent_at(v@, pos as int),
{
    let ghost s = v@;
    let mut l: usize = pos;
    while l > 0 && v[l - 1] != 10
        invariant
            l <= pos <= s.len(),
            s == v@,
            last_newline_before(s, pos as int) == last_newline_before(s, l as int),
        decreases l,
    {
        l = l - 1;
    }
    proof {
        lemma_last_newline_bounds(s, pos as int);
        assert(last_newline_before(s, l as int) == l - 1);
    }
    let mut e: usize = l;
    while e < v.len() && (v[e] == 32 || v[e] == 9)
        invariant
            l <= e <= s.len(),
            s == v@,
            indent_run_end(s, l as int) == indent_run_end(s, e as int),
        decreases s.len() - e,
    {
        e = e + 1;
    }
    proof {
        assert(indent_run_end(s, e as int) == e);
        lemma_indent_run_bounds(s, l as int);
    }
    let mut out: Vec<u8> = Vec::new();
    for j in l..e
        invariant
            l <= j <= e <= s.len(),
            s == v@,
            out@ == s.subrange(l as int, j as int),
    {
        out.push(v[j]);
        proof {
            assert(out@ =~= s.subrange(l as int, j + 1));
        }
    }
    proof {
        assert(out@ =~= line_indent_at(s, pos as int));
    }
    out
}

/// True exactly when `v` holds the byte `b`.
pub fn bytes_contains(v: &Vec<u8>, b: u8) -> (r: bool)
    ensures
        r == v@.contains(b),
{
    let n = v.len();
    for i in 0..n
        invariant
            n == v@.len(),
            forall|j: int| 0 <= j < i ==> v@[j] != b,
    {
        if v[i] == b {
            proof {
                assert(v@[i as int] == b);
            }
            return true;
        }
    }
    false
}

/// Append all of `src` to `out`.
pub fn push_bytes(out: &mut Vec<u8>, src: &Vec<u8>)
    ensures
        final(out)@ == old(out)@ + src@,
{
    let n = src.len();
    for i in 0..n
        invariant
            n == src@.len(),
            out@ == old(out)@ + src@.subrange(0, i as int),
    {
        out.push(src[i]);
        proof {
            assert(out@ =~= old(out)@ + src@.subrange(0, i + 1));
        }
    }
    proof {
        assert(out@ =~= old(out)@ + src@);
    }
}

} // verus!
