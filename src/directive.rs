//! Scanning C preprocessor text for the file names its inclusion directives
//! reference.
//!
//! The grammar of one directive, on bytes: the eight bytes `#`, `i`, `n`,
//! `c`, `l`, `u`, `d`, `e`; one or more ASCII spaces (space, tab, line feed,
//! vertical tab, form feed, carriage return); an opening `"` or `<`; one or
//! more bytes that are neither `"` nor `>`, which form the referenced name;
//! and a closing `"` or `>`. Directives are found left to right, and the
//! search goes on after the end of each one found.
use vstd::prelude::*;

verus! {

/// The directive keyword, `#` followed by the word, as bytes.
pub open spec fn keyword() -> Seq<u8> {
    seq![35u8, 105u8, 110u8, 99u8, 108u8, 117u8, 100u8, 101u8]
}

pub open spec fn is_space(b: u8) -> bool {
    b == 32 || (9 <= b && b <= 13)
}

pub open spec fn is_opener(b: u8) -> bool {
    b == 34 || b == 60
}

pub open spec fn is_closer(b: u8) -> bool {
    b == 34 || b == 62
}

/// The end of the run of spaces that starts at `j`.
pub open spec fn space_end(t: Seq<u8>, j: int) -> int
    decreases t.len() - j,
{
    if 0 <= j < t.len() && is_space(t[j]) {
        space_end(t, j + 1)
    } else {
        j
    }
}

/// The end of the run of name bytes that starts at `j`.
pub open spec fn name_end(t: Seq<u8>, j: int) -> int
    decreases t.len() - j,
{
    if 0 <= j < t.len() && !is_closer(t[j]) {
        name_end(t, j + 1)
    } else {
        j
    }
}

/// The keyword stands at `i`.
pub open spec fn keyword_at(t: Seq<u8>, i: int) -> bool {
    0 <= i && i + 8 <= t.len() && t.subrange(i, i + 8) == keyword()
}

/// A directive starts at `i`: its opener is at `o` and its closer at `c`.
pub open spec fn directive_at(t: Seq<u8>, i: int, o: int, c: int) -> bool {
    &&& keyword_at(t, i)
    &&& o == space_end(t, i + 8)
    &&& o > i + 8 && o < t.len() && is_opener(t[o])
    &&& c == name_end(t, o + 1)
    &&& c > o + 1 && c < t.len() && is_closer(t[c])
}

/// The names referenced by the directives found from position `i` on.
pub open spec fn referenced_from(t: Seq<u8>, i: int) -> Seq<Seq<u8>>
    decreases t.len() - i,
{
    if i < 0 || i >= t.len() {
        seq![]
    } else {
        let o = space_end(t, i + 8);
        let c = name_end(t, o + 1);
        if directive_at(t, i, o, c) {
            seq![t.subrange(o + 1, c)] + referenced_from(t, c + 1)
        } else {
            referenced_from(t, i + 1)
        }
    }
}

/// The names referenced by the directives of a text.
pub open spec fn referenced_names(t: Seq<u8>) -> Seq<Seq<u8>> {
    referenced_from(t, 0)
}

fn skip_spaces(t: &[u8], j: usize) -> (r: usize)
    requires
        j <= t@.len(),
    ensures
        r == space_end(t@, j as int),
        j <= r <= t@.len(),
{
    let mut k = j;
    while k < t.len() && (t[k] == 32 || (9 <= t[k] && t[k] <= 13))
        invariant
            j <= k <= t@.len(),
            space_end(t@, k as int) == space_end(t@, j as int),
        decreases t@.len() - k,
    {
        k += 1;
    }
    k
}

fn skip_name(t: &[u8], j: usize) -> (r: usize)
    requires
        j <= t@.len(),
    ensures
        r == name_end(t@, j as int),
        j <= r <= t@.len(),
{
    let mut k = j;
    while k < t.len() && !(t[k] == 34 || t[k] == 62)
        invariant
            j <= k <= t@.len(),
            name_end(t@, k as int) == name_end(t@, j as int),
        decreases t@.len() - k,
    {
        k += 1;
    }
    k
}

fn keyword_at_exec(t: &[u8], i: usize) -> (r: bool)
    requires
        i < t@.len(),
    ensures
        r == keyword_at(t@, i as int),
{
    if t.len() - i < 8 {
        return false;
    }
    let r = t[i] == 35 && t[i + 1] == 105 && t[i + 2] == 110 && t[i + 3] == 99 && t[i + 4] == 108
        && t[i + 5] == 117 && t[i + 6] == 100 && t[i + 7] == 101;
    proof {
        let s = t@.subrange(i as int, i + 8);
        if r {
            assert(s =~= keyword());
        } else if s == keyword() {
            assert(s[0] == 35u8 && s[1] == 105u8 && s[2] == 110u8 && s[3] == 99u8);
            assert(s[4] == 108u8 && s[5] == 117u8 && s[6] == 100u8 && s[7] == 101u8);
        }
    }
    r
}

fn copy_range(t: &[u8], lo: usize, hi: usize) -> (r: Vec<u8>)
    requires
        lo <= hi <= t@.len(),
    ensures
        r@ == t@.subrange(lo as int, hi as int),
{
    let mut r: Vec<u8> = Vec::new();
    for k in lo..hi
        invariant
            lo <= hi <= t@.len(),
            r@ == t@.subrange(lo as int, k as int),
    {
        r.push(t[k]);
    }
    r
}

/// The names that the inclusion directives of `text` reference, in the
/// order they appear.
pub fn scan_referenced_names(text: &[u8]) -> (r: Vec<Vec<u8>>)
    ensures
        r@.map_values(|v: Vec<u8>| v@) == referenced_names(text@),
{
    let mut out: Vec<Vec<u8>> = Vec::new();
    let mut i: usize = 0;
    while i < text.len()
        invariant
            i <= text@.len(),
            out@.map_values(|v: Vec<u8>| v@) + referenced_from(text@, i as int) == referenced_names(text@),
        decreases text@.len() - i,
    {
        let ghost out0 = out@.map_values(|v: Vec<u8>| v@);
        let mut found = false;
        if keyword_at_exec(text, i) {
            let o = skip_spaces(text, i + 8);
            if o > i + 8 && o < text.len() && (text[o] == 34 || text[o] == 60) {
                let c = skip_name(text, o + 1);
                if c > o + 1 && c < text.len() && (text[c] == 34 || text[c] == 62) {
                    let name = copy_range(text, o + 1, c);
                    out.push(name);
                    proof {
                        assert(directive_at(text@, i as int, o as int, c as int));
                        assert(out@.map_values(|v: Vec<u8>| v@) =~= out0.push(text@.subrange(o + 1, c as int)));
                        assert(out0 + referenced_from(text@, i as int) =~= out@.map_values(|v: Vec<u8>| v@)
                            + referenced_from(text@, c + 1));
                    }
                    i = c + 1;
                    found = true;
                }
            }
        }
        if !found {
            i += 1;
        }
    }
    out
}

} // verus!
