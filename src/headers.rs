//! Header blocks: `key:value` lines separated by CR LF, kept in wire order.

use vstd::prelude::*;
use vstd::slice::{slice_subrange, slice_to_vec};

verus! {

/// True when a CR LF pair starts at `i`.
pub open spec fn crlf_at(s: Seq<u8>, i: int) -> bool {
    0 <= i && i + 1 < s.len() && s[i] == 13u8 && s[i + 1] == 10u8
}

/// Index of the first CR LF at or after `i`, or the length of `s` when there is none.
pub open spec fn next_crlf(s: Seq<u8>, i: int) -> int
    decreases s.len() - i,
{
    if i + 1 >= s.len() {
        s.len() as int
    } else if crlf_at(s, i) {
        i
    } else {
        next_crlf(s, i + 1)
    }
}

/// Index of the first `:` at or after `i`, or the length of `s` when there is none.
pub open spec fn next_colon(s: Seq<u8>, i: int) -> int
    decreases s.len() - i,
{
    if i >= s.len() {
        s.len() as int
    } else if 0 <= i && s[i] == 58u8 {
        i
    } else {
        next_colon(s, i + 1)
    }
}

/// One header line split at its first colon; a line without a colon is a key
/// with an empty value.
pub open spec fn pair_of(line: Seq<u8>) -> (Seq<u8>, Seq<u8>) {
    let c = next_colon(line, 0);
    if c < line.len() {
        (line.subrange(0, c), line.subrange(c + 1, line.len() as int))
    } else {
        (line, Seq::empty())
    }
}

/// The pairs of the lines of `s` from index `i` on, empty lines left out.
pub open spec fn header_pairs_from(s: Seq<u8>, i: int) -> Seq<(Seq<u8>, Seq<u8>)>
    decreases s.len() - i,
    via header_pairs_decreases
{
    if i < 0 || i >= s.len() {
        Seq::empty()
    } else {
        let e = next_crlf(s, i);
        let line = s.subrange(i, e);
        let rest = if e < s.len() {
            header_pairs_from(s, e + 2)
        } else {
            Seq::empty()
        };
        if line.len() == 0 {
            rest
        } else {
            seq![pair_of(line)] + rest
        }
    }
}

#[via_fn]
proof fn header_pairs_decreases(s: Seq<u8>, i: int) {
    if 0 <= i < s.len() {
        lemma_next_crlf_bounds(s, i);
    }
}

/// The header block `s` as an ordered sequence of key/value pairs.
pub open spec fn header_pairs(s: Seq<u8>) -> Seq<(Seq<u8>, Seq<u8>)> {
    header_pairs_from(s, 0)
}

/// True when some pair of `h` has key `k` and value `v`.
pub open spec fn has_pair(h: Seq<(Seq<u8>, Seq<u8>)>, k: Seq<u8>, v: Seq<u8>) -> bool {
    exists|i: int| 0 <= i < h.len() && h[i] == (k, v)
}

pub proof fn lemma_next_crlf_bounds(s: Seq<u8>, i: int)
    requires
        0 <= i <= s.len(),
    ensures
        i <= next_crlf(s, i) <= s.len(),
        next_crlf(s, i) < s.len() ==> crlf_at(s, next_crlf(s, i)),
    decreases s.len() - i,
{
    if i + 1 < s.len() && !crlf_at(s, i) {
        lemma_next_crlf_bounds(s, i + 1);
    }
}

pub proof fn lemma_next_colon_bounds(s: Seq<u8>, i: int)
    requires
        0 <= i <= s.len(),
    ensures
        i <= next_colon(s, i) <= s.len(),
    decreases s.len() - i,
{
    if i < s.len() && s[i] != 58u8 {
        lemma_next_colon_bounds(s, i + 1);
    }
}

pub proof fn lemma_bytes_deep_view(v: &Vec<u8>)
    ensures
        v.deep_view() == v@,
{
    assert(v.deep_view() =~= v@);
}

/// Position of the first CR LF in `s` at or after `i`.
fn find_crlf(s: &[u8], i: usize) -> (r: usize)
    requires
        i <= s@.len(),
    ensures
        r == next_crlf(s@, i as int),
{
    let mut j: usize = i;
    while s.len() > 0 && j < s.len() - 1
        invariant
            i <= j <= s@.len(),
            next_crlf(s@, j as int) == next_crlf(s@, i as int),
        decreases s@.len() - j,
    {
        if s[j] == 13u8 && s[j + 1] == 10u8 {
            return j;
        }
        j = j + 1;
    }
    s.len()
}

/// Position of the first colon in `s` at or after `i`.
fn find_colon(s: &[u8], i: usize) -> (r: usize)
    requires
        i <= s@.len(),
    ensures
        r == next_colon(s@, i as int),
{
    let mut j: usize = i;
    while j < s.len()
        invariant
            i <= j <= s@.len(),
            next_colon(s@, j as int) == next_colon(s@, i as int),
        decreases s@.len() - j,
    {
        if s[j] == 58u8 {
            return j;
        }
        j = j + 1;
    }
    s.len()
}

/// Splits one header line at its first colon.
fn split_pair(line: &[u8]) -> (r: (Vec<u8>, Vec<u8>))
    ensures
        r.deep_view() == pair_of(line@),
{
    let c = find_colon(line, 0);
    proof {
        lemma_next_colon_bounds(line@, 0);
    }
    if c < line.len() {
        let k = slice_to_vec(slice_subrange(line, 0, c));
        let v = slice_to_vec(slice_subrange(line, c + 1, line.len()));
        proof {
            lemma_bytes_deep_view(&k);
            lemma_bytes_deep_view(&v);
        }
        (k, v)
    } else {
        let k = slice_to_vec(line);
        let v: Vec<u8> = Vec::new();
        proof {
            lemma_bytes_deep_view(&k);
            lemma_bytes_deep_view(&v);
        }
        (k, v)
    }
}

/// Parses a header block into its key/value pairs, in order, duplicates kept.
pub fn parse_headers(s: &[u8]) -> (r: Vec<(Vec<u8>, Vec<u8>)>)
    ensures
        r.deep_view() == header_pairs(s@),
{
    let mut out: Vec<(Vec<u8>, Vec<u8>)> = Vec::new();
    let mut i: usize = 0;
    assert(out.deep_view() =~= Seq::<(Seq<u8>, Seq<u8>)>::empty());
    while i < s.len()
        invariant
            i <= s@.len(),
            out.deep_view() + header_pairs_from(s@, i as int) == header_pairs(s@),
        decreases s@.len() - i,
    {
        let e = find_crlf(s, i);
        proof {
            lemma_next_crlf_bounds(s@, i as int);
        }
        let ghost before = out.deep_view();
        let ghost rest = if e < s.len() {
            header_pairs_from(s@, e + 2)
        } else {
            Seq::empty()
        };
        if e > i {
            let pair = split_pair(slice_subrange(s, i, e));
            out.push(pair);
            assert(out.deep_view() =~= before.push(pair_of(s@.subrange(i as int, e as int))));
            assert(before + (seq![pair_of(s@.subrange(i as int, e as int))] + rest)
                =~= out.deep_view() + rest);
        }
        if e < s.len() {
            i = e + 2;
        } else {
            i = s.len();
        }
    }
    assert(out.deep_view() + Seq::empty() =~= out.deep_view());
    out
}

/// True when `a` and `b` hold the same bytes.
pub fn bytes_eq(a: &[u8], b: &[u8]) -> (r: bool)
    ensures
        r == (a@ == b@),
{
    if a.len() != b.len() {
        return false;
    }
    let mut i: usize = 0;
    while i < a.len()
        invariant
            a@.len() == b@.len(),
            i <= a@.len(),
            forall|j: int| 0 <= j < i ==> a@[j] == b@[j],
        decreases a@.len() - i,
    {
        if a[i] != b[i] {
            return false;
        }
        i = i + 1;
    }
    assert(a@ =~= b@);
    true
}

/// True when some header of `h` has key `k` and value `v`; which one does not matter.
pub fn has_header(h: &Vec<(Vec<u8>, Vec<u8>)>, k: &[u8], v: &[u8]) -> (r: bool)
    ensures
        r == has_pair(h.deep_view(), k@, v@),
{
    let mut i: usize = 0;
    while i < h.len()
        invariant
            i <= h@.len(),
            forall|j: int| 0 <= j < i ==> h.deep_view()[j] != (k@, v@),
        decreases h@.len() - i,
    {
        let (hk, hv) = &h[i];
        proof {
            lemma_bytes_deep_view(hk);
            lemma_bytes_deep_view(hv);
            assert(h.deep_view()[i as int] == (hk@, hv@));
        }
        if bytes_eq(hk.as_slice(), k) && bytes_eq(hv.as_slice(), v) {
            return true;
        }
        i = i + 1;
    }
    false
}

} // verus!
