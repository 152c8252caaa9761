use vstd::prelude::*;
use vstd::std_specs::hash::DefaultHasherAdditionalSpecFns;
use std::hash::Hasher;
use std::collections::hash_map::DefaultHasher;

verus! {

/// Where the line holding byte `i` of `d` starts.
pub open spec fn line_start(d: Seq<u8>, i: int) -> int
    decreases i,
{
    if i <= 0 {
        0
    } else if d[i - 1] == 10u8 {
        i
    } else {
        line_start(d, i - 1)
    }
}

/// Byte `i` of `d` belongs to a changed line: one starting with `'+'` or `'-'`.
pub open spec fn in_changed_line(d: Seq<u8>, i: int) -> bool {
    let first = d[line_start(d, i)];
    first == 43u8 || first == 45u8
}

/// The bytes of the changed lines among the first `n` bytes of `d`, in order.
pub open spec fn changed_prefix(d: Seq<u8>, n: int) -> Seq<u8>
    decreases n,
{
    if n <= 0 {
        seq![]
    } else if in_changed_line(d, n - 1) {
        changed_prefix(d, n - 1).push(d[n - 1])
    } else {
        changed_prefix(d, n - 1)
    }
}

/// The bytes of a hunk body's added and removed lines, without its context lines.
pub open spec fn changed_lines(d: Seq<u8>) -> Seq<u8> {
    changed_prefix(d, d.len() as int)
}

/// The content hash of a hunk body.
pub open spec fn content_hash(d: Seq<u8>) -> u64 {
    DefaultHasher::spec_finish(seq![changed_lines(d)])
}

proof fn lemma_line_start_bounds(d: Seq<u8>, i: int)
    requires
        0 <= i,
    ensures
        0 <= line_start(d, i) <= i,
    decreases i,
{
    if i > 0 && d[i - 1] != 10u8 {
        lemma_line_start_bounds(d, i - 1);
    }
}

/// The added and removed lines of a hunk body, newline included.
pub fn extract_changed_lines(d: &Vec<u8>) -> (r: Vec<u8>)
    ensures
        r@ == changed_lines(d@),
{
    let mut out: Vec<u8> = Vec::new();
    let mut start: usize = 0;
    let mut i: usize = 0;
    while i < d.len()
        invariant
            i <= d@.len(),
            start <= i,
            start == line_start(d@, i as int),
            out@ == changed_prefix(d@, i as int),
        decreases d@.len() - i,
    {
        proof {
            lemma_line_start_bounds(d@, i as int);
        }
        let first = d[start];
        if first == 43u8 || first == 45u8 {
            out.push(d[i]);
        }
        if d[i] == 10u8 {
            start = i + 1;
        }
        i = i + 1;
    }
    out
}

/// The content hash of a hunk body: a digest of its changed lines only, so
/// equal changes at different places get equal hashes.
pub fn hash_lines(d: &Vec<u8>) -> (r: u64)
    ensures
        r == content_hash(d@),
{
    let changed = extract_changed_lines(d);
    let mut hasher = DefaultHasher::new();
    hasher.write(changed.as_slice());
    hasher.finish()
}

} // verus!
