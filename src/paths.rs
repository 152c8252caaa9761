use vstd::prelude::*;

verus! {

/// The byte strings held by a table of paths.
pub open spec fn path_seqs(paths: Seq<Vec<u8>>) -> Seq<Seq<u8>> {
    paths.map_values(|p: Vec<u8>| p@)
}

/// No path occurs twice.
pub open spec fn distinct_paths(paths: Seq<Vec<u8>>) -> bool {
    forall|i: int, j: int| 0 <= i < j < paths.len() ==> (#[trigger] paths[i])@ != (#[trigger] paths[j])@
}

/// Whether two byte strings are equal.
pub fn same_bytes(a: &Vec<u8>, b: &Vec<u8>) -> (r: bool)
    ensures
        r == (a@ == b@),
{
    if a.len() != b.len() {
        return false;
    }
    let mut i: usize = 0;
    while i < a.len()
        invariant
            i <= a@.len(),
            a@.len() == b@.len(),
            a@.subrange(0, i as int) == b@.subrange(0, i as int),
        decreases a@.len() - i,
    {
        if a[i] != b[i] {
            assert(a@[i as int] != b@[i as int]);
            return false;
        }
        assert(a@.subrange(0, i + 1) =~= a@.subrange(0, i as int).push(a@[i as int]));
        assert(b@.subrange(0, i + 1) =~= b@.subrange(0, i as int).push(b@[i as int]));
        i = i + 1;
    }
    assert(a@ =~= a@.subrange(0, i as int));
    assert(b@ =~= b@.subrange(0, i as int));
    true
}

/// Where `p` stands in `paths`, if it is there.
pub fn find_path(paths: &Vec<Vec<u8>>, p: &Vec<u8>) -> (r: Option<usize>)
    ensures
        match r {
            Some(i) => i < paths@.len() && paths@[i as int]@ == p@,
            None => forall|i: int| 0 <= i < paths@.len() ==> (#[trigger] paths@[i])@ != p@,
        },
{
    let mut i: usize = 0;
    while i < paths.len()
        invariant
            i <= paths@.len(),
            forall|j: int| 0 <= j < i ==> (#[trigger] paths@[j])@ != p@,
        decreases paths@.len() - i,
    {
        if same_bytes(&paths[i], p) {
            return Some(i);
        }
        i = i + 1;
    }
    None
}

/// The index of `p` in `paths`, adding it at the end if it is new.
pub fn intern_path(paths: &mut Vec<Vec<u8>>, p: &Vec<u8>) -> (r: usize)
    requires
        distinct_paths(old(paths)@),
    ensures
        distinct_paths(final(paths)@),
        r < final(paths)@.len(),
        final(paths)@[r as int]@ == p@,
        final(paths)@.len() == old(paths)@.len() || final(paths)@.len() == old(paths)@.len() + 1,
        path_seqs(final(paths)@) == crate::model::intern(path_seqs(old(paths)@), p@).0,
        r == crate::model::intern(path_seqs(old(paths)@), p@).1,
        forall|i: int| 0 <= i < old(paths)@.len() ==> #[trigger] final(paths)@[i] == old(paths)@[i],
{
    let ghost ps = path_seqs(paths@);
    match find_path(paths, p) {
        Some(i) => {
            proof {
                assert(ps[i as int] == p@);
                let k = choose|k: int| 0 <= k < ps.len() && ps[k] == p@;
                if k != i {
                    if k < i {
                        assert(paths@[k]@ != paths@[i as int]@);
                    } else {
                        assert(paths@[i as int]@ != paths@[k]@);
                    }
                }
            }
            i
        },
        None => {
            proof {
                assert forall|k: int| 0 <= k < ps.len() implies ps[k] != p@ by {
                    assert(ps[k] == paths@[k]@);
                }
            }
            let copy = copy_bytes(p);
            paths.push(copy);
            proof {
                assert(path_seqs(paths@) =~= ps.push(p@));
                assert forall|a: int, b: int| 0 <= a < b < paths@.len() implies (#[trigger] paths@[a])@ != (#[trigger] paths@[b])@ by {
                    if b == paths@.len() - 1 {
                        assert(ps[a] == paths@[a]@);
                    } else {
                        assert(old(paths)@[a] == paths@[a]);
                        assert(old(paths)@[b] == paths@[b]);
                    }
                }
            }
            paths.len() - 1
        },
    }
}

/// A fresh vector holding the same bytes as `p`.
pub fn copy_bytes(p: &Vec<u8>) -> (r: Vec<u8>)
    ensures
        r@ == p@,
{
    let mut copy: Vec<u8> = Vec::new();
    let mut k: usize = 0;
    while k < p.len()
        invariant
            k <= p@.len(),
            copy@ == p@.subrange(0, k as int),
        decreases p@.len() - k,
    {
        copy.push(p[k]);
        assert(copy@ =~= p@.subrange(0, k + 1));
        k = k + 1;
    }
    assert(copy@ =~= p@);
    copy
}

} // verus!
