//! Byte-vector helpers shared by the registry and the tree model.

use vstd::prelude::*;

verus! {

/// Whether two byte vectors hold the same bytes.
pub fn bytes_eq(a: &Vec<u8>, b: &Vec<u8>) -> (r: bool)
    ensures
        r <==> a@ == b@,
{
    if a.len() != b.len() {
        return false;
    }
    let mut i: usize = 0;
    while i < a.len()
        invariant
            i <= a@.len(),
            a@.len() == b@.len(),
            forall|j: int| 0 <= j < i ==> a@[j] == b@[j],
        decreases a@.len() - i,
    {
        if a[i] != b[i] {
            return false;
        }
        i = i + 1;
    }
    assert(a@ =~= b@);
    true
}

/// A fresh vector holding the same bytes.
pub fn copy_bytes(a: &Vec<u8>) -> (r: Vec<u8>)
    ensures
        r@ == a@,
{
    let mut r: Vec<u8> = Vec::new();
    let mut i: usize = 0;
    while i < a.len()
        invariant
            i <= a@.len(),
            r@ == a@.subrange(0, i as int),
        decreases a@.len() - i,
    {
        r.push(a[i]);
        assert(r@ =~= a@.subrange(0, i + 1 as int));
        i = i + 1;
    }
    assert(r@ =~= a@);
    r
}

/// A fresh vector holding the first `n` bytes of `a`.
pub fn copy_prefix(a: &Vec<u8>, n: usize) -> (r: Vec<u8>)
    requires
        n <= a@.len(),
    ensures
        r@ == a@.subrange(0, n as int),
{
    let mut r: Vec<u8> = Vec::new();
    let mut i: usize = 0;
    while i < n
        invariant
            i <= n,
            n <= a@.len(),
            r@ == a@.subrange(0, i as int),
        decreases n - i,
    {
        r.push(a[i]);
        assert(r@ =~= a@.subrange(0, i + 1 as int));
        i = i + 1;
    }
    r
}

/// Whether `p` is a strict prefix of `q` followed by a separator byte:
/// the parent-child relation on slash-separated paths, one level deep
/// or more.
pub open spec fn is_descendant(parent: Seq<u8>, child: Seq<u8>) -> bool {
    child.len() > parent.len() + 1
        && child.subrange(0, parent.len() as int) == parent
        && child[parent.len() as int] == 47u8
}

/// Whether `child` is a descendant of `parent`, decided byte by byte.
pub fn descends(parent: &Vec<u8>, child: &Vec<u8>) -> (r: bool)
    ensures
        r <==> is_descendant(parent@, child@),
{
    if child.len() < 2 || child.len() - 2 < parent.len() {
        return false;
    }
    if child[parent.len()] != 47u8 {
        return false;
    }
    let mut i: usize = 0;
    while i < parent.len()
        invariant
            i <= parent@.len(),
            parent@.len() + 1 < child@.len(),
            forall|j: int| 0 <= j < i ==> child@[j] == parent@[j],
        decreases parent@.len() - i,
    {
        if child[i] != parent[i] {
            assert(child@.subrange(0, parent@.len() as int)[i as int] != parent@[i as int]);
            return false;
        }
        i = i + 1;
    }
    assert(child@.subrange(0, parent@.len() as int) =~= parent@);
    true
}

} // verus!
