//! Znode-tree model: the server-side semantics the client operations
//! are specified and tested against.
//!
//! A tree is a set of slash-separated paths, each holding data and a
//! stat; versions advance per mutation kind and back the optimistic
//! concurrency checks of set and delete.  Ephemeral nodes carry their
//! owning session's id and vanish, with everything below them, when
//! that session ends.  ACL operations are outside the model, so every
//! stat's `aversion` is zero.

use vstd::prelude::*;
use crate::bytes::{bytes_eq, copy_bytes, copy_prefix, is_descendant, descends};
use crate::codec::CreateMode;
use crate::errors::Error;

verus! {

/// Per-node metadata, exactly the fields a query reports.
#[derive(Clone, Copy, Debug, PartialEq, Eq, Structural)]
pub struct Stat {
    pub czxid: i64,
    pub mzxid: i64,
    pub ctime: i64,
    pub mtime: i64,
    pub version: i32,
    pub cversion: i32,
    pub aversion: i32,
    pub ephemeral_owner: i64,
    pub data_length: i32,
    pub num_children: i32,
    pub pzxid: i64,
}

/// One stored node: its data and the stat fields the server owns.
pub struct Znode {
    pub data: Vec<u8>,
    pub czxid: i64,
    pub mzxid: i64,
    pub ctime: i64,
    pub mtime: i64,
    pub version: i32,
    pub cversion: i32,
    pub ephemeral_owner: i64,
    pub pzxid: i64,
}

/// Mathematical image of a `Znode`.
pub struct ZnodeV {
    pub data: Seq<u8>,
    pub czxid: i64,
    pub mzxid: i64,
    pub ctime: i64,
    pub mtime: i64,
    pub version: i32,
    pub cversion: i32,
    pub ephemeral_owner: i64,
    pub pzxid: i64,
}

impl View for Znode {
    type V = ZnodeV;

    open spec fn view(&self) -> ZnodeV {
        ZnodeV {
            data: self.data@,
            czxid: self.czxid,
            mzxid: self.mzxid,
            ctime: self.ctime,
            mtime: self.mtime,
            version: self.version,
            cversion: self.cversion,
            ephemeral_owner: self.ephemeral_owner,
            pzxid: self.pzxid,
        }
    }
}

/// The root path `/`.
pub open spec fn root_path() -> Seq<u8> {
    seq![47u8]
}

/// The prefix every proper descendant of `p` extends: `p` itself for the
/// root, `p` plus a slash otherwise.
pub open spec fn base_of(p: Seq<u8>) -> Seq<u8> {
    if p == root_path() {
        p
    } else {
        p + seq![47u8]
    }
}

/// Whether `q` lies strictly below `p` in the namespace.
pub open spec fn under(p: Seq<u8>, q: Seq<u8>) -> bool {
    q.len() > base_of(p).len() && q.subrange(0, base_of(p).len() as int) == base_of(p)
}

/// Whether `q` is a direct child of `p`: below it, with no further slash.
pub open spec fn child_of(p: Seq<u8>, q: Seq<u8>) -> bool {
    under(p, q) && forall|k: int| base_of(p).len() <= k < q.len() ==> q[k] != 47u8
}

/// Whether `p` is a well-formed absolute path: starts with a slash, no
/// trailing slash except the root itself, no empty component.
pub open spec fn path_ok(p: Seq<u8>) -> bool {
    &&& p.len() >= 1
    &&& p[0] == 47u8
    &&& (p.len() == 1 || p[p.len() - 1] != 47u8)
    &&& forall|i: int| 0 <= i < p.len() - 1 ==> !((#[trigger] p[i]) == 47u8 && p[i + 1] == 47u8)
}

/// A version counter advanced by one mutation, saturating at the top.
pub open spec fn bump_i32(v: i32) -> i32 {
    if v < i32::MAX {
        (v + 1) as i32
    } else {
        v
    }
}

/// Index of the last slash in `p`, or `-1` when there is none.
pub open spec fn last_slash(p: Seq<u8>) -> int
    decreases p.len(),
{
    if p.len() == 0 {
        -1
    } else if p[p.len() - 1] == 47u8 {
        p.len() - 1
    } else {
        last_slash(p.drop_last())
    }
}

/// The path of the node `p` hangs under: everything before the last
/// slash, or the root when that slash is the leading one.
pub open spec fn parent_of(p: Seq<u8>) -> Seq<u8> {
    if last_slash(p) <= 0 {
        root_path()
    } else {
        p.subrange(0, last_slash(p))
    }
}

/// A slash at `k` with none after it is the last slash.
proof fn lemma_last_slash(p: Seq<u8>, k: int)
    requires
        0 <= k < p.len(),
        p[k] == 47u8,
        forall|m: int| k < m < p.len() ==> p[m] != 47u8,
    ensures
        last_slash(p) == k,
    decreases p.len(),
{
    if k == p.len() - 1 {
    } else {
        assert(p[p.len() - 1] != 47u8);
        let q = p.drop_last();
        assert(q[k] == p[k]);
        assert forall|m: int| k < m < q.len() implies q[m] != 47u8 by {
            assert(q[m] == p[m]);
        }
        lemma_last_slash(q, k);
    }
}

/// Ten to the `k`.
pub open spec fn pow10(k: nat) -> int
    decreases k,
{
    if k == 0 {
        1
    } else {
        10 * pow10((k - 1) as nat)
    }
}

/// The ten zero-padded decimal digits of `n`, as ASCII bytes: the suffix
/// a sequential create appends.
pub open spec fn dec10(n: u32) -> Seq<u8> {
    Seq::new(10, |i: int| (48 + ((n as int) / pow10((9 - i) as nat)) % 10) as u8)
}

/// Decimal digits are ASCII `0`..`9`, in particular never a slash.
proof fn lemma_dec10_digits(n: u32)
    ensures
        dec10(n).len() == 10,
        forall|k: int| 0 <= k < 10 ==> 48 <= (#[trigger] dec10(n)[k]) <= 57,
{
    assert forall|k: int| 0 <= k < 10 implies 48 <= (#[trigger] dec10(n)[k]) <= 57 by {
        lemma_pow10_pos((9 - k) as nat);
        assert(0 <= ((n as int) / pow10((9 - k) as nat)) % 10 < 10) by (nonlinear_arith)
            requires pow10((9 - k) as nat) > 0, n >= 0,
        ;
    }
}

/// Powers of ten are positive.
proof fn lemma_pow10_pos(k: nat)
    ensures
        pow10(k) >= 1,
    decreases k,
{
    if k > 0 {
        lemma_pow10_pos((k - 1) as nat);
    }
}

/// Appends the ten-digit zero-padded decimal image of `n`.
fn push_dec10(v: &mut Vec<u8>, n: u32)
    ensures
        final(v)@ == old(v)@ + dec10(n),
{
    proof {
        lemma_pow10_unfold_all();
    }
    let mut div: u32 = 1000000000;
    let mut i: usize = 0;
    while i < 10
        invariant
            i <= 10,
            i < 10 ==> div == pow10((9 - i) as nat),
            v@ == old(v)@ + dec10(n).subrange(0, i as int),
        decreases 10 - i,
    {
        proof {
            lemma_pow10_pos((9 - i) as nat);
        }
        let digit: u32 = (n / div) % 10;
        v.push(#[verifier::truncate] ((48 + digit) as u8));
        proof {
            assert(dec10(n)[i as int] == (48 + digit) as u8);
            assert(v@ =~= old(v)@ + dec10(n).subrange(0, i + 1 as int));
        }
        if i < 9 {
            proof {
                assert(pow10((9 - i) as nat) == 10 * pow10((8 - i) as nat));
            }
            div = div / 10;
        }
        i = i + 1;
    }
    proof {
        assert(dec10(n).subrange(0, 10) =~= dec10(n));
    }
}

/// The concrete values of the powers of ten up to a billion.
proof fn lemma_pow10_unfold_all()
    ensures
        pow10(0) == 1,
        pow10(1) == 10,
        pow10(2) == 100,
        pow10(3) == 1000,
        pow10(4) == 10000,
        pow10(5) == 100000,
        pow10(6) == 1000000,
        pow10(7) == 10000000,
        pow10(8) == 100000000,
        pow10(9) == 1000000000,
{
    assert(pow10(0) == 1);
    assert(pow10(1) == 10);
    assert(pow10(2) == 100);
    assert(pow10(3) == 1000);
    assert(pow10(4) == 10000);
    assert(pow10(5) == 100000);
    assert(pow10(6) == 1000000);
    assert(pow10(7) == 10000000);
    assert(pow10(8) == 100000000);
    assert(pow10(9) == 1000000000);
}

/// Whether `q` occurs among the byte vectors of `cs`.
pub open spec fn listed(cs: Seq<Vec<u8>>, q: Seq<u8>) -> bool {
    exists|k: int| 0 <= k < cs.len() && (#[trigger] cs[k])@ == q
}

/// Entry `k` of `kept` copies some uncondemned entry of `s0` before `upto`.
spec fn kept_from(kept: Seq<(Vec<u8>, Znode)>, k: int, s0: Seq<(Vec<u8>, Znode)>, upto: int, m0: Map<Seq<u8>, ZnodeV>, sid: i64) -> bool {
    exists|j: int| 0 <= j < upto
        && (#[trigger] s0[j]).0@ == kept[k].0@
        && s0[j].1@ == kept[k].1@
        && !condemned(m0, s0[j].0@, sid)
}

/// Entry `j` of `s0` is copied somewhere into `kept`.
spec fn survives_into(s0: Seq<(Vec<u8>, Znode)>, j: int, kept: Seq<(Vec<u8>, Znode)>) -> bool {
    exists|k: int| 0 <= k < kept.len()
        && (#[trigger] kept[k]).0@ == s0[j].0@
        && kept[k].1@ == s0[j].1@
}

/// Whether the node at `q` goes away when session `sid` ends: it is an
/// ephemeral owned by `sid`, or lies below one.
pub open spec fn condemned(m: Map<Seq<u8>, ZnodeV>, q: Seq<u8>, sid: i64) -> bool {
    ||| m[q].ephemeral_owner == sid
    ||| exists|a: Seq<u8>| #[trigger] m.contains_key(a) && m[a].ephemeral_owner == sid && under(a, q)
}

/// Whether the mode makes the node ephemeral.
pub open spec fn mode_is_ephemeral(m: CreateMode) -> bool {
    m == CreateMode::Ephemeral || m == CreateMode::EphemeralSequential
}

/// Whether the mode asks the server to append a sequence suffix.
pub open spec fn mode_is_sequential(m: CreateMode) -> bool {
    m == CreateMode::PersistentSequential || m == CreateMode::EphemeralSequential
}

/// The path the server actually creates: the caller's path, with the
/// parent's child-version as a ten-digit suffix for sequential modes.
pub open spec fn created_path(path: Seq<u8>, mode: CreateMode, parent_cversion: i32) -> Seq<u8> {
    if mode_is_sequential(mode) {
        path + dec10(parent_cversion as u32)
    } else {
        path
    }
}

/// Decides `path_ok` byte by byte, for callers that must test it before
/// asking for a create.
pub fn path_valid(p: &Vec<u8>) -> (r: bool)
    ensures
        r <==> path_ok(p@),
{
    if p.len() == 0 || p[0] != 47u8 {
        return false;
    }
    if p.len() > 1 && p[p.len() - 1] == 47u8 {
        return false;
    }
    let mut i: usize = 0;
    while i < p.len() - 1
        invariant
            p@.len() >= 1,
            i <= p@.len() - 1,
            forall|j: int| 0 <= j < i ==> !((#[trigger] p@[j]) == 47u8 && p@[j + 1] == 47u8),
        decreases p@.len() - i,
    {
        if p[i] == 47u8 && p[i + 1] == 47u8 {
            return false;
        }
        i = i + 1;
    }
    true
}

/// The last slash lies inside the path.
proof fn lemma_last_slash_bound(p: Seq<u8>)
    ensures
        last_slash(p) < p.len(),
    decreases p.len(),
{
    if p.len() > 0 && p[p.len() - 1] != 47u8 {
        lemma_last_slash_bound(p.drop_last());
    }
}

/// A non-root path's parent is strictly shorter, so never the path itself.
proof fn lemma_parent_of_proper(p: Seq<u8>)
    requires
        path_ok(p),
        p != root_path(),
    ensures
        parent_of(p).len() < p.len(),
        parent_of(p) != p,
{
    if p.len() == 1 {
        assert(p =~= root_path());
    }
    lemma_last_slash_bound(p);
}

/// Computes the parent path byte by byte.
pub fn parent_path(p: &Vec<u8>) -> (r: Vec<u8>)
    requires
        path_ok(p@),
        p@ != root_path(),
    ensures
        r@ == parent_of(p@),
{
    proof {
        if p@.len() == 1 {
            assert(p@ =~= root_path());
        }
    }
    let mut k: usize = p.len() - 1;
    while p[k] != 47u8
        invariant
            0 <= k < p@.len(),
            path_ok(p@),
            forall|m: int| k < m < p@.len() ==> p@[m] != 47u8,
        decreases k,
    {
        k = k - 1;
    }
    proof {
        lemma_last_slash(p@, k as int);
    }
    if k == 0 {
        let mut r: Vec<u8> = Vec::new();
        r.push(47u8);
        proof {
            assert(r@ =~= root_path());
        }
        r
    } else {
        copy_prefix(p, k)
    }
}

/// Whether `q` lies strictly below `p`, decided byte by byte.
pub fn under_exec(p: &Vec<u8>, q: &Vec<u8>) -> (r: bool)
    ensures
        r <==> under(p@, q@),
{
    let is_root = p.len() == 1 && p[0] == 47u8;
    if is_root {
        proof {
            assert(p@ =~= root_path());
        }
        if q.len() > 1 && q[0] == 47u8 {
            proof {
                assert(q@.subrange(0, 1) =~= root_path());
            }
            true
        } else {
            proof {
                if under(p@, q@) {
                    assert(q@.subrange(0, 1)[0] == q@[0]);
                }
            }
            false
        }
    } else {
        proof {
            if p@.len() == 1 && p@ != root_path() {
                assert(p@[0] != 47u8);
            }
            assert(p@ != root_path());
            if is_descendant(p@, q@) {
                assert(q@.subrange(0, base_of(p@).len() as int) =~= base_of(p@)) by {
                    assert(forall|k: int| 0 <= k < p@.len()
                        ==> q@.subrange(0, p@.len() as int)[k] == q@[k]);
                }
            }
            if under(p@, q@) {
                assert(q@.subrange(0, p@.len() as int) =~= p@) by {
                    assert(forall|k: int| 0 <= k < p@.len()
                        ==> q@.subrange(0, base_of(p@).len() as int)[k] == q@[k]);
                }
                assert(q@[p@.len() as int] == base_of(p@)[p@.len() as int]);
            }
        }
        descends(p, q)
    }
}

/// The server-side node tree plus its transaction counter.
pub struct ZnodeTree {
    zxid: i64,
    nodes: Vec<(Vec<u8>, Znode)>,
}

/// No two entries store the same path.
spec fn keys_unique(s: Seq<(Vec<u8>, Znode)>) -> bool {
    forall|i: int, j: int| 0 <= i < j < s.len() ==> (#[trigger] s[i]).0@ != (#[trigger] s[j]).0@
}

/// The stored entries as a map from path to node image.
spec fn map_of(s: Seq<(Vec<u8>, Znode)>) -> Map<Seq<u8>, ZnodeV> {
    Map::new(
        |p: Seq<u8>| exists|i: int| 0 <= i < s.len() && (#[trigger] s[i]).0@ == p,
        |p: Seq<u8>|
            {
                let i = choose|i: int| 0 <= i < s.len() && (#[trigger] s[i]).0@ == p;
                s[i].1@
            },
    )
}

/// Entry `i` is visible in `map_of` under its own path, with its own node.
proof fn lemma_entry(s: Seq<(Vec<u8>, Znode)>, i: int)
    requires
        keys_unique(s),
        0 <= i < s.len(),
    ensures
        map_of(s).contains_key(s[i].0@),
        map_of(s)[s[i].0@] == s[i].1@,
{
    let p = s[i].0@;
    assert(s[i].0@ == p);
    let j = choose|j: int| 0 <= j < s.len() && (#[trigger] s[j]).0@ == p;
    assert(j == i);
}

/// Replacing entry `i` by one with the same path updates just that key.
proof fn lemma_map_update(s0: Seq<(Vec<u8>, Znode)>, s1: Seq<(Vec<u8>, Znode)>, i: int, e: (Vec<u8>, Znode))
    requires
        keys_unique(s0),
        0 <= i < s0.len(),
        s1 == s0.update(i, e),
        e.0@ == s0[i].0@,
    ensures
        keys_unique(s1),
        map_of(s1) == map_of(s0).insert(e.0@, e.1@),
{
    let pk = e.0@;
    assert forall|a: int, b: int| 0 <= a < b < s1.len()
        implies (#[trigger] s1[a]).0@ != (#[trigger] s1[b]).0@ by {
        assert(s1[a].0@ == s0[a].0@);
        assert(s1[b].0@ == s0[b].0@);
    }
    assert forall|q: Seq<u8>| #[trigger] map_of(s1).contains_key(q)
        implies map_of(s1)[q] == map_of(s0).insert(pk, e.1@)[q] by {
        let j = choose|j: int| 0 <= j < s1.len() && (#[trigger] s1[j]).0@ == q;
        lemma_entry(s1, j);
        if q == pk {
            assert(s1[i].0@ == pk);
            assert(j == i);
        } else {
            assert(j != i);
            assert(s0[j].0@ == q);
            lemma_entry(s0, j);
        }
    }
    assert forall|q: Seq<u8>| #[trigger] map_of(s0).insert(pk, e.1@).contains_key(q)
        implies map_of(s1).contains_key(q) by {
        if q == pk {
            assert(s1[i].0@ == pk);
        } else {
            let j = choose|j: int| 0 <= j < s0.len() && (#[trigger] s0[j]).0@ == q;
            assert(s1[j].0@ == q);
        }
    }
    assert(map_of(s1) =~= map_of(s0).insert(pk, e.1@));
}

/// Appending an entry with a fresh path inserts just that key.
proof fn lemma_map_push(s0: Seq<(Vec<u8>, Znode)>, s1: Seq<(Vec<u8>, Znode)>, e: (Vec<u8>, Znode))
    requires
        keys_unique(s0),
        s1 == s0.push(e),
        !map_of(s0).contains_key(e.0@),
    ensures
        keys_unique(s1),
        map_of(s1) == map_of(s0).insert(e.0@, e.1@),
{
    let pk = e.0@;
    let n = s0.len() as int;
    assert(s1[n].0@ == pk);
    assert forall|a: int, b: int| 0 <= a < b < s1.len()
        implies (#[trigger] s1[a]).0@ != (#[trigger] s1[b]).0@ by {
        if b < n {
            assert(s1[a].0@ == s0[a].0@);
            assert(s1[b].0@ == s0[b].0@);
        } else {
            assert(s1[a].0@ == s0[a].0@);
        }
    }
    assert forall|q: Seq<u8>| #[trigger] map_of(s1).contains_key(q)
        implies map_of(s1)[q] == map_of(s0).insert(pk, e.1@)[q] by {
        let j = choose|j: int| 0 <= j < s1.len() && (#[trigger] s1[j]).0@ == q;
        lemma_entry(s1, j);
        if q == pk {
            assert(j == n);
        } else {
            assert(j != n);
            assert(s0[j].0@ == q);
            lemma_entry(s0, j);
        }
    }
    assert forall|q: Seq<u8>| #[trigger] map_of(s0).insert(pk, e.1@).contains_key(q)
        implies map_of(s1).contains_key(q) by {
        if q != pk {
            let j = choose|j: int| 0 <= j < s0.len() && (#[trigger] s0[j]).0@ == q;
            assert(s1[j].0@ == q);
        }
    }
    assert(map_of(s1) =~= map_of(s0).insert(pk, e.1@));
}

/// Removing entry `i` removes just its key.
proof fn lemma_map_remove(s0: Seq<(Vec<u8>, Znode)>, s1: Seq<(Vec<u8>, Znode)>, i: int)
    requires
        keys_unique(s0),
        0 <= i < s0.len(),
        s1 == s0.remove(i),
    ensures
        keys_unique(s1),
        map_of(s1) == map_of(s0).remove(s0[i].0@),
{
    let pk = s0[i].0@;
    assert forall|a: int| 0 <= a < s1.len()
        implies s1[a] == (if a < i { s0[a] } else { s0[a + 1] }) by {
        assert(s1 =~= s0.subrange(0, i) + s0.subrange(i + 1, s0.len() as int));
    }
    assert forall|a: int, b: int| 0 <= a < b < s1.len()
        implies (#[trigger] s1[a]).0@ != (#[trigger] s1[b]).0@ by {
        let a0: int = if a < i { a } else { a + 1 };
        let b0: int = if b < i { b } else { b + 1 };
        assert(s1[a].0@ == s0[a0].0@);
        assert(s1[b].0@ == s0[b0].0@);
    }
    assert forall|q: Seq<u8>| #[trigger] map_of(s1).contains_key(q)
        implies q != pk && map_of(s1)[q] == map_of(s0)[q] by {
        let j = choose|j: int| 0 <= j < s1.len() && (#[trigger] s1[j]).0@ == q;
        lemma_entry(s1, j);
        let j0: int = if j < i { j } else { j + 1 };
        assert(s0[j0].0@ == q);
        assert(j0 != i);
        lemma_entry(s0, j0);
    }
    assert forall|q: Seq<u8>| #[trigger] map_of(s0).remove(pk).contains_key(q)
        implies map_of(s1).contains_key(q) by {
        let j = choose|j: int| 0 <= j < s0.len() && (#[trigger] s0[j]).0@ == q;
        assert(j != i);
        if j < i {
            assert(s1[j].0@ == q);
        } else {
            assert(s1[j - 1].0@ == q);
        }
    }
    assert(map_of(s1) =~= map_of(s0).remove(pk));
}

impl ZnodeTree {
    /// The last transaction id the tree assigned.
    pub closed spec fn zxid_spec(self) -> i64 {
        self.zxid
    }

    /// The tree as a map from paths to node images.
    pub closed spec fn as_map(self) -> Map<Seq<u8>, ZnodeV> {
        map_of(self.nodes@)
    }

    /// Whether a node exists at `p`.
    pub open spec fn has_path(self, p: Seq<u8>) -> bool {
        self.as_map().contains_key(p)
    }

    /// The node stored at `p`.
    pub open spec fn node_of(self, p: Seq<u8>) -> ZnodeV {
        self.as_map()[p]
    }

    /// Whether any node lies strictly below `p`.
    pub open spec fn has_descendant(self, p: Seq<u8>) -> bool {
        exists|q: Seq<u8>| #[trigger] self.as_map().contains_key(q) && under(p, q)
    }

    /// Paths are unique and well formed, the counter is non-negative,
    /// versions are non-negative, and the root is present and never
    /// ephemeral.
    pub closed spec fn wf(self) -> bool {
        &&& 0 <= self.zxid
        &&& keys_unique(self.nodes@)
        &&& forall|i: int| 0 <= i < self.nodes@.len()
            ==> path_ok((#[trigger] self.nodes@[i]).0@)
                && 0 <= self.nodes@[i].1.version && 0 <= self.nodes@[i].1.cversion
        &&& self.as_map().contains_key(root_path())
        &&& self.as_map()[root_path()].ephemeral_owner == 0
    }

    /// Entry `i` is visible in the map under its own path.
    proof fn lemma_map_index(self, i: int)
        requires
            self.wf(),
            0 <= i < self.nodes@.len(),
        ensures
            self.as_map().contains_key(self.nodes@[i].0@),
            self.as_map()[self.nodes@[i].0@] == self.nodes@[i].1@,
    {
        let p = self.nodes@[i].0@;
        let j = choose|j: int| 0 <= j < self.nodes@.len() && (#[trigger] self.nodes@[j]).0@ == p;
        assert(self.nodes@[i].0@ == p);
        assert(j == i);
    }

    /// A fresh tree: only the root, at transaction id zero.
    pub fn new() -> (r: Self)
        ensures
            r.wf(),
            r.zxid_spec() == 0,
            r.as_map() == Map::<Seq<u8>, ZnodeV>::empty().insert(root_path(), ZnodeV {
                data: Seq::empty(),
                czxid: 0, mzxid: 0, ctime: 0, mtime: 0,
                version: 0, cversion: 0, ephemeral_owner: 0, pzxid: 0,
            }),
    {
        let mut root_p: Vec<u8> = Vec::new();
        root_p.push(47u8);
        let root_n = Znode {
            data: Vec::new(),
            czxid: 0, mzxid: 0, ctime: 0, mtime: 0,
            version: 0, cversion: 0, ephemeral_owner: 0, pzxid: 0,
        };
        let mut nodes: Vec<(Vec<u8>, Znode)> = Vec::new();
        nodes.push((root_p, root_n));
        let r = ZnodeTree { zxid: 0, nodes };
        proof {
            assert(r.nodes@[0].0@ =~= root_path());
            assert(r.nodes@[0].1@.data =~= Seq::<u8>::empty());
            r.lemma_map_index(0);
            assert(r.as_map() =~= Map::<Seq<u8>, ZnodeV>::empty().insert(root_path(), ZnodeV {
                data: Seq::empty(),
                czxid: 0, mzxid: 0, ctime: 0, mtime: 0,
                version: 0, cversion: 0, ephemeral_owner: 0, pzxid: 0,
            }));
        }
        r
    }

    /// Whether the transaction counter still has room for a mutation;
    /// callers outside verified code test this before mutating.
    pub fn can_mutate(&self) -> (r: bool)
        ensures
            r <==> self.zxid_spec() < i64::MAX,
    {
        self.zxid < i64::MAX
    }

    /// Index of the node stored at `path`, if any.
    fn find(&self, path: &Vec<u8>) -> (r: Option<usize>)
        ensures
            match r {
                Some(i) => i < self.nodes@.len() && self.nodes@[i as int].0@ == path@,
                None => !self.has_path(path@),
            },
    {
        let mut i: usize = 0;
        while i < self.nodes.len()
            invariant
                i <= self.nodes@.len(),
                forall|j: int| 0 <= j < i ==> (#[trigger] self.nodes@[j]).0@ != path@,
            decreases self.nodes@.len() - i,
        {
            if bytes_eq(&self.nodes[i].0, path) {
                return Some(i);
            }
            i = i + 1;
        }
        proof {
            if self.has_path(path@) {
                let j = choose|j: int| 0 <= j < self.nodes@.len() && (#[trigger] self.nodes@[j]).0@ == path@;
                assert(self.nodes@[j].0@ == path@);
            }
        }
        None
    }

    /// Whether any stored node lies strictly below `path`.
    fn any_below(&self, path: &Vec<u8>) -> (r: bool)
        ensures
            r <==> self.has_descendant(path@),
    {
        let mut i: usize = 0;
        while i < self.nodes.len()
            invariant
                i <= self.nodes@.len(),
                forall|j: int| 0 <= j < i ==> !under(path@, (#[trigger] self.nodes@[j]).0@),
            decreases self.nodes@.len() - i,
        {
            if under_exec(path, &self.nodes[i].0) {
                proof {
                    self.lemma_map_index_weak(i as int);
                }
                return true;
            }
            i = i + 1;
        }
        proof {
            if self.has_descendant(path@) {
                let q = choose|q: Seq<u8>| #[trigger] self.as_map().contains_key(q) && under(path@, q);
                let j = choose|j: int| 0 <= j < self.nodes@.len() && (#[trigger] self.nodes@[j]).0@ == q;
                assert(under(path@, self.nodes@[j].0@));
            }
        }
        false
    }

    /// Entry `i`'s path is in the map's domain (no well-formedness needed).
    proof fn lemma_map_index_weak(self, i: int)
        requires
            0 <= i < self.nodes@.len(),
        ensures
            self.as_map().contains_key(self.nodes@[i].0@),
    {
        assert(self.nodes@[i].0@ == self.nodes@[i].0@);
    }

    /// The stat the server reports for `path`, or `None` when absent.
    /// `num_children` is non-negative and zero exactly when the node has
    /// no child; the count saturates at `i32::MAX`.
    pub fn stat_of(&self, path: &Vec<u8>) -> (r: Option<Stat>)
        requires
            self.wf(),
        ensures
            r is Some <==> self.has_path(path@),
            r matches Some(st) ==> {
                let n = self.node_of(path@);
                &&& st.czxid == n.czxid
                &&& st.mzxid == n.mzxid
                &&& st.ctime == n.ctime
                &&& st.mtime == n.mtime
                &&& st.version == n.version
                &&& st.cversion == n.cversion
                &&& st.aversion == 0
                &&& st.ephemeral_owner == n.ephemeral_owner
                &&& st.data_length == (if n.data.len() <= i32::MAX { n.data.len() as i32 } else { i32::MAX })
                &&& st.pzxid == n.pzxid
                &&& st.num_children >= 0
                &&& (st.num_children == 0 <==> !(exists|q: Seq<u8>|
                        #[trigger] self.as_map().contains_key(q) && child_of(path@, q)))
            },
    {
        match self.find(path) {
            None => None,
            Some(i) => {
                proof {
                    self.lemma_map_index(i as int);
                }
                let n = &self.nodes[i];
                let dl: i32 = if n.1.data.len() <= i32::MAX as usize {
                    n.1.data.len() as i32
                } else {
                    i32::MAX
                };
                let nc = self.count_children(path);
                Some(Stat {
                    czxid: n.1.czxid,
                    mzxid: n.1.mzxid,
                    ctime: n.1.ctime,
                    mtime: n.1.mtime,
                    version: n.1.version,
                    cversion: n.1.cversion,
                    aversion: 0,
                    ephemeral_owner: n.1.ephemeral_owner,
                    data_length: dl,
                    num_children: nc,
                    pzxid: n.1.pzxid,
                })
            },
        }
    }

    /// Saturating count of the direct children of `path`; zero exactly
    /// when there is none.
    fn count_children(&self, path: &Vec<u8>) -> (n: i32)
        ensures
            n >= 0,
            n == 0 <==> !(exists|q: Seq<u8>|
                #[trigger] self.as_map().contains_key(q) && child_of(path@, q)),
    {
        let mut n: i32 = 0;
        let mut i: usize = 0;
        while i < self.nodes.len()
            invariant
                i <= self.nodes@.len(),
                0 <= n,
                n == 0 <==> (forall|j: int| 0 <= j < i ==> !child_of(path@, (#[trigger] self.nodes@[j]).0@)),
            decreases self.nodes@.len() - i,
        {
            if self.is_child_exec(path, i) {
                proof {
                    self.lemma_map_index_weak(i as int);
                }
                if n < i32::MAX {
                    n = n + 1;
                }
            }
            i = i + 1;
        }
        proof {
            if n == 0 {
                if exists|q: Seq<u8>| #[trigger] self.as_map().contains_key(q) && child_of(path@, q) {
                    let q = choose|q: Seq<u8>| #[trigger] self.as_map().contains_key(q) && child_of(path@, q);
                    let j = choose|j: int| 0 <= j < self.nodes@.len() && (#[trigger] self.nodes@[j]).0@ == q;
                    assert(child_of(path@, self.nodes@[j].0@));
                }
            } else {
                let j = choose|j: int| 0 <= j < self.nodes@.len()
                    && child_of(path@, (#[trigger] self.nodes@[j]).0@);
                self.lemma_map_index_weak(j);
            }
        }
        n
    }

    /// Whether stored entry `i` is a direct child of `path`.
    fn is_child_exec(&self, path: &Vec<u8>, i: usize) -> (r: bool)
        requires
            i < self.nodes@.len(),
        ensures
            r <==> child_of(path@, self.nodes@[i as int].0@),
    {
        let q = &self.nodes[i].0;
        if !under_exec(path, q) {
            return false;
        }
        let ql: usize = q.len();
        let is_root = path.len() == 1 && path[0] == 47u8;
        proof {
            if is_root {
                assert(path@ =~= root_path());
            } else {
                if path@.len() == 1 {
                    assert(path@[0] != 47u8);
                    assert(root_path()[0] == 47u8);
                }
                assert(path@ != root_path());
                assert(base_of(path@).len() == path@.len() + 1);
                assert(path@.len() + 1 < ql);
            }
        }
        let base: usize = if is_root { 1 } else { path.len() + 1 };
        let mut k: usize = base;
        while k < q.len()
            invariant
                base <= k <= q@.len(),
                base == base_of(path@).len(),
                under(path@, q@),
                i < self.nodes@.len(),
                q@ == self.nodes@[i as int].0@,
                forall|m: int| base <= m < k ==> q@[m] != 47u8,
            decreases q@.len() - k,
        {
            if q[k] == 47u8 {
                return false;
            }
            k = k + 1;
        }
        true
    }

    /// Creates a node.  The parent must already exist; the final path —
    /// the caller's, or with the parent's child-version appended for
    /// sequential modes — must be fresh, else `NodeExists`.  Ephemeral
    /// nodes record the owning session.  On success the created path is
    /// returned and the parent's child-version advances.
    pub fn create(&mut self, path: Vec<u8>, data: Vec<u8>, mode: CreateMode, session_id: i64, now: i64) -> (r: Result<Vec<u8>, Error>)
        requires
            old(self).wf(),
            old(self).zxid_spec() < i64::MAX,
            path_ok(path@),
            path@ != root_path(),
            mode_is_ephemeral(mode) ==> session_id != 0,
        ensures
            final(self).wf(),
            !old(self).has_path(parent_of(path@)) ==> r == Err::<Vec<u8>, Error>(Error::NodeNotFound)
                && *final(self) == *old(self),
            old(self).has_path(parent_of(path@)) ==> {
                let pnode = old(self).node_of(parent_of(path@));
                let actual = created_path(path@, mode, pnode.cversion);
                &&& old(self).has_path(actual) ==> r == Err::<Vec<u8>, Error>(Error::NodeExists)
                        && *final(self) == *old(self)
                &&& !old(self).has_path(actual) ==> {
                    &&& (r matches Ok(rp) && rp@ == actual)
                    &&& final(self).zxid_spec() == old(self).zxid_spec() + 1
                    &&& final(self).as_map() == old(self).as_map()
                            .insert(parent_of(path@), ZnodeV {
                                cversion: bump_i32(pnode.cversion),
                                pzxid: (old(self).zxid_spec() + 1) as i64,
                                ..pnode
                            })
                            .insert(actual, ZnodeV {
                                data: data@,
                                czxid: (old(self).zxid_spec() + 1) as i64,
                                mzxid: (old(self).zxid_spec() + 1) as i64,
                                ctime: now,
                                mtime: now,
                                version: 0,
                                cversion: 0,
                                ephemeral_owner: if mode_is_ephemeral(mode) { session_id } else { 0 },
                                pzxid: (old(self).zxid_spec() + 1) as i64,
                            })
                }
            },
    {
        let ghost path0 = path@;
        proof {
            lemma_parent_of_proper(path@);
        }
        let parent = parent_path(&path);
        match self.find(&parent) {
            None => Err(Error::NodeNotFound),
            Some(pi) => {
                proof {
                    self.lemma_map_index(pi as int);
                }
                let pcv = self.nodes[pi].1.cversion;
                let sequential = match mode {
                    CreateMode::PersistentSequential => true,
                    CreateMode::EphemeralSequential => true,
                    CreateMode::Persistent => false,
                    CreateMode::Ephemeral => false,
                };
                let mut actual = path;
                if sequential {
                    push_dec10(&mut actual, #[verifier::truncate] (pcv as u32));
                    proof {
                        assert(pcv as u32 == pcv);
                        lemma_dec10_digits(pcv as u32);
                        assert(path_ok(actual@)) by {
                            assert(actual@[0] == path0[0]);
                            assert(actual@[actual@.len() - 1] == dec10(pcv as u32)[9]);
                            assert forall|k: int| 0 <= k < actual@.len() - 1
                                implies !((#[trigger] actual@[k]) == 47u8 && actual@[k + 1] == 47u8) by {
                                if k + 1 >= path0.len() {
                                    assert(actual@[k + 1] == dec10(pcv as u32)[k + 1 - path0.len()]);
                                }
                            }
                        }
                    }
                }
                proof {
                    assert(actual@ == created_path(path0, mode, old(self).node_of(parent_of(path0)).cversion));
                    assert(parent@.len() < path0.len() <= actual@.len());
                }
                let owner_is_session = match mode {
                    CreateMode::Ephemeral => true,
                    CreateMode::EphemeralSequential => true,
                    CreateMode::Persistent => false,
                    CreateMode::PersistentSequential => false,
                };
                match self.find(&actual) {
                    Some(j) => {
                        proof {
                            self.lemma_map_index_weak(j as int);
                        }
                        Err(Error::NodeExists)
                    },
                    None => {
                        let zx = self.zxid + 1;
                        let ghost s0 = self.nodes@;
                        let pcur = &self.nodes[pi].1;
                        let new_parent = Znode {
                            data: copy_bytes(&pcur.data),
                            czxid: pcur.czxid,
                            mzxid: pcur.mzxid,
                            ctime: pcur.ctime,
                            mtime: pcur.mtime,
                            version: pcur.version,
                            cversion: if pcur.cversion < i32::MAX { pcur.cversion + 1 } else { pcur.cversion },
                            ephemeral_owner: pcur.ephemeral_owner,
                            pzxid: zx,
                        };
                        let parent_key = copy_bytes(&self.nodes[pi].0);
                        self.nodes[pi] = (parent_key, new_parent);
                        proof {
                            lemma_map_update(s0, self.nodes@, pi as int, self.nodes@[pi as int]);
                        }
                        let ghost s1 = self.nodes@;
                        let ret = copy_bytes(&actual);
                        let node = Znode {
                            data,
                            czxid: zx,
                            mzxid: zx,
                            ctime: now,
                            mtime: now,
                            version: 0,
                            cversion: 0,
                            ephemeral_owner: if owner_is_session { session_id } else { 0 },
                            pzxid: zx,
                        };
                        self.nodes.push((actual, node));
                        self.zxid = zx;
                        proof {
                            assert(!map_of(s1).contains_key(path0 + dec10(pcv as u32)) || !mode_is_sequential(mode));
                            assert(self.nodes@ == s1.push(self.nodes@[s1.len() as int]));
                            assert(!map_of(s1).contains_key(self.nodes@[s1.len() as int].0@)) by {
                                let q = self.nodes@[s1.len() as int].0@;
                                assert(map_of(s1) == map_of(s0).insert(parent_of(path0),
                                    s1[pi as int].1@));
                                assert(q != parent_of(path0));
                            }
                            lemma_map_push(s1, self.nodes@, self.nodes@[s1.len() as int]);
                            assert forall|a: int| 0 <= a < self.nodes@.len()
                                implies path_ok((#[trigger] self.nodes@[a]).0@)
                                    && 0 <= self.nodes@[a].1.version && 0 <= self.nodes@[a].1.cversion by {
                                if a != pi as int && a < s1.len() {
                                    assert(self.nodes@[a] == s0[a]);
                                }
                            }
                            assert(map_of(self.nodes@).contains_key(root_path())
                                && map_of(self.nodes@)[root_path()].ephemeral_owner == 0) by {
                                if parent_of(path0) == root_path() {
                                    assert(map_of(self.nodes@)[root_path()]
                                        == map_of(s1)[root_path()]);
                                } else {
                                    assert(self.nodes@[s1.len() as int].0@.len() > 1);
                                    assert(map_of(self.nodes@)[root_path()]
                                        == map_of(s0)[root_path()]);
                                }
                            }
                        }
                        Ok(ret)
                    },
                }
            },
        }
    }

    /// Replaces the data at `path` under optimistic concurrency: an
    /// expected version of `-1` always matches; any other value must
    /// equal the node's current version, else `VersionMismatch` and the
    /// whole tree is left unchanged.
    pub fn set_data(&mut self, path: &Vec<u8>, data: Vec<u8>, expected_version: i32, now: i64) -> (r: Result<Stat, Error>)
        requires
            old(self).wf(),
            old(self).zxid_spec() < i64::MAX,
        ensures
            final(self).wf(),
            !old(self).has_path(path@) ==> r == Err::<Stat, Error>(Error::NodeNotFound)
                && *final(self) == *old(self),
            old(self).has_path(path@) && expected_version != -1i32
                && expected_version != old(self).node_of(path@).version ==> {
                &&& r == Err::<Stat, Error>(Error::VersionMismatch)
                &&& *final(self) == *old(self)
            },
            old(self).has_path(path@)
                && (expected_version == -1i32 || expected_version == old(self).node_of(path@).version) ==> {
                let n0 = old(self).node_of(path@);
                &&& final(self).zxid_spec() == old(self).zxid_spec() + 1
                &&& final(self).as_map() == old(self).as_map().insert(path@, ZnodeV {
                        data: data@,
                        mzxid: (old(self).zxid_spec() + 1) as i64,
                        mtime: now,
                        version: bump_i32(n0.version),
                        ..n0
                    })
                &&& (r matches Ok(st) && st.version == bump_i32(n0.version)
                        && st.mzxid == old(self).zxid_spec() + 1)
            },
    {
        match self.find(path) {
            None => Err(Error::NodeNotFound),
            Some(i) => {
                proof {
                    self.lemma_map_index(i as int);
                }
                let cur = &self.nodes[i].1;
                if expected_version != -1i32 && expected_version != cur.version {
                    return Err(Error::VersionMismatch);
                }
                let zx = self.zxid + 1;
                let new_node = Znode {
                    data,
                    czxid: cur.czxid,
                    mzxid: zx,
                    ctime: cur.ctime,
                    mtime: now,
                    version: if cur.version < i32::MAX { cur.version + 1 } else { cur.version },
                    cversion: cur.cversion,
                    ephemeral_owner: cur.ephemeral_owner,
                    pzxid: cur.pzxid,
                };
                let new_path = copy_bytes(&self.nodes[i].0);
                let st = Stat {
                    czxid: new_node.czxid,
                    mzxid: new_node.mzxid,
                    ctime: new_node.ctime,
                    mtime: new_node.mtime,
                    version: new_node.version,
                    cversion: new_node.cversion,
                    aversion: 0,
                    ephemeral_owner: new_node.ephemeral_owner,
                    data_length: if new_node.data.len() <= i32::MAX as usize {
                        new_node.data.len() as i32
                    } else {
                        i32::MAX
                    },
                    num_children: 0,
                    pzxid: new_node.pzxid,
                };
                let ghost s0 = self.nodes@;
                let ghost e = (new_path@, new_node@);
                self.nodes[i] = (new_path, new_node);
                self.zxid = zx;
                proof {
                    lemma_map_update(s0, self.nodes@, i as int, self.nodes@[i as int]);
                    assert(self.nodes@[i as int].0@ == path@);
                    assert forall|a: int| 0 <= a < self.nodes@.len()
                        implies path_ok((#[trigger] self.nodes@[a]).0@)
                            && 0 <= self.nodes@[a].1.version && 0 <= self.nodes@[a].1.cversion by {
                        if a != i as int {
                            assert(self.nodes@[a] == s0[a]);
                        }
                    }
                    assert(self.as_map().contains_key(root_path())
                        && self.as_map()[root_path()].ephemeral_owner == 0) by {
                        let m1 = map_of(self.nodes@);
                        let m0 = map_of(s0);
                        if path@ == root_path() {
                            assert(m1[root_path()].ephemeral_owner
                                == old(self).node_of(root_path()).ephemeral_owner);
                        }
                    }
                }
                Ok(st)
            },
        }
    }

    /// Deletes the node at `path` under optimistic concurrency.  A node
    /// that still has anything below it is refused with `NotEmpty`, and
    /// the node and its children all remain present.  On success the
    /// parent's child-version advances.
    pub fn delete(&mut self, path: &Vec<u8>, expected_version: i32) -> (r: Result<(), Error>)
        requires
            old(self).wf(),
            old(self).zxid_spec() < i64::MAX,
            path@ != root_path(),
        ensures
            final(self).wf(),
            !old(self).has_path(path@) ==> r == Err::<(), Error>(Error::NodeNotFound)
                && *final(self) == *old(self),
            old(self).has_path(path@) && expected_version != -1i32
                && expected_version != old(self).node_of(path@).version ==> {
                &&& r == Err::<(), Error>(Error::VersionMismatch)
                &&& *final(self) == *old(self)
            },
            old(self).has_path(path@)
                && (expected_version == -1i32 || expected_version == old(self).node_of(path@).version)
                && old(self).has_descendant(path@) ==> {
                &&& r == Err::<(), Error>(Error::NotEmpty)
                &&& *final(self) == *old(self)
            },
            old(self).has_path(path@)
                && (expected_version == -1i32 || expected_version == old(self).node_of(path@).version)
                && !old(self).has_descendant(path@) ==> {
                &&& r == Ok::<(), Error>(())
                &&& final(self).zxid_spec() == old(self).zxid_spec() + 1
                &&& final(self).as_map() == (if old(self).has_path(parent_of(path@)) {
                        old(self).as_map().remove(path@).insert(parent_of(path@), ZnodeV {
                            cversion: bump_i32(old(self).node_of(parent_of(path@)).cversion),
                            pzxid: (old(self).zxid_spec() + 1) as i64,
                            ..old(self).node_of(parent_of(path@))
                        })
                    } else {
                        old(self).as_map().remove(path@)
                    })
            },
    {
        match self.find(path) {
            None => Err(Error::NodeNotFound),
            Some(i) => {
                proof {
                    self.lemma_map_index(i as int);
                }
                if expected_version != -1i32 && expected_version != self.nodes[i].1.version {
                    return Err(Error::VersionMismatch);
                }
                if self.any_below(path) {
                    return Err(Error::NotEmpty);
                }
                let zx = self.zxid + 1;
                let ghost s0 = self.nodes@;
                let removed = self.nodes.remove(i);
                proof {
                    lemma_map_remove(s0, self.nodes@, i as int);
                    assert forall|a: int| 0 <= a < self.nodes@.len()
                        implies path_ok((#[trigger] self.nodes@[a]).0@)
                            && 0 <= self.nodes@[a].1.version && 0 <= self.nodes@[a].1.cversion by {
                        assert(self.nodes@ =~= s0.subrange(0, i as int)
                            + s0.subrange(i as int + 1, s0.len() as int));
                        let a0: int = if a < i as int { a } else { a + 1 };
                        assert(self.nodes@[a] == s0[a0]);
                    }
                    assert(map_of(self.nodes@).contains_key(root_path())
                        && map_of(self.nodes@)[root_path()].ephemeral_owner == 0) by {
                        assert(map_of(s0).remove(path@).contains_key(root_path()));
                    }
                }
                proof {
                    assert(path_ok(s0[i as int].0@));
                    lemma_parent_of_proper(path@);
                }
                let parent = parent_path(path);
                match self.find(&parent) {
                    None => {
                        self.zxid = zx;
                        proof {
                            assert(!old(self).as_map().contains_key(parent_of(path@))) by {
                                if old(self).as_map().contains_key(parent_of(path@)) {
                                    assert(map_of(s0).remove(path@).contains_key(parent_of(path@)));
                                }
                            }
                        }
                        Ok(())
                    },
                    Some(pi) => {
                        proof {
                            lemma_entry(self.nodes@, pi as int);
                            assert(map_of(s0).remove(path@).contains_key(parent_of(path@)));
                            assert(old(self).as_map().contains_key(parent_of(path@)));
                            assert(map_of(self.nodes@)[parent_of(path@)]
                                == old(self).as_map()[parent_of(path@)]);
                        }
                        let ghost s1 = self.nodes@;
                        let pcur = &self.nodes[pi].1;
                        let new_parent = Znode {
                            data: copy_bytes(&pcur.data),
                            czxid: pcur.czxid,
                            mzxid: pcur.mzxid,
                            ctime: pcur.ctime,
                            mtime: pcur.mtime,
                            version: pcur.version,
                            cversion: if pcur.cversion < i32::MAX { pcur.cversion + 1 } else { pcur.cversion },
                            ephemeral_owner: pcur.ephemeral_owner,
                            pzxid: zx,
                        };
                        let parent_key = copy_bytes(&self.nodes[pi].0);
                        self.nodes[pi] = (parent_key, new_parent);
                        self.zxid = zx;
                        proof {
                            lemma_map_update(s1, self.nodes@, pi as int, self.nodes@[pi as int]);
                            assert(self.nodes@[pi as int].0@ == parent_of(path@));
                            assert(self.nodes@[pi as int].1@ == ZnodeV {
                                cversion: bump_i32(old(self).node_of(parent_of(path@)).cversion),
                                pzxid: (old(self).zxid_spec() + 1) as i64,
                                ..old(self).node_of(parent_of(path@))
                            });
                            assert forall|a: int| 0 <= a < self.nodes@.len()
                                implies path_ok((#[trigger] self.nodes@[a]).0@)
                                    && 0 <= self.nodes@[a].1.version && 0 <= self.nodes@[a].1.cversion by {
                                if a != pi as int {
                                    assert(self.nodes@[a] == s1[a]);
                                }
                            }
                            assert(map_of(self.nodes@).contains_key(root_path())
                                && map_of(self.nodes@)[root_path()].ephemeral_owner == 0) by {
                                if parent_of(path@) == root_path() {
                                    assert(map_of(self.nodes@)[root_path()].ephemeral_owner
                                        == map_of(s1)[root_path()].ephemeral_owner);
                                }
                            }
                        }
                        Ok(())
                    },
                }
            },
        }
    }

    /// Whether stored entry `i` goes away when session `sid` ends: it is
    /// an ephemeral owned by `sid`, or lies below one.
    fn is_condemned(&self, i: usize, sid: i64) -> (r: bool)
        requires
            self.wf(),
            i < self.nodes@.len(),
        ensures
            r <==> condemned(self.as_map(), self.nodes@[i as int].0@, sid),
    {
        proof {
            self.lemma_map_index(i as int);
        }
        if self.nodes[i].1.ephemeral_owner == sid {
            return true;
        }
        let mut j: usize = 0;
        while j < self.nodes.len()
            invariant
                j <= self.nodes@.len(),
                self.wf(),
                i < self.nodes@.len(),
                forall|a: int| 0 <= a < j
                    ==> !((#[trigger] self.nodes@[a]).1.ephemeral_owner == sid
                        && under(self.nodes@[a].0@, self.nodes@[i as int].0@)),
            decreases self.nodes@.len() - j,
        {
            if self.nodes[j].1.ephemeral_owner == sid && under_exec(&self.nodes[j].0, &self.nodes[i].0) {
                proof {
                    self.lemma_map_index(j as int);
                    self.lemma_map_index(i as int);
                }
                return true;
            }
            j = j + 1;
        }
        proof {
            if condemned(self.as_map(), self.nodes@[i as int].0@, sid) {
                let a = choose|a: Seq<u8>| #[trigger] self.as_map().contains_key(a)
                    && self.as_map()[a].ephemeral_owner == sid
                    && under(a, self.nodes@[i as int].0@);
                let ja = choose|ja: int| 0 <= ja < self.nodes@.len()
                    && (#[trigger] self.nodes@[ja]).0@ == a;
                self.lemma_map_index(ja);
                assert(self.nodes@[ja].1.ephemeral_owner == sid
                    && under(self.nodes@[ja].0@, self.nodes@[i as int].0@));
            }
        }
        false
    }

    /// Ends a session on the server: every ephemeral node the session
    /// owns vanishes, together with everything below it; every other
    /// node survives unchanged.
    #[verifier::rlimit(100)]
    pub fn close_session(&mut self, session_id: i64)
        requires
            old(self).wf(),
            session_id != 0,
            old(self).zxid_spec() < i64::MAX,
        ensures
            final(self).wf(),
            final(self).zxid_spec() == old(self).zxid_spec() + 1,
            forall|q: Seq<u8>| final(self).as_map().contains_key(q)
                <==> (old(self).as_map().contains_key(q)
                    && !condemned(old(self).as_map(), q, session_id)),
            forall|q: Seq<u8>| #[trigger] final(self).as_map().contains_key(q)
                ==> final(self).as_map()[q] == old(self).as_map()[q],
    {
        let ghost m0 = old(self).as_map();
        let ghost s0 = old(self).nodes@;
        let mut kept: Vec<(Vec<u8>, Znode)> = Vec::new();
        let mut i: usize = 0;
        while i < self.nodes.len()
            invariant
                i <= s0.len(),
                *self == *old(self),
                old(self).wf(),
                s0 == old(self).nodes@,
                m0 == old(self).as_map(),
                forall|k1: int, k2: int| 0 <= k1 < k2 < kept@.len()
                    ==> (#[trigger] kept@[k1]).0@ != (#[trigger] kept@[k2]).0@,
                forall|k: int| 0 <= k < kept@.len() ==> kept_from(kept@, k, s0, i as int, m0, session_id),
                forall|j: int| 0 <= j < i && !condemned(m0, (#[trigger] s0[j]).0@, session_id)
                    ==> survives_into(s0, j, kept@),
            decreases s0.len() - i,
        {
            let doomed = self.is_condemned(i, session_id);
            if !doomed {
                let e = &self.nodes[i];
                let path_copy = copy_bytes(&e.0);
                let node_copy = Znode {
                    data: copy_bytes(&e.1.data),
                    czxid: e.1.czxid,
                    mzxid: e.1.mzxid,
                    ctime: e.1.ctime,
                    mtime: e.1.mtime,
                    version: e.1.version,
                    cversion: e.1.cversion,
                    ephemeral_owner: e.1.ephemeral_owner,
                    pzxid: e.1.pzxid,
                };
                proof {
                    assert forall|k: int| 0 <= k < kept@.len()
                        implies (#[trigger] kept@[k]).0@ != s0[i as int].0@ by {
                        assert(kept_from(kept@, k, s0, i as int, m0, session_id));
                        let j = choose|j: int| 0 <= j < i
                            && (#[trigger] s0[j]).0@ == kept@[k].0@
                            && s0[j].1@ == kept@[k].1@
                            && !condemned(m0, s0[j].0@, session_id);
                    }
                }
                let ghost pre = kept@;
                kept.push((path_copy, node_copy));
                proof {
                    let kl = pre.len() as int;
                    let up = i as int + 1;
                    assert(kept@[kl].0@ == s0[i as int].0@);
                    assert(kept@[kl].1@ == s0[i as int].1@);
                    assert forall|k: int| 0 <= k < kept@.len()
                        implies #[trigger] kept_from(kept@, k, s0, up, m0, session_id) by {
                        if k < kl {
                            assert(kept@[k] == pre[k]);
                            assert(kept_from(pre, k, s0, i as int, m0, session_id));
                            let j = choose|j: int| 0 <= j < i
                                && (#[trigger] s0[j]).0@ == pre[k].0@
                                && s0[j].1@ == pre[k].1@
                                && !condemned(m0, s0[j].0@, session_id);
                            assert(s0[j].0@ == kept@[k].0@ && s0[j].1@ == kept@[k].1@);
                        } else {
                            assert(s0[i as int].0@ == kept@[k].0@ && s0[i as int].1@ == kept@[k].1@);
                        }
                    }
                    assert forall|j: int| 0 <= j < i + 1 && !condemned(m0, (#[trigger] s0[j]).0@, session_id)
                        implies survives_into(s0, j, kept@) by {
                        if j < i {
                            assert(survives_into(s0, j, pre));
                            let k = choose|k: int| 0 <= k < pre.len()
                                && (#[trigger] pre[k]).0@ == s0[j].0@ && pre[k].1@ == s0[j].1@;
                            assert(kept@[k] == pre[k]);
                            assert(kept@[k].0@ == s0[j].0@ && kept@[k].1@ == s0[j].1@);
                        } else {
                            assert(kept@[kl].0@ == s0[j].0@ && kept@[kl].1@ == s0[j].1@);
                        }
                    }
                }
            } else {
                proof {
                    let up = i as int + 1;
                    assert forall|k: int| 0 <= k < kept@.len()
                        implies #[trigger] kept_from(kept@, k, s0, up, m0, session_id) by {
                        assert(kept_from(kept@, k, s0, i as int, m0, session_id));
                        let j = choose|j: int| 0 <= j < i
                            && (#[trigger] s0[j]).0@ == kept@[k].0@
                            && s0[j].1@ == kept@[k].1@
                            && !condemned(m0, s0[j].0@, session_id);
                        assert(0 <= j < up && s0[j].0@ == kept@[k].0@ && s0[j].1@ == kept@[k].1@
                            && !condemned(m0, s0[j].0@, session_id));
                    }
                }
            }
            i = i + 1;
        }
        self.nodes = kept;
        self.zxid = self.zxid + 1;
        proof {
            let s1 = self.nodes@;
            let m1 = map_of(s1);
            assert forall|q: Seq<u8>| #[trigger] m1.contains_key(q)
                implies m0.contains_key(q) && !condemned(m0, q, session_id) && m1[q] == m0[q] by {
                let k = choose|k: int| 0 <= k < s1.len() && (#[trigger] s1[k]).0@ == q;
                lemma_entry(s1, k);
                assert(kept_from(s1, k, s0, s0.len() as int, m0, session_id));
                let j = choose|j: int| 0 <= j < s0.len()
                    && (#[trigger] s0[j]).0@ == s1[k].0@
                    && s0[j].1@ == s1[k].1@
                    && !condemned(m0, s0[j].0@, session_id);
                old(self).lemma_map_index(j);
            }
            assert forall|q: Seq<u8>| m0.contains_key(q) && !condemned(m0, q, session_id)
                implies m1.contains_key(q) by {
                let j = choose|j: int| 0 <= j < s0.len() && (#[trigger] s0[j]).0@ == q;
                assert(survives_into(s0, j, s1));
                let k = choose|k: int| 0 <= k < s1.len()
                    && (#[trigger] s1[k]).0@ == s0[j].0@ && s1[k].1@ == s0[j].1@;
                assert(s1[k].0@ == q);
            }
            assert forall|a: int| 0 <= a < s1.len()
                implies path_ok((#[trigger] s1[a]).0@)
                    && 0 <= s1[a].1.version && 0 <= s1[a].1.cversion by {
                assert(kept_from(s1, a, s0, s0.len() as int, m0, session_id));
                let j = choose|j: int| 0 <= j < s0.len()
                    && (#[trigger] s0[j]).0@ == s1[a].0@
                    && s0[j].1@ == s1[a].1@
                    && !condemned(m0, s0[j].0@, session_id);
            }
            assert(m1.contains_key(root_path()) && m1[root_path()].ephemeral_owner == 0) by {
                assert(!condemned(m0, root_path(), session_id)) by {
                    if condemned(m0, root_path(), session_id) {
                        let a = choose|a: Seq<u8>| #[trigger] m0.contains_key(a)
                            && m0[a].ephemeral_owner == session_id && under(a, root_path());
                        assert(base_of(a).len() >= 1);
                    }
                }
            }
        }
    }

    /// Lists the full paths of the direct children of `path`: every
    /// returned path is a stored child, and every stored child is
    /// returned.
    #[verifier::rlimit(100)]
    pub fn get_children(&self, path: &Vec<u8>) -> (r: Result<Vec<Vec<u8>>, Error>)
        requires
            self.wf(),
        ensures
            r is Ok <==> self.has_path(path@),
            r is Err ==> r->Err_0 == Error::NodeNotFound,
            r is Ok ==> forall|k: int| 0 <= k < r->Ok_0@.len()
                ==> self.as_map().contains_key((#[trigger] r->Ok_0@[k])@)
                    && child_of(path@, r->Ok_0@[k]@),
            r is Ok ==> forall|q: Seq<u8>| self.as_map().contains_key(q) && child_of(path@, q)
                ==> listed(r->Ok_0@, q),
    {
        match self.find(path) {
            None => Err(Error::NodeNotFound),
            Some(fi) => {
                proof {
                    self.lemma_map_index_weak(fi as int);
                }
                let mut out: Vec<Vec<u8>> = Vec::new();
                let mut i: usize = 0;
                while i < self.nodes.len()
                    invariant
                        i <= self.nodes@.len(),
                        forall|k: int| 0 <= k < out@.len()
                            ==> self.as_map().contains_key((#[trigger] out@[k])@)
                                && child_of(path@, out@[k]@),
                        forall|j: int| 0 <= j < i && child_of(path@, (#[trigger] self.nodes@[j]).0@)
                            ==> listed(out@, self.nodes@[j].0@),
                    decreases self.nodes@.len() - i,
                {
                    if self.is_child_exec(path, i) {
                        proof {
                            self.lemma_map_index_weak(i as int);
                        }
                        let ghost pre = out@;
                        out.push(copy_bytes(&self.nodes[i].0));
                        proof {
                            assert(out@[pre.len() as int]@ == self.nodes@[i as int].0@);
                            assert forall|j: int| 0 <= j < i + 1 && child_of(path@, (#[trigger] self.nodes@[j]).0@)
                                implies listed(out@, self.nodes@[j].0@) by {
                                if j < i {
                                    let k = choose|k: int| 0 <= k < pre.len()
                                        && (#[trigger] pre[k])@ == self.nodes@[j].0@;
                                    assert(out@[k]@ == self.nodes@[j].0@);
                                } else {
                                    assert(out@[pre.len() as int]@ == self.nodes@[j].0@);
                                }
                            }
                        }
                    }
                    i = i + 1;
                }
                proof {
                    assert forall|q: Seq<u8>| self.as_map().contains_key(q) && child_of(path@, q)
                        implies listed(out@, q) by {
                        let j = choose|j: int| 0 <= j < self.nodes@.len()
                            && (#[trigger] self.nodes@[j]).0@ == q;
                        assert(child_of(path@, self.nodes@[j].0@));
                    }
                }
                Ok(out)
            },
        }
    }

    /// The data held at `path`, with its stat.
    pub fn get_data(&self, path: &Vec<u8>) -> (r: Result<(Vec<u8>, Stat), Error>)
        requires
            self.wf(),
        ensures
            r is Ok <==> self.has_path(path@),
            r is Ok ==> r->Ok_0.0@ == self.node_of(path@).data
                && r->Ok_0.1.version == self.node_of(path@).version,
            r is Err ==> r->Err_0 == Error::NodeNotFound,
    {
        match self.find(path) {
            None => Err(Error::NodeNotFound),
            Some(i) => {
                proof {
                    self.lemma_map_index(i as int);
                }
                let data = copy_bytes(&self.nodes[i].1.data);
                match self.stat_of(path) {
                    Some(st) => Ok((data, st)),
                    None => Err(Error::NodeNotFound),
                }
            },
        }
    }
}

} // verus!
