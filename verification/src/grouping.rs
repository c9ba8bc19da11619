//! Clustering photos into variant groups via union-find over pairwise
//! Hamming distances.
use vstd::prelude::*;
use vstd::utf8::*;
use crate::{Group, Photo};
use crate::paths::{path_lt, path_precedes};
use crate::hashing::{Hash256, HexError, decode_hash, photo_distance, hamming, hash_from_hex, lemma_hamming_symmetric, lemma_decoded_len};

verus! {

/// Max Hamming distance (out of 256 bits) for two photos to be considered
/// variants of the same shot. On real deliveries true variants matched at
/// 60 or less while the nearest false pair was 102 or more.
pub const DEFAULT_THRESHOLD: u32 = 60;

// ---------------------------------------------------------------------------
// Union-find
// ---------------------------------------------------------------------------

/// Parent links that always lead to a root: every non-root element has a
/// parent of strictly smaller (ghost) rank.
#[verifier::opaque]
pub open spec fn chain_ok(p: Seq<usize>, rk: Seq<nat>) -> bool {
    &&& p.len() == rk.len()
    &&& forall|i: int| 0 <= i < p.len() ==> (#[trigger] p[i]) < p.len()
    &&& forall|i: int| 0 <= i < p.len() && p[i] != i ==> rk[p[i] as int] < #[trigger] rk[i]
}

/// The root reached from `i` by following parent links.
#[verifier::opaque]
pub open spec fn root_of(p: Seq<usize>, rk: Seq<nat>, i: int) -> int
    decreases rk[i],
    when chain_ok(p, rk) && 0 <= i < p.len()
{
    if p[i] == i {
        i
    } else {
        proof {
            reveal(chain_ok);
        }
        root_of(p, rk, p[i] as int)
    }
}

/// A disjoint-set forest over the elements `0..n`.
pub struct UnionFind {
    parent: Vec<usize>,
    rank: Ghost<Seq<nat>>,
}

proof fn lemma_root_facts(p: Seq<usize>, rk: Seq<nat>, i: int)
    requires
        chain_ok(p, rk),
        0 <= i < p.len(),
    ensures
        p[i] < p.len(),
        p[i] != i ==> rk[p[i] as int] < rk[i],
        0 <= root_of(p, rk, i) < p.len(),
        p[root_of(p, rk, i)] == root_of(p, rk, i),
        p[i] != i ==> root_of(p, rk, i) == root_of(p, rk, p[i] as int),
        p[i] == i ==> root_of(p, rk, i) == i,
    decreases rk[i],
{
    reveal(chain_ok);
    reveal(root_of);
    if p[i] != i {
        lemma_root_facts(p, rk, p[i] as int);
    }
}

/// Path halving (pointing `a` at its grandparent) keeps every root.
proof fn lemma_halving(p: Seq<usize>, rk: Seq<nat>, a: int, x: int)
    requires
        chain_ok(p, rk),
        0 <= a < p.len(),
        0 <= x < p.len(),
    ensures
        chain_ok(p.update(a, p[p[a] as int]), rk),
        root_of(p.update(a, p[p[a] as int]), rk, x) == root_of(p, rk, x),
    decreases rk[x],
{
    let q = p.update(a, p[p[a] as int]);
    reveal(chain_ok);
    reveal(root_of);
    assert(chain_ok(q, rk)) by {
        assert forall|i: int| 0 <= i < q.len() && q[i] != i implies rk[q[i] as int] < #[trigger] rk[i] by {
            if i == a {
                let pa = p[a] as int;
                if p[pa] != pa {
                    assert(rk[p[pa] as int] < rk[pa]);
                }
            }
        }
    }
    lemma_root_facts(p, rk, x);
    lemma_root_facts(q, rk, x);
    if x == a {
        let pa = p[a] as int;
        if p[a] != a {
            lemma_root_facts(p, rk, pa);
            if p[pa] != pa {
                lemma_halving(p, rk, a, p[pa] as int);
            } else {
                lemma_halving(p, rk, a, pa);
            }
        }
    } else if p[x] != x {
        lemma_halving(p, rk, a, p[x] as int);
    }
}

/// Path halving keeps every root (all elements at once).
proof fn lemma_halving_all(p: Seq<usize>, rk: Seq<nat>, a: int)
    requires
        chain_ok(p, rk),
        0 <= a < p.len(),
    ensures
        chain_ok(p.update(a, p[p[a] as int]), rk),
        forall|y: int| 0 <= y < p.len() ==> #[trigger] root_of(p.update(a, p[p[a] as int]), rk, y) == root_of(p, rk, y),
{
    lemma_halving(p, rk, a, a);
    assert forall|y: int| 0 <= y < p.len() implies #[trigger] root_of(p.update(a, p[p[a] as int]), rk, y) == root_of(p, rk, y) by {
        lemma_halving(p, rk, a, y);
    }
}

/// The ranks after linking root `ra` under root `rb`: the whole tree of `ra`
/// is lifted above `rb`.
pub open spec fn lifted_ranks(p: Seq<usize>, rk: Seq<nat>, ra: int, rb: int) -> Seq<nat> {
    Seq::new(rk.len(), |x: int| if root_of(p, rk, x) == ra { rk[x] + rk[rb] + 1 } else { rk[x] })
}

/// Linking root `ra` under a different root `rb` moves exactly the elements
/// rooted at `ra` to `rb`.
proof fn lemma_link(p: Seq<usize>, rk: Seq<nat>, ra: int, rb: int, x: int)
    requires
        chain_ok(p, rk),
        0 <= ra < p.len(),
        0 <= rb < p.len(),
        p[ra] == ra,
        p[rb] == rb,
        ra != rb,
        0 <= x < p.len(),
    ensures
        chain_ok(p.update(ra, rb as usize), lifted_ranks(p, rk, ra, rb)),
        root_of(p.update(ra, rb as usize), lifted_ranks(p, rk, ra, rb), x)
            == if root_of(p, rk, x) == ra { rb } else { root_of(p, rk, x) },
    decreases rk[x],
{
    let q = p.update(ra, rb as usize);
    let rk2 = lifted_ranks(p, rk, ra, rb);
    reveal(chain_ok);
    reveal(root_of);
    lemma_root_facts(p, rk, ra);
    lemma_root_facts(p, rk, rb);
    assert(chain_ok(q, rk2)) by {
        assert forall|i: int| 0 <= i < q.len() && q[i] != i implies rk2[q[i] as int] < #[trigger] rk2[i] by {
            lemma_root_facts(p, rk, i);
            if i != ra {
                lemma_root_facts(p, rk, p[i] as int);
            }
        }
    }
    lemma_root_facts(p, rk, x);
    lemma_root_facts(q, rk2, x);
    if x == ra {
        lemma_root_facts(q, rk2, rb);
    } else if p[x] != x {
        lemma_link(p, rk, ra, rb, p[x] as int);
    }
}

impl UnionFind {
    /// The forest is well formed: parent links stay in range and lead to a
    /// root.
    pub closed spec fn wf(&self) -> bool {
        chain_ok(self.parent@, self.rank@)
    }

    /// Number of elements.
    pub closed spec fn size(&self) -> nat {
        self.parent@.len()
    }

    /// The representative (root) of each element.
    pub closed spec fn roots(&self) -> Seq<int> {
        Seq::new(self.parent@.len(), |i: int| root_of(self.parent@, self.rank@, i))
    }

    /// `n` singleton sets.
    pub fn new(n: usize) -> (uf: Self)
        ensures
            uf.wf(),
            uf.size() == n,
            uf.roots() == Seq::new(n as nat, |i: int| i),
    {
        let mut parent: Vec<usize> = Vec::new();
        let mut i: usize = 0;
        while i < n
            invariant
                i <= n,
                parent@.len() == i,
                forall|k: int| 0 <= k < i ==> parent@[k] == k,
            decreases n - i,
        {
            parent.push(i);
            i = i + 1;
        }
        let uf = UnionFind { parent, rank: Ghost(Seq::new(n as nat, |k: int| 0nat)) };
        proof {
            reveal(chain_ok);
            assert forall|k: int| 0 <= k < n implies root_of(uf.parent@, uf.rank@, k) == k by {
                lemma_root_facts(uf.parent@, uf.rank@, k);
            }
            assert(uf.roots() =~= Seq::new(n as nat, |i: int| i));
        }
        uf
    }

    /// Every representative is an element, and is its own representative.
    pub proof fn lemma_roots_in_range(&self)
        requires
            self.wf(),
        ensures
            self.roots().len() == self.size(),
            forall|x: int| 0 <= x < self.size() ==> 0 <= #[trigger] self.roots()[x] < self.size(),
            forall|x: int| 0 <= x < self.size() ==> self.roots()[#[trigger] self.roots()[x]] == self.roots()[x],
    {
        assert forall|x: int| 0 <= x < self.size() implies 0 <= #[trigger] self.roots()[x] < self.size()
            && self.roots()[self.roots()[x]] == self.roots()[x] by {
            lemma_root_facts(self.parent@, self.rank@, x);
            let r = root_of(self.parent@, self.rank@, x);
            lemma_root_facts(self.parent@, self.rank@, r);
        }
    }

    /// The representative of `a`'s set (path halving on the way up).
    pub fn find(&mut self, a: usize) -> (r: usize)
        requires
            old(self).wf(),
            a < old(self).size(),
        ensures
            final(self).wf(),
            final(self).size() == old(self).size(),
            final(self).roots() == old(self).roots(),
            r == old(self).roots()[a as int],
    {
        let ghost p0 = self.parent@;
        let ghost rk = self.rank@;
        let mut x = a;
        proof {
            lemma_root_facts(p0, rk, a as int);
        }
        while self.parent[x] != x
            invariant
                chain_ok(self.parent@, rk),
                self.rank@ == rk,
                self.parent@.len() == p0.len(),
                x < p0.len(),
                root_of(self.parent@, rk, x as int) == root_of(p0, rk, a as int),
                forall|y: int| 0 <= y < p0.len() ==> root_of(self.parent@, rk, y) == root_of(p0, rk, y),
            decreases rk[x as int],
        {
            let ghost p = self.parent@;
            proof {
                lemma_root_facts(p, rk, x as int);
            }
            let px = self.parent[x];
            proof {
                lemma_halving_all(p, rk, x as int);
                lemma_root_facts(p, rk, px as int);
            }
            let gp = self.parent[px];
            self.parent.set(x, gp);
            proof {
                assert(self.parent@ == p.update(x as int, p[p[x as int] as int]));
                assert(root_of(self.parent@, rk, gp as int) == root_of(p, rk, gp as int));
            }
            x = gp;
        }
        proof {
            lemma_root_facts(self.parent@, rk, x as int);
            assert(self.roots() =~= old(self).roots());
        }
        x
    }

    /// Merge the sets of `a` and `b`: the root of `a` is linked under the
    /// root of `b`.
    pub fn union(&mut self, a: usize, b: usize)
        requires
            old(self).wf(),
            a < old(self).size(),
            b < old(self).size(),
        ensures
            final(self).wf(),
            final(self).size() == old(self).size(),
            final(self).roots() == old(self).roots().map_values(
                |r: int| if r == old(self).roots()[a as int] { old(self).roots()[b as int] } else { r },
            ),
    {
        let ghost before = self.roots();
        let ra = self.find(a);
        let rb = self.find(b);
        if ra != rb {
            let ghost p = self.parent@;
            let ghost rk = self.rank@;
            proof {
                lemma_root_facts(p, rk, a as int);
                lemma_root_facts(p, rk, b as int);
                assert forall|x: int| 0 <= x < p.len() implies
                    root_of(p.update(ra as int, rb), lifted_ranks(p, rk, ra as int, rb as int), x)
                        == if root_of(p, rk, x) == ra { rb as int } else { root_of(p, rk, x) } by {
                    lemma_link(p, rk, ra as int, rb as int, x);
                }
                lemma_link(p, rk, ra as int, rb as int, 0);
            }
            self.parent.set(ra, rb);
            self.rank = Ghost(lifted_ranks(p, rk, ra as int, rb as int));
        }
        proof {
            assert(self.roots() =~= before.map_values(
                |r: int| if r == before[a as int] { before[b as int] } else { r },
            ));
        }
    }
}

} // verus!

verus! {

// ---------------------------------------------------------------------------
// The clustering rule
// ---------------------------------------------------------------------------

/// Photos `i` and `j` are within `t` of each other (distance as
/// `hashing::distance` measures it).
#[verifier::opaque]
pub open spec fn close(ph: Seq<Photo>, t: nat, i: int, j: int) -> bool {
    photo_distance(ph[i], ph[j]) matches Ok(d) && d <= t
}

/// `path` is a walk over photo indices where each step joins two photos
/// within `t` of each other.
pub open spec fn is_chain(ph: Seq<Photo>, t: nat, path: Seq<int>) -> bool {
    &&& path.len() > 0
    &&& forall|m: int| 0 <= m < path.len() ==> 0 <= #[trigger] path[m] < ph.len()
    &&& forall|m: int| 0 <= m < path.len() - 1 ==> close(ph, t, #[trigger] path[m], path[m + 1])
}

/// Photos `i` and `j` are linked by a chain of photos each within `t` of
/// the next.
pub open spec fn connected(ph: Seq<Photo>, t: nat, i: int, j: int) -> bool {
    exists|path: Seq<int>| #[trigger] is_chain(ph, t, path) && path[0] == i && path.last() == j
}

/// Both hashes of every photo decode.
pub open spec fn all_decode(ph: Seq<Photo>) -> bool {
    forall|k: int| 0 <= k < ph.len() ==> (#[trigger] decode_hash(encode_utf8(ph[k].hash_full@))) is Ok
        && decode_hash(encode_utf8(ph[k].hash_cropped@)) is Ok
}

/// The first decoding error, photos in order and the full-frame hash before
/// the cropped one.
pub open spec fn decode_error(ph: Seq<Photo>) -> Option<HexError>
    decreases ph.len(),
{
    if ph.len() == 0 {
        None
    } else if decode_hash(encode_utf8(ph[0].hash_full@)) is Err {
        Some(decode_hash(encode_utf8(ph[0].hash_full@))->Err_0)
    } else if decode_hash(encode_utf8(ph[0].hash_cropped@)) is Err {
        Some(decode_hash(encode_utf8(ph[0].hash_cropped@))->Err_0)
    } else {
        decode_error(ph.drop_first())
    }
}

proof fn lemma_close_symmetric(ph: Seq<Photo>, t: nat, i: int, j: int)
    requires
        all_decode(ph),
        0 <= i < ph.len(),
        0 <= j < ph.len(),
    ensures
        close(ph, t, i, j) == close(ph, t, j, i),
{
    let fi = decode_hash(encode_utf8(ph[i].hash_full@))->Ok_0;
    let fj = decode_hash(encode_utf8(ph[j].hash_full@))->Ok_0;
    let ci = decode_hash(encode_utf8(ph[i].hash_cropped@))->Ok_0;
    let cj = decode_hash(encode_utf8(ph[j].hash_cropped@))->Ok_0;
    assert(decode_hash(encode_utf8(ph[i].hash_full@)) is Ok);
    assert(decode_hash(encode_utf8(ph[j].hash_full@)) is Ok);
    lemma_decoded_len(encode_utf8(ph[i].hash_full@));
    lemma_decoded_len(encode_utf8(ph[j].hash_full@));
    lemma_decoded_len(encode_utf8(ph[i].hash_cropped@));
    lemma_decoded_len(encode_utf8(ph[j].hash_cropped@));
    lemma_hamming_symmetric(fi, fj);
    lemma_hamming_symmetric(ci, cj);
    reveal(close);
}

proof fn lemma_chain_single(ph: Seq<Photo>, t: nat, i: int)
    requires
        0 <= i < ph.len(),
    ensures
        connected(ph, t, i, i),
{
    let path = seq![i];
    assert(is_chain(ph, t, path));
}

proof fn lemma_chain_edge(ph: Seq<Photo>, t: nat, i: int, j: int)
    requires
        0 <= i < ph.len(),
        0 <= j < ph.len(),
        close(ph, t, i, j),
    ensures
        connected(ph, t, i, j),
{
    let path = seq![i, j];
    assert(is_chain(ph, t, path));
}

proof fn lemma_chain_join(ph: Seq<Photo>, t: nat, i: int, j: int, k: int)
    requires
        connected(ph, t, i, j),
        connected(ph, t, j, k),
    ensures
        connected(ph, t, i, k),
{
    let p1 = choose|path: Seq<int>| #[trigger] is_chain(ph, t, path) && path[0] == i && path.last() == j;
    let p2 = choose|path: Seq<int>| #[trigger] is_chain(ph, t, path) && path[0] == j && path.last() == k;
    let p = p1 + p2.drop_first();
    assert forall|m: int| 0 <= m < p.len() implies 0 <= #[trigger] p[m] < ph.len() by {
        if m >= p1.len() {
            assert(p[m] == p2[m - p1.len() + 1]);
        }
    }
    assert forall|m: int| 0 <= m < p.len() - 1 implies close(ph, t, #[trigger] p[m], p[m + 1]) by {
        if m < p1.len() - 1 {
            assert(p[m] == p1[m] && p[m + 1] == p1[m + 1]);
        } else if m == p1.len() - 1 {
            assert(p[m] == p2[0] && p[m + 1] == p2[1]);
        } else {
            assert(p[m] == p2[m - p1.len() + 1] && p[m + 1] == p2[m - p1.len() + 2]);
        }
    }
    assert(is_chain(ph, t, p));
    if p2.len() == 1 {
        assert(p.last() == p1.last());
    } else {
        assert(p.last() == p2.last());
    }
}

proof fn lemma_chain_reverse(ph: Seq<Photo>, t: nat, i: int, j: int)
    requires
        all_decode(ph),
        connected(ph, t, i, j),
    ensures
        connected(ph, t, j, i),
{
    let p = choose|path: Seq<int>| #[trigger] is_chain(ph, t, path) && path[0] == i && path.last() == j;
    let r = p.reverse();
    assert forall|m: int| 0 <= m < r.len() implies 0 <= #[trigger] r[m] < ph.len() by {
        assert(r[m] == p[p.len() - 1 - m]);
    }
    assert forall|m: int| 0 <= m < r.len() - 1 implies close(ph, t, #[trigger] r[m], r[m + 1]) by {
        let a = p.len() - 2 - m;
        assert(r[m] == p[a + 1] && r[m + 1] == p[a]);
        assert(close(ph, t, p[a], p[a + 1]));
        lemma_close_symmetric(ph, t, p[a], p[a + 1]);
    }
    assert(is_chain(ph, t, r));
    assert(r[0] == j);
    assert(r.last() == i);
}

} // verus!

verus! {

/// The decoded hashes stand for the photos' hash texts.
pub open spec fn decoded_from(hs: Seq<(Hash256, Hash256)>, ph: Seq<Photo>) -> bool {
    &&& hs.len() == ph.len()
    &&& forall|k: int| 0 <= k < ph.len() ==> decode_hash(encode_utf8(ph[k].hash_full@)) == Ok::<Seq<u64>, HexError>(#[trigger] hs[k].0@)
    &&& forall|k: int| 0 <= k < ph.len() ==> decode_hash(encode_utf8(ph[k].hash_cropped@)) == Ok::<Seq<u64>, HexError>(#[trigger] hs[k].1@)
}

/// Distance of two decoded photos, as `hashing::distance` computes it.
fn pair_distance(hs: &Vec<(Hash256, Hash256)>, photos: &[Photo], i: usize, j: usize, t: u32) -> (close_enough: bool)
    requires
        decoded_from(hs@, photos@),
        i < photos@.len(),
        j < photos@.len(),
    ensures
        close_enough == close(photos@, t as nat, i as int, j as int),
{
    let d_full = hamming(&hs[i].0, &hs[j].0);
    let d_crop = hamming(&hs[i].1, &hs[j].1);
    let d = if d_full <= d_crop { d_full } else { d_crop };
    proof {
        reveal(close);
        assert(hs@[i as int].0@ == hs[i as int].0@);
    }
    d <= t
}

/// Union every pair of photos within `t` of each other. Afterwards two
/// photos share a representative exactly when a chain of close photos links
/// them.
fn link_close_pairs(hs: &Vec<(Hash256, Hash256)>, photos: &[Photo], t: u32) -> (uf: UnionFind)
    requires
        decoded_from(hs@, photos@),
    ensures
        uf.wf(),
        uf.size() == photos@.len(),
        forall|x: int, y: int| 0 <= x < photos@.len() && 0 <= y < photos@.len()
            ==> (uf.roots()[x] == uf.roots()[y] <==> connected(photos@, t as nat, x, y)),
{
    let ghost ph = photos@;
    let ghost tt = t as nat;
    let n = photos.len();
    let mut uf = UnionFind::new(n);
    proof {
        assert forall|x: int| 0 <= x < n implies connected(ph, tt, x, #[trigger] uf.roots()[x]) by {
            lemma_chain_single(ph, tt, x);
        }
        assert forall|k: int| 0 <= k < ph.len() implies (#[trigger] decode_hash(encode_utf8(ph[k].hash_full@))) is Ok
            && decode_hash(encode_utf8(ph[k].hash_cropped@)) is Ok by {
            assert(decode_hash(encode_utf8(ph[k].hash_full@)) == Ok::<Seq<u64>, HexError>(hs@[k].0@));
            assert(decode_hash(encode_utf8(ph[k].hash_cropped@)) == Ok::<Seq<u64>, HexError>(hs@[k].1@));
        }
    }
    let mut i: usize = 0;
    while i < n
        invariant
            n == ph.len(),
            ph == photos@,
            tt == t as nat,
            decoded_from(hs@, ph),
            all_decode(ph),
            i <= n,
            uf.wf(),
            uf.size() == n,
            forall|x: int| 0 <= x < n ==> connected(ph, tt, x, #[trigger] uf.roots()[x]),
            forall|x: int, y: int| 0 <= x < y < n && x < i && close(ph, tt, x, y)
                ==> #[trigger] uf.roots()[x] == #[trigger] uf.roots()[y],
        decreases n - i,
    {
        let mut j: usize = i + 1;
        while j < n
            invariant
                n == ph.len(),
                ph == photos@,
                tt == t as nat,
                decoded_from(hs@, ph),
                all_decode(ph),
                i < n,
                i + 1 <= j <= n,
                uf.wf(),
                uf.size() == n,
                forall|x: int| 0 <= x < n ==> connected(ph, tt, x, #[trigger] uf.roots()[x]),
                forall|x: int, y: int| 0 <= x < y < n && (x < i || (x == i && y < j)) && close(ph, tt, x, y)
                    ==> #[trigger] uf.roots()[x] == #[trigger] uf.roots()[y],
            decreases n - j,
        {
            if pair_distance(hs, photos, i, j, t) {
                let ghost r0 = uf.roots();
                proof {
                    uf.lemma_roots_in_range();
                }
                uf.union(i, j);
                proof {
                    let ra = r0[i as int];
                    let rb = r0[j as int];
                    let r1 = uf.roots();
                    assert(r1 == r0.map_values(|r: int| if r == ra { rb } else { r }));
                    assert forall|x: int| 0 <= x < n implies connected(ph, tt, x, #[trigger] uf.roots()[x]) by {
                        assert(r1[x] == (if r0[x] == ra { rb } else { r0[x] }));
                        if r0[x] == ra {
                            assert(connected(ph, tt, x, r0[x]));
                            assert(connected(ph, tt, i as int, r0[i as int]));
                            lemma_chain_reverse(ph, tt, i as int, ra);
                            lemma_chain_join(ph, tt, x, ra, i as int);
                            lemma_chain_edge(ph, tt, i as int, j as int);
                            lemma_chain_join(ph, tt, x, i as int, j as int);
                            assert(connected(ph, tt, j as int, r0[j as int]));
                            lemma_chain_join(ph, tt, x, j as int, rb);
                        }
                    }
                    assert forall|x: int, y: int| 0 <= x < y < n && (x < i || (x == i && y < j + 1)) && close(ph, tt, x, y)
                        implies #[trigger] uf.roots()[x] == #[trigger] uf.roots()[y] by {
                        assert(r1[x] == (if r0[x] == ra { rb } else { r0[x] }));
                        assert(r1[y] == (if r0[y] == ra { rb } else { r0[y] }));
                        if x == i && y == j {
                        } else {
                            assert(r0[x] == r0[y]);
                        }
                    }
                }
            }
            j = j + 1;
        }
        i = i + 1;
    }
    proof {
        uf.lemma_roots_in_range();
        let r = uf.roots();
        assert forall|x: int, y: int| 0 <= x < n && 0 <= y < n
            implies (r[x] == r[y] <==> connected(ph, tt, x, y)) by {
            if r[x] == r[y] {
                assert(connected(ph, tt, y, r[y]));
                lemma_chain_reverse(ph, tt, y, r[y]);
                lemma_chain_join(ph, tt, x, r[x], y);
            }
            if connected(ph, tt, x, y) {
                let path = choose|path: Seq<int>| #[trigger] is_chain(ph, tt, path) && path[0] == x && path.last() == y;
                lemma_chain_same_root(ph, tt, r, path);
            }
        }
    }
    uf
}

/// Along a chain of close photos, all photos share a representative when
/// every close pair does.
proof fn lemma_chain_same_root(ph: Seq<Photo>, t: nat, r: Seq<int>, path: Seq<int>)
    requires
        all_decode(ph),
        r.len() == ph.len(),
        is_chain(ph, t, path),
        forall|x: int, y: int| 0 <= x < y < ph.len() && close(ph, t, x, y)
            ==> #[trigger] r[x] == #[trigger] r[y],
    ensures
        r[path[0]] == r[path.last()],
    decreases path.len(),
{
    if path.len() > 1 {
        let rest = path.drop_first();
        assert(is_chain(ph, t, rest)) by {
            assert forall|m: int| 0 <= m < rest.len() implies 0 <= #[trigger] rest[m] < ph.len() by {
                assert(rest[m] == path[m + 1]);
            }
            assert forall|m: int| 0 <= m < rest.len() - 1 implies close(ph, t, #[trigger] rest[m], rest[m + 1]) by {
                assert(rest[m] == path[m + 1] && rest[m + 1] == path[m + 2]);
            }
        }
        lemma_chain_same_root(ph, t, r, rest);
        let a = path[0];
        let b = path[1];
        assert(close(ph, t, a, b));
        assert(0 <= a < ph.len() && 0 <= b < ph.len());
        if a < b {
            assert(r[a] == r[b]);
        } else if b < a {
            lemma_close_symmetric(ph, t, a, b);
            assert(r[b] == r[a]);
        }
        assert(rest[0] == b);
        assert(rest.last() == path.last());
    }
}

} // verus!

verus! {

proof fn lemma_decode_error_step(ph: Seq<Photo>, k: int)
    requires
        0 <= k < ph.len(),
    ensures
        ph.skip(k)[0] == ph[k],
        ph.skip(k).drop_first() =~= ph.skip(k + 1),
{
}

/// Decode both hashes of every photo, stopping at the first failure.
fn decode_all(photos: &[Photo]) -> (r: Result<Vec<(Hash256, Hash256)>, HexError>)
    ensures
        match r {
            Ok(hs) => decoded_from(hs@, photos@) && decode_error(photos@) is None,
            Err(e) => decode_error(photos@) == Some(e),
        },
{
    let ghost ph = photos@;
    let mut hs: Vec<(Hash256, Hash256)> = Vec::new();
    let mut k: usize = 0;
    proof {
        assert(ph.skip(0) =~= ph);
    }
    while k < photos.len()
        invariant
            ph == photos@,
            k <= ph.len(),
            hs@.len() == k,
            forall|j: int| 0 <= j < k ==> decode_hash(encode_utf8(ph[j].hash_full@)) == Ok::<Seq<u64>, HexError>(#[trigger] hs@[j].0@),
            forall|j: int| 0 <= j < k ==> decode_hash(encode_utf8(ph[j].hash_cropped@)) == Ok::<Seq<u64>, HexError>(#[trigger] hs@[j].1@),
            decode_error(ph) == decode_error(ph.skip(k as int)),
        decreases ph.len() - k,
    {
        proof {
            lemma_decode_error_step(ph, k as int);
        }
        let full = hash_from_hex(photos[k].hash_full.as_str());
        let full = match full {
            Ok(h) => h,
            Err(e) => {
                return Err(e);
            },
        };
        let crop = hash_from_hex(photos[k].hash_cropped.as_str());
        let crop = match crop {
            Ok(h) => h,
            Err(e) => {
                return Err(e);
            },
        };
        hs.push((full, crop));
        k = k + 1;
    }
    proof {
        assert(ph.skip(k as int).len() == 0);
    }
    Ok(hs)
}

/// The groups of `b` as sequences of indices.
pub open spec fn idx_view(b: Seq<Vec<usize>>) -> Seq<Seq<usize>> {
    b.map_values(|v: Vec<usize>| v@)
}

/// `b` lists, for each representative in increasing order, the elements
/// with that representative (in increasing order).
pub open spec fn root_partition(b: Seq<Seq<usize>>, r: Seq<usize>) -> bool {
    &&& forall|g: int| 0 <= g < b.len() ==> #[trigger] b[g].len() > 0
    &&& forall|g: int, m: int| 0 <= g < b.len() && 0 <= m < b[g].len() ==> #[trigger] b[g][m] < r.len()
    &&& forall|g: int, m1: int, m2: int| 0 <= g < b.len() && 0 <= m1 < m2 < b[g].len()
            ==> #[trigger] b[g][m1] < #[trigger] b[g][m2]
    &&& forall|g: int, m: int| 0 <= g < b.len() && 0 <= m < b[g].len()
            ==> r[#[trigger] b[g][m] as int] == r[b[g][0] as int]
    &&& forall|g1: int, g2: int| 0 <= g1 < b.len() && 0 <= g2 < b.len() && g1 != g2
            ==> r[#[trigger] b[g1][0] as int] != r[#[trigger] b[g2][0] as int]
    &&& forall|k: int| 0 <= k < r.len() ==> #[trigger] in_some_group(b, k)
}

/// Element `k` is listed in some group of `b`.
pub open spec fn in_some_group(b: Seq<Seq<usize>>, k: int) -> bool {
    exists|g: int, m: int| 0 <= g < b.len() && 0 <= m < b[g].len() && #[trigger] b[g][m] == k
}

/// The elements whose representative is `v`, in increasing order.
fn members_of(r: &Vec<usize>, v: usize) -> (members: Vec<usize>)
    ensures
        forall|m: int| 0 <= m < members@.len() ==> #[trigger] members@[m] < r@.len(),
        forall|m: int| 0 <= m < members@.len() ==> r@[#[trigger] members@[m] as int] == v,
        forall|m1: int, m2: int| 0 <= m1 < m2 < members@.len() ==> #[trigger] members@[m1] < #[trigger] members@[m2],
        forall|j: int| 0 <= j < r@.len() && #[trigger] r@[j] == v ==> exists|m: int| 0 <= m < members@.len() && #[trigger] members@[m] == j,
{
    let n = r.len();
    let mut members: Vec<usize> = Vec::new();
    let mut k: usize = 0;
    while k < n
        invariant
            n == r@.len(),
            k <= n,
            forall|m: int| 0 <= m < members@.len() ==> #[trigger] members@[m] < k,
            forall|m: int| 0 <= m < members@.len() ==> r@[#[trigger] members@[m] as int] == v,
            forall|m1: int, m2: int| 0 <= m1 < m2 < members@.len() ==> #[trigger] members@[m1] < #[trigger] members@[m2],
            forall|j: int| 0 <= j < k && #[trigger] r@[j] == v ==> exists|m: int| 0 <= m < members@.len() && #[trigger] members@[m] == j,
        decreases n - k,
    {
        if r[k] == v {
            let ghost old_members = members@;
            members.push(k);
            proof {
                assert forall|j: int| 0 <= j < k + 1 && #[trigger] r@[j] == v implies exists|m: int| 0 <= m < members@.len() && #[trigger] members@[m] == j by {
                    if j < k {
                        let m = choose|m: int| 0 <= m < old_members.len() && #[trigger] old_members[m] == j;
                        assert(members@[m] == j);
                    } else {
                        assert(members@[members@.len() - 1] == j);
                    }
                }
            }
        }
        k = k + 1;
    }
    members
}

/// Group the elements `0..n` by representative (`r[k]` is the
/// representative of `k`), representatives in increasing order.
fn groups_by_root(r: &Vec<usize>) -> (b: Vec<Vec<usize>>)
    requires
        forall|k: int| 0 <= k < r@.len() ==> #[trigger] r@[k] < r@.len(),
    ensures
        root_partition(idx_view(b@), r@),
{
    let n = r.len();
    let mut b: Vec<Vec<usize>> = Vec::new();
    let mut v: usize = 0;
    while v < n
        invariant
            n == r@.len(),
            forall|k: int| 0 <= k < n ==> #[trigger] r@[k] < n,
            v <= n,
            forall|g: int| 0 <= g < b@.len() ==> #[trigger] b@[g]@.len() > 0,
            forall|g: int, m: int| 0 <= g < b@.len() && 0 <= m < b@[g]@.len() ==> #[trigger] b@[g]@[m] < n,
            forall|g: int, m1: int, m2: int| 0 <= g < b@.len() && 0 <= m1 < m2 < b@[g]@.len()
                ==> #[trigger] b@[g]@[m1] < #[trigger] b@[g]@[m2],
            forall|g: int, m: int| 0 <= g < b@.len() && 0 <= m < b@[g]@.len()
                ==> r@[#[trigger] b@[g]@[m] as int] == r@[b@[g]@[0] as int],
            forall|g: int| 0 <= g < b@.len() ==> r@[#[trigger] b@[g]@[0] as int] < v,
            forall|g1: int, g2: int| 0 <= g1 < g2 < b@.len()
                ==> r@[#[trigger] b@[g1]@[0] as int] < r@[#[trigger] b@[g2]@[0] as int],
            forall|k: int| 0 <= k < n && #[trigger] r@[k] < v ==> in_some_group(idx_view(b@), k),
        decreases n - v,
    {
        let members = members_of(r, v);
        if members.len() > 0 {
            let ghost old_b = b@;
            b.push(members);
            proof {
                assert(b@[b@.len() - 1]@ == members@);
                assert forall|j: int| 0 <= j < n && #[trigger] r@[j] < v + 1 implies in_some_group(idx_view(b@), j) by {
                    if r@[j] < v {
                        assert(in_some_group(idx_view(old_b), j));
                        let (g, m) = choose|g: int, m: int| 0 <= g < old_b.len() && 0 <= m < idx_view(old_b)[g].len() && #[trigger] idx_view(old_b)[g][m] == j;
                        assert(idx_view(b@)[g] == idx_view(old_b)[g]);
                        assert(idx_view(b@)[g][m] == j);
                    } else {
                        let m = choose|m: int| 0 <= m < members@.len() && #[trigger] members@[m] == j;
                        assert(idx_view(b@)[b@.len() - 1][m] == j);
                    }
                }
            }
        } else {
            proof {
                assert forall|j: int| 0 <= j < n && #[trigger] r@[j] < v + 1 implies in_some_group(idx_view(b@), j) by {
                    if r@[j] == v {
                        let m = choose|m: int| 0 <= m < members@.len() && #[trigger] members@[m] == j;
                    }
                }
            }
        }
        v = v + 1;
    }
    proof {
        let bv = idx_view(b@);
        assert forall|g: int| 0 <= g < bv.len() implies bv[g] == b@[g]@ by {}
        assert forall|g1: int, g2: int| 0 <= g1 < bv.len() && 0 <= g2 < bv.len() && g1 != g2
            implies r@[#[trigger] bv[g1][0] as int] != r@[#[trigger] bv[g2][0] as int] by {
            if g1 < g2 {
                assert(r@[b@[g1]@[0] as int] < r@[b@[g2]@[0] as int]);
            } else {
                assert(r@[b@[g2]@[0] as int] < r@[b@[g1]@[0] as int]);
            }
        }
        assert forall|k: int| 0 <= k < r@.len() implies #[trigger] in_some_group(bv, k) by {
            assert(r@[k] < n);
        }
    }
    b
}

} // verus!

verus! {

/// Group `x` comes before group `y`: it is larger, or as large and its first
/// photo's path sorts first.
pub open spec fn group_before(ph: Seq<Photo>, x: Seq<usize>, y: Seq<usize>) -> bool {
    x.len() > y.len() || (x.len() == y.len() && path_precedes(ph[x[0] as int].path@, ph[y[0] as int].path@))
}

/// `h` occurs in `o`.
pub open spec fn listed(o: Seq<usize>, h: int) -> bool {
    exists|g: int| 0 <= g < o.len() && #[trigger] o[g] == h
}

/// `o` lists each of `0..n` exactly once.
pub open spec fn is_permutation(o: Seq<usize>, n: nat) -> bool {
    &&& o.len() == n
    &&& forall|g: int| 0 <= g < o.len() ==> #[trigger] o[g] < n
    &&& forall|g1: int, g2: int| 0 <= g1 < o.len() && 0 <= g2 < o.len() && g1 != g2 ==> #[trigger] o[g1] != #[trigger] o[g2]
    &&& forall|h: int| 0 <= h < n ==> #[trigger] listed(o, h)
}

/// Whether group `x` of `b` comes before group `y`.
fn before(b: &Vec<Vec<usize>>, photos: &[Photo], x: usize, y: usize) -> (r: bool)
    requires
        x < b@.len(),
        y < b@.len(),
        forall|g: int| 0 <= g < b@.len() ==> #[trigger] b@[g]@.len() > 0,
        forall|g: int, m: int| 0 <= g < b@.len() && 0 <= m < b@[g]@.len() ==> #[trigger] b@[g]@[m] < photos@.len(),
    ensures
        r == group_before(photos@, b@[x as int]@, b@[y as int]@),
        r ==> !group_before(photos@, b@[y as int]@, b@[x as int]@),
{
    let lx = b[x].len();
    let ly = b[y].len();
    if lx != ly {
        return lx > ly;
    }
    let fx = b[x][0];
    let fy = b[y][0];
    path_lt(photos[fx].path.as_str(), photos[fy].path.as_str())
}

/// A stable insertion sort of the groups of `b` by `group_before`: largest
/// first, then by first path. Returns the order as positions into `b`.
fn order_groups(b: &Vec<Vec<usize>>, photos: &[Photo]) -> (o: Vec<usize>)
    requires
        forall|g: int| 0 <= g < b@.len() ==> #[trigger] b@[g]@.len() > 0,
        forall|g: int, m: int| 0 <= g < b@.len() && 0 <= m < b@[g]@.len() ==> #[trigger] b@[g]@[m] < photos@.len(),
    ensures
        is_permutation(o@, b@.len()),
        forall|g: int| 0 <= g < o@.len() - 1
            ==> !group_before(photos@, b@[#[trigger] o@[g + 1] as int]@, b@[o@[g] as int]@),
{
    let ghost ph = photos@;
    let mut o: Vec<usize> = Vec::new();
    let mut i: usize = 0;
    while i < b.len()
        invariant
            ph == photos@,
            forall|g: int| 0 <= g < b@.len() ==> #[trigger] b@[g]@.len() > 0,
            forall|g: int, m: int| 0 <= g < b@.len() && 0 <= m < b@[g]@.len() ==> #[trigger] b@[g]@[m] < photos@.len(),
            i <= b@.len(),
            is_permutation(o@, i as nat),
            forall|g: int| 0 <= g < o@.len() - 1
                ==> !group_before(ph, b@[#[trigger] o@[g + 1] as int]@, b@[o@[g] as int]@),
        decreases b@.len() - i,
    {
        let mut p = o.len();
        while p > 0 && before(b, photos, i, o[p - 1])
            invariant
                ph == photos@,
                forall|g: int| 0 <= g < b@.len() ==> #[trigger] b@[g]@.len() > 0,
                forall|g: int, m: int| 0 <= g < b@.len() && 0 <= m < b@[g]@.len() ==> #[trigger] b@[g]@[m] < photos@.len(),
                i < b@.len(),
                is_permutation(o@, i as nat),
                p <= o@.len(),
                forall|q: int| p <= q < o@.len() ==> group_before(ph, b@[i as int]@, b@[#[trigger] o@[q] as int]@)
                    && !group_before(ph, b@[o@[q] as int]@, b@[i as int]@),
            decreases p,
        {
            p = p - 1;
        }
        let ghost old_o = o@;
        o.insert(p, i);
        proof {
            old_o.insert_ensures(p as int, i);
            assert(o@ == old_o.insert(p as int, i));
            assert forall|g: int| 0 <= g < o@.len() implies #[trigger] o@[g] < i + 1 by {
                if g < p {
                    assert(o@[g] == old_o[g]);
                } else if g > p {
                    assert(o@[g] == old_o[g - 1]);
                }
            }
            assert forall|g1: int, g2: int| 0 <= g1 < o@.len() && 0 <= g2 < o@.len() && g1 != g2
                implies #[trigger] o@[g1] != #[trigger] o@[g2] by {
                let k1 = if g1 < p { g1 } else { g1 - 1 };
                let k2 = if g2 < p { g2 } else { g2 - 1 };
                if g1 != p && g2 != p {
                    assert(o@[g1] == old_o[k1]);
                    assert(o@[g2] == old_o[k2]);
                } else if g1 == p {
                    assert(o@[g2] == old_o[k2]);
                } else {
                    assert(o@[g1] == old_o[k1]);
                }
            }
            assert forall|h: int| 0 <= h < i + 1 implies #[trigger] listed(o@, h) by {
                if h == i {
                    assert(o@[p as int] == h);
                } else {
                    assert(listed(old_o, h));
                    let g = choose|g: int| 0 <= g < old_o.len() && #[trigger] old_o[g] == h;
                    if g < p {
                        assert(o@[g] == h);
                    } else {
                        assert(o@[g + 1] == h);
                    }
                }
            }
            assert forall|g: int| 0 <= g < o@.len() - 1
                implies !group_before(ph, b@[#[trigger] o@[g + 1] as int]@, b@[o@[g] as int]@) by {
                if g + 1 < p {
                    assert(o@[g] == old_o[g] && o@[g + 1] == old_o[g + 1]);
                } else if g + 1 == p {
                    assert(o@[g] == old_o[g] && o@[g + 1] == i);
                } else if g == p {
                    assert(o@[g] == i && o@[g + 1] == old_o[g]);
                } else {
                    assert(o@[g] == old_o[g - 1] && o@[g + 1] == old_o[g]);
                }
            }
        }
        i = i + 1;
    }
    o
}

} // verus!

verus! {

/// `idx` groups the photos `ph` as clustering at threshold `t` must:
/// - it is a partition of the photo indices into non-empty groups, each
///   listing its photos in scan order;
/// - two photos share a group exactly when a chain of photos, each within
///   `t` of the next, links them;
/// - groups come largest first, equal sizes ordered by their first photo's
///   path.
pub open spec fn is_clustering(idx: Seq<Seq<usize>>, ph: Seq<Photo>, t: nat) -> bool {
    &&& forall|g: int| 0 <= g < idx.len() ==> #[trigger] idx[g].len() > 0
    &&& forall|g: int, m: int| 0 <= g < idx.len() && 0 <= m < idx[g].len() ==> #[trigger] idx[g][m] < ph.len()
    &&& forall|g: int, m1: int, m2: int| 0 <= g < idx.len() && 0 <= m1 < m2 < idx[g].len()
            ==> #[trigger] idx[g][m1] < #[trigger] idx[g][m2]
    &&& forall|k: int| 0 <= k < ph.len() ==> #[trigger] in_some_group(idx, k)
    &&& forall|g1: int, g2: int, m1: int, m2: int|
            0 <= g1 < idx.len() && 0 <= g2 < idx.len() && g1 != g2 && 0 <= m1 < idx[g1].len() && 0 <= m2 < idx[g2].len()
            ==> #[trigger] idx[g1][m1] != #[trigger] idx[g2][m2]
    &&& forall|g: int, m1: int, m2: int| 0 <= g < idx.len() && 0 <= m1 < idx[g].len() && 0 <= m2 < idx[g].len()
            ==> connected(ph, t, #[trigger] idx[g][m1] as int, #[trigger] idx[g][m2] as int)
    &&& forall|g1: int, g2: int, m1: int, m2: int|
            0 <= g1 < idx.len() && 0 <= g2 < idx.len() && g1 != g2 && 0 <= m1 < idx[g1].len() && 0 <= m2 < idx[g2].len()
            ==> !connected(ph, t, #[trigger] idx[g1][m1] as int, #[trigger] idx[g2][m2] as int)
    &&& forall|g: int| 0 <= g < idx.len() - 1 ==> !group_before(ph, #[trigger] idx[g + 1], idx[g])
}

/// The photos of each group, from the groups' photo indices.
pub open spec fn photos_of(idx: Seq<Seq<usize>>, ph: Seq<Photo>) -> Seq<Seq<Photo>> {
    idx.map_values(|m: Seq<usize>| m.map_values(|k: usize| ph[k as int]))
}

proof fn lemma_clustering_from_roots(b: Seq<Seq<usize>>, r: Seq<usize>, o: Seq<usize>, ph: Seq<Photo>, t: nat)
    requires
        root_partition(b, r),
        r.len() == ph.len(),
        forall|x: int, y: int| 0 <= x < ph.len() && 0 <= y < ph.len()
            ==> (r[x] == r[y] <==> connected(ph, t, x, y)),
        is_permutation(o, b.len()),
        forall|g: int| 0 <= g < o.len() - 1 ==> !group_before(ph, b[#[trigger] o[g + 1] as int], b[o[g] as int]),
    ensures
        is_clustering(Seq::new(o.len(), |g: int| b[o[g] as int]), ph, t),
{
    let idx = Seq::new(o.len(), |g: int| b[o[g] as int]);
    assert forall|k: int| 0 <= k < ph.len() implies #[trigger] in_some_group(idx, k) by {
        assert(in_some_group(b, k));
        let (h, m) = choose|h: int, m: int| 0 <= h < b.len() && 0 <= m < b[h].len() && #[trigger] b[h][m] == k;
        assert(listed(o, h));
        let g = choose|g: int| 0 <= g < o.len() && #[trigger] o[g] == h;
        assert(idx[g][m] == k);
    }
    assert forall|g1: int, g2: int, m1: int, m2: int|
        0 <= g1 < idx.len() && 0 <= g2 < idx.len() && g1 != g2 && 0 <= m1 < idx[g1].len() && 0 <= m2 < idx[g2].len()
        implies #[trigger] idx[g1][m1] != #[trigger] idx[g2][m2]
            && !connected(ph, t, idx[g1][m1] as int, idx[g2][m2] as int) by {
        let h1 = o[g1] as int;
        let h2 = o[g2] as int;
        assert(h1 != h2);
        assert(r[b[h1][m1] as int] == r[b[h1][0] as int]);
        assert(r[b[h2][m2] as int] == r[b[h2][0] as int]);
        assert(r[b[h1][0] as int] != r[b[h2][0] as int]);
    }
    assert forall|g: int, m1: int, m2: int| 0 <= g < idx.len() && 0 <= m1 < idx[g].len() && 0 <= m2 < idx[g].len()
        implies connected(ph, t, #[trigger] idx[g][m1] as int, #[trigger] idx[g][m2] as int) by {
        let h = o[g] as int;
        assert(r[b[h][m1] as int] == r[b[h][0] as int]);
        assert(r[b[h][m2] as int] == r[b[h][0] as int]);
    }
    assert forall|g: int, m1: int, m2: int| 0 <= g < idx.len() && 0 <= m1 < m2 < idx[g].len()
        implies #[trigger] idx[g][m1] < #[trigger] idx[g][m2] by {
        let h = o[g] as int;
        assert(b[h][m1] < b[h][m2]);
    }
    assert forall|g: int| 0 <= g < idx.len() - 1 implies !group_before(ph, #[trigger] idx[g + 1], idx[g]) by {
        assert(!group_before(ph, b[o[g + 1] as int], b[o[g] as int]));
    }
}

/// `groups` is a clustering of `photos` at `threshold` (see `is_clustering`).
pub open spec fn clusters_of(photos: Seq<Photo>, threshold: nat, groups: Seq<Seq<Photo>>) -> bool {
    exists|idx: Seq<Seq<usize>>| #[trigger] is_clustering(idx, photos, threshold) && groups == photos_of(idx, photos)
}

/// Cluster photos whose pairwise distance is within `threshold`, joining
/// chains of such pairs. Groups are returned largest first (ties by the
/// first photo's path); photos within a group keep scan order. Fails with
/// the first hash that does not decode.
pub fn cluster(photos: &[Photo], threshold: u32) -> (r: Result<Vec<Group>, HexError>)
    ensures
        match r {
            Ok(groups) => {
                &&& decode_error(photos@) is None
                &&& exists|idx: Seq<Seq<usize>>| #[trigger] is_clustering(idx, photos@, threshold as nat)
                        && groups@.map_values(|g: Group| g.photos@) == photos_of(idx, photos@)
            },
            Err(e) => decode_error(photos@) == Some(e),
        },
{
    let ghost ph = photos@;
    let hs = match decode_all(photos) {
        Ok(hs) => hs,
        Err(e) => {
            return Err(e);
        },
    };
    let n = photos.len();
    let mut uf = link_close_pairs(&hs, photos, threshold);
    let ghost roots = uf.roots();
    proof {
        uf.lemma_roots_in_range();
    }
    let mut r: Vec<usize> = Vec::new();
    let mut k: usize = 0;
    while k < n
        invariant
            n == ph.len(),
            uf.wf(),
            uf.size() == n,
            uf.roots() == roots,
            forall|x: int| 0 <= x < n ==> 0 <= #[trigger] roots[x] < n,
            k <= n,
            r@.len() == k,
            forall|j: int| 0 <= j < k ==> #[trigger] r@[j] as int == roots[j],
        decreases n - k,
    {
        let root = uf.find(k);
        r.push(root);
        k = k + 1;
    }
    let b = groups_by_root(&r);
    proof {
        assert forall|h: int| 0 <= h < b@.len() implies #[trigger] b@[h]@.len() > 0 by {
            assert(idx_view(b@)[h] == b@[h]@);
        }
        assert forall|h: int, m: int| 0 <= h < b@.len() && 0 <= m < b@[h]@.len() implies #[trigger] b@[h]@[m] < photos@.len() by {
            assert(idx_view(b@)[h] == b@[h]@);
        }
    }
    let o = order_groups(&b, photos);
    let ghost bv = idx_view(b@);
    proof {
        assert forall|x: int, y: int| 0 <= x < ph.len() && 0 <= y < ph.len()
            implies (r@[x] == r@[y] <==> connected(ph, threshold as nat, x, y)) by {
            assert(r@[x] as int == roots[x]);
            assert(r@[y] as int == roots[y]);
        }
        assert forall|g: int| 0 <= g < o@.len() - 1
            implies !group_before(ph, bv[#[trigger] o@[g + 1] as int], bv[o@[g] as int]) by {
            assert(bv[o@[g + 1] as int] == b@[o@[g + 1] as int]@);
        }
        lemma_clustering_from_roots(bv, r@, o@, ph, threshold as nat);
    }
    let ghost idx = Seq::new(o@.len(), |g: int| bv[o@[g] as int]);
    let mut groups: Vec<Group> = Vec::new();
    let mut g: usize = 0;
    while g < o.len()
        invariant
            ph == photos@,
            bv == idx_view(b@),
            is_permutation(o@, b@.len()),
            forall|h: int, m: int| 0 <= h < bv.len() && 0 <= m < bv[h].len() ==> #[trigger] bv[h][m] < ph.len(),
            idx == Seq::new(o@.len(), |g: int| bv[o@[g] as int]),
            g <= o@.len(),
            groups@.len() == g,
            forall|j: int| 0 <= j < g ==> (#[trigger] groups@[j]).photos@ == photos_of(idx, ph)[j],
        decreases o@.len() - g,
    {
        let members = &b[o[g]];
        let mut ps: Vec<Photo> = Vec::new();
        let mut m: usize = 0;
        while m < members.len()
            invariant
                ph == photos@,
                bv == idx_view(b@),
                o@[g as int] < b@.len(),
                members@ == bv[o@[g as int] as int],
                forall|h: int, m: int| 0 <= h < bv.len() && 0 <= m < bv[h].len() ==> #[trigger] bv[h][m] < ph.len(),
                m <= members@.len(),
                ps@ == members@.take(m as int).map_values(|k: usize| ph[k as int]),
            decreases members@.len() - m,
        {
            let p = photos[members[m]].duplicate();
            ps.push(p);
            proof {
                assert(members@.take(m + 1) =~= members@.take(m as int).push(members@[m as int]));
            }
            m = m + 1;
        }
        proof {
            assert(members@.take(m as int) =~= members@);
        }
        groups.push(Group { photos: ps });
        g = g + 1;
    }
    proof {
        assert(groups@.map_values(|g: Group| g.photos@) =~= photos_of(idx, ph));
    }
    Ok(groups)
}

} // verus!
