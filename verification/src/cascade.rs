//! Cascade reconciliation. The key is split into blocks in several shuffled orders
//! ("iterations"); each block is halved down to single bits. The follower sends the parity
//! of a block, and a block whose parity differs from the leader's is searched by asking for
//! the parity of its left half, the right half's parity following from its parent's and its
//! sibling's, until a single bit is found and flipped.

use vstd::prelude::*;

use rand::seq::SliceRandom;

use crate::bits::parity;
use vstd::arithmetic::mul::lemma_mul_left_inequality;
use vstd::arithmetic::power2::{lemma_pow2_strictly_increases, lemma_pow2_unfold, pow2};
use crate::key_state::{mismatches, Key, KeyData, Reconciled, Reconciling};
use crate::protocol::{FollowerRequests, FollowerResponse, PPError, PPStep};

verus! {

/// A block of the key: the positions it covers, its two halves, the block after it under the
/// same parent (for a left half) and its parent.
pub struct CascadeBlock {
    indicies: Vec<usize>,
    sub_blocks: Option<(usize, usize)>,
    right_sibling: Option<usize>,
    parent: Option<usize>,
}

/// Whether block `id` is consistent with its halves in the arena `bs`: a single position has
/// no halves; otherwise the halves come after it, split its positions in the middle, name it
/// as their parent, and the left half names the right one as its sibling.
pub closed spec fn node_ok(bs: Seq<CascadeBlock>, id: int) -> bool {
    let b = bs[id];
    &&& b.indicies@.len() >= 1
    &&& (b.sub_blocks is None <==> b.indicies@.len() == 1)
    &&& (b.parent matches Some(p) ==> p < id)
    &&& (b.parent matches Some(p) ==> (bs[p as int].sub_blocks matches Some((l, r)) && ((id == l
        && b.right_sibling == Some(r)) || (id == r && b.right_sibling is None))))
    &&& (b.right_sibling matches Some(s) ==> s > id)
    &&& (b.sub_blocks matches Some((l, r)) ==> {
        &&& id < l < r < bs.len()
        &&& bs[l as int].parent == Some(id as usize)
        &&& bs[r as int].parent == Some(id as usize)
        &&& bs[l as int].right_sibling == Some(r)
        &&& bs[r as int].right_sibling is None
        &&& bs[l as int].indicies@ == b.indicies@.subrange(0, (b.indicies@.len() / 2) as int)
        &&& bs[r as int].indicies@ == b.indicies@.subrange((b.indicies@.len() / 2) as int, b.indicies@.len() as int)
    })
}

/// Every block is consistent, its sibling exists, and its positions lie in a key of `n` bits.
pub closed spec fn arena_wf(bs: Seq<CascadeBlock>, n: int) -> bool {
    forall|id: int| 0 <= id < bs.len() ==> {
        &&& #[trigger] node_ok(bs, id)
        &&& (bs[id].right_sibling matches Some(s) ==> s < bs.len())
        &&& forall|k: int| 0 <= k < bs[id].indicies@.len() ==> #[trigger] bs[id].indicies@[k] < n
    }
}

/// The positions of block `id`.
pub closed spec fn block_positions(bs: Seq<CascadeBlock>, id: int) -> Seq<usize> {
    bs[id].indicies@
}

/// Setting the correct parity `p` of block `id`: recorded, a single wrong bit is flipped, and
/// when the block is a left half whose parent's parity is known, the right half's parity
/// follows as the parent's parity minus this one.
pub closed spec fn set_parity(bs: Seq<CascadeBlock>, ps: Seq<Option<bool>>, w: Seq<bool>, id: int, p: bool) -> (
    Seq<Option<bool>>,
    Seq<bool>,
)
    decreases bs.len() - id,
{
    if !(0 <= id < bs.len()) {
        (ps, w)
    } else {
        let b = bs[id];
        let ps1 = ps.update(id, Some(p));
        let w1 = if b.indicies@.len() == 1 && p != parity(w, b.indicies@) && b.indicies@[0] < w.len() {
            w.update(b.indicies@[0] as int, !w[b.indicies@[0] as int])
        } else {
            w
        };
        match (b.right_sibling, b.parent) {
            (Some(s), Some(pa)) => match ps1[pa as int] {
                Some(pp) => if id < s < bs.len() {
                    set_parity(bs, ps1, w1, s as int, pp != p)
                } else {
                    (ps1, w1)
                },
                None => (ps1, w1),
            },
            _ => (ps1, w1),
        }
    }
}

/// The blocks under block `id` whose parity is to be asked: a block of unknown parity that is
/// a whole block or a left half, and, inside a block whose known parity differs from the
/// leader's, the blocks to ask in its halves.
pub closed spec fn unknown_of(bs: Seq<CascadeBlock>, ps: Seq<Option<bool>>, w: Seq<bool>, id: int) -> Seq<usize>
    decreases bs.len() - id,
{
    if !(0 <= id < bs.len()) {
        Seq::empty()
    } else {
        let b = bs[id];
        match ps[id] {
            None => if b.parent is None || b.right_sibling is Some {
                seq![id as usize]
            } else {
                Seq::empty()
            },
            Some(p) => match b.sub_blocks {
                Some((l, r)) => if p != parity(w, b.indicies@) && id < l < bs.len() && id < r < bs.len() {
                    unknown_of(bs, ps, w, l as int) + unknown_of(bs, ps, w, r as int)
                } else {
                    Seq::empty()
                },
                None => Seq::empty(),
            },
        }
    }
}

/// The blocks to ask under the first `k` of the blocks `ids`, in order.
pub closed spec fn unknown_list(bs: Seq<CascadeBlock>, ps: Seq<Option<bool>>, w: Seq<bool>, ids: Seq<usize>, k: int) -> Seq<usize>
    decreases k,
{
    if k <= 0 {
        Seq::empty()
    } else {
        unknown_list(bs, ps, w, ids, k - 1) + unknown_of(bs, ps, w, ids[k - 1] as int)
    }
}

/// Setting the parities `ss` of the blocks `ids` in turn, for the first `k`.
pub closed spec fn set_all(bs: Seq<CascadeBlock>, ps: Seq<Option<bool>>, w: Seq<bool>, ids: Seq<usize>, ss: Seq<bool>, k: int) -> (
    Seq<Option<bool>>,
    Seq<bool>,
)
    decreases k,
{
    if k <= 0 {
        (ps, w)
    } else {
        let (ps1, w1) = set_all(bs, ps, w, ids, ss, k - 1);
        set_parity(bs, ps1, w1, ids[k - 1] as int, ss[k - 1])
    }
}

proof fn lemma_set_parity_len(bs: Seq<CascadeBlock>, ps: Seq<Option<bool>>, w: Seq<bool>, id: int, p: bool)
    requires
        ps.len() == bs.len(),
    ensures
        set_parity(bs, ps, w, id, p).0.len() == ps.len(),
        set_parity(bs, ps, w, id, p).1.len() == w.len(),
    decreases bs.len() - id,
{
    if 0 <= id < bs.len() {
        let b = bs[id];
        let ps1 = ps.update(id, Some(p));
        let w1 = if b.indicies@.len() == 1 && p != parity(w, b.indicies@) && b.indicies@[0] < w.len() {
            w.update(b.indicies@[0] as int, !w[b.indicies@[0] as int])
        } else {
            w
        };
        if let (Some(s), Some(pa)) = (b.right_sibling, b.parent) {
            if let Some(pp) = ps1[pa as int] {
                if id < s < bs.len() {
                    lemma_set_parity_len(bs, ps1, w1, s as int, pp != p);
                }
            }
        }
    }
}

fn parity_of(w: &Vec<bool>, idx: &Vec<usize>) -> (r: bool)
    requires
        forall|k: int| 0 <= k < idx.len() ==> #[trigger] idx[k] < w.len(),
    ensures
        r == parity(w@, idx@),
{
    crate::bits::calc_syndrome(idx.as_slice(), w.as_slice())
}

/// Records the correct parity `p` of block `id`, as `set_parity` says.
fn set_correct_parity(bs: &Vec<CascadeBlock>, ps: &mut Vec<Option<bool>>, w: &mut Vec<bool>, id: usize, p: bool)
    requires
        arena_wf(bs@, old(w).len() as int),
        old(ps).len() == bs.len(),
        id < bs.len(),
    ensures
        (final(ps)@, final(w)@) == set_parity(bs@, old(ps)@, old(w)@, id as int, p),
        final(ps).len() == old(ps).len(),
        final(w).len() == old(w).len(),
    decreases bs.len() - id,
{
    proof {
        assert(node_ok(bs@, id as int));
    }
    let b = &bs[id];
    ps.set(id, Some(p));
    if b.indicies.len() == 1 {
        let cur = parity_of(w, &b.indicies);
        if p != cur {
            let i = b.indicies[0];
            let v = w[i];
            w.set(i, !v);
        }
    }
    match (b.right_sibling, b.parent) {
        (Some(s), Some(pa)) => {
            match ps[pa] {
                Some(pp) => {
                    if s > id {
                        set_correct_parity(bs, ps, w, s, pp != p);
                    }
                },
                None => {},
            }
        },
        _ => {},
    }
}

/// Appends the blocks to ask under block `id`.
fn collect_unknown(bs: &Vec<CascadeBlock>, ps: &Vec<Option<bool>>, w: &Vec<bool>, id: usize, out: &mut Vec<usize>)
    requires
        arena_wf(bs@, w.len() as int),
        ps.len() == bs.len(),
        id < bs.len(),
    ensures
        final(out)@ == old(out)@ + unknown_of(bs@, ps@, w@, id as int),
    decreases bs.len() - id,
{
    proof {
        assert(node_ok(bs@, id as int));
    }
    let b = &bs[id];
    match ps[id] {
        None => {
            if b.parent.is_none() || b.right_sibling.is_some() {
                out.push(id);
            }
        },
        Some(p) => {
            match b.sub_blocks {
                Some((l, r)) => {
                    if p != parity_of(w, &b.indicies) && id < l && id < r {
                        collect_unknown(bs, ps, w, l, out);
                        collect_unknown(bs, ps, w, r, out);
                        proof {
                            assert(out@ =~= old(out)@ + unknown_of(bs@, ps@, w@, id as int));
                        }
                    }
                },
                None => {},
            }
        },
    }
}

/// Every parity recorded in `ps` is the parity of the key `k` over its block.
pub closed spec fn recorded_true(bs: Seq<CascadeBlock>, ps: Seq<Option<bool>>, k: Seq<bool>) -> bool {
    forall|id: int|
        0 <= id < bs.len() && #[trigger] ps[id] is Some ==> ps[id].unwrap() == parity(k, bs[id].indicies@)
}

/// Every block of a single position whose parity is recorded has that bit of `w` agreeing
/// with the key `k`.
pub closed spec fn singles_right(bs: Seq<CascadeBlock>, ps: Seq<Option<bool>>, w: Seq<bool>, k: Seq<bool>) -> bool {
    forall|id: int|
        0 <= id < bs.len() && #[trigger] ps[id] is Some && bs[id].indicies@.len() == 1 ==> w[bs[id].indicies@[0] as int]
            == k[bs[id].indicies@[0] as int]
}

/// `w2` has the length of `w1` and every bit of `w1` that agrees with `k` agrees in `w2` too.
pub open spec fn no_new_errors(w1: Seq<bool>, w2: Seq<bool>, k: Seq<bool>) -> bool {
    &&& w2.len() == w1.len()
    &&& forall|i: int| 0 <= i < w1.len() && #[trigger] w1[i] == k[i] ==> w2[i] == k[i]
}

proof fn lemma_parity_concat(m: Seq<bool>, a: Seq<usize>, b: Seq<usize>)
    ensures
        parity(m, a + b) == (parity(m, a) != parity(m, b)),
    decreases b.len(),
{
    if b.len() == 0 {
        assert(a + b =~= a);
    } else {
        lemma_parity_concat(m, a, b.drop_last());
        assert((a + b).drop_last() =~= a + b.drop_last());
        assert((a + b).last() == b.last());
    }
}

proof fn lemma_parity_single(m: Seq<bool>, a: Seq<usize>)
    requires
        a.len() == 1,
    ensures
        parity(m, a) == m[a[0] as int],
{
    assert(a.drop_last() =~= Seq::<usize>::empty());
    assert(parity(m, a.drop_last()) == false);
    assert(a.last() == a[0]);
}

proof fn lemma_singles_right_kept(bs: Seq<CascadeBlock>, ps: Seq<Option<bool>>, w: Seq<bool>, w2: Seq<bool>, k: Seq<bool>)
    requires
        arena_wf(bs, w.len() as int),
        singles_right(bs, ps, w, k),
        no_new_errors(w, w2, k),
    ensures
        singles_right(bs, ps, w2, k),
{
    assert forall|id: int|
        0 <= id < bs.len() && #[trigger] ps[id] is Some && bs[id].indicies@.len() == 1 implies w2[bs[id].indicies@[0] as int]
            == k[bs[id].indicies@[0] as int] by {
        assert(node_ok(bs, id));
        let i = bs[id].indicies@[0] as int;
        assert(w[i] == k[i]);
    }
}

proof fn lemma_set_parity_true(bs: Seq<CascadeBlock>, ps: Seq<Option<bool>>, w: Seq<bool>, k: Seq<bool>, id: int, p: bool)
    requires
        arena_wf(bs, w.len() as int),
        ps.len() == bs.len(),
        k.len() == w.len(),
        recorded_true(bs, ps, k),
        singles_right(bs, ps, w, k),
        0 <= id < bs.len() ==> p == parity(k, bs[id].indicies@),
    ensures
        set_parity(bs, ps, w, id, p).0.len() == ps.len(),
        recorded_true(bs, set_parity(bs, ps, w, id, p).0, k),
        singles_right(bs, set_parity(bs, ps, w, id, p).0, set_parity(bs, ps, w, id, p).1, k),
        no_new_errors(w, set_parity(bs, ps, w, id, p).1, k),
    decreases bs.len() - id,
{
    if 0 <= id < bs.len() {
        let b = bs[id];
        assert(node_ok(bs, id));
        let ps1 = ps.update(id, Some(p));
        let flip = b.indicies@.len() == 1 && p != parity(w, b.indicies@) && b.indicies@[0] < w.len();
        let w1 = if flip {
            w.update(b.indicies@[0] as int, !w[b.indicies@[0] as int])
        } else {
            w
        };
        if b.indicies@.len() == 1 {
            lemma_parity_single(w, b.indicies@);
            lemma_parity_single(k, b.indicies@);
        }
        assert(recorded_true(bs, ps1, k)) by {
            assert forall|id2: int| 0 <= id2 < bs.len() && #[trigger] ps1[id2] is Some implies ps1[id2].unwrap()
                == parity(k, bs[id2].indicies@) by {
                if id2 != id {
                    assert(ps1[id2] == ps[id2]);
                }
            }
        }
        assert(no_new_errors(w, w1, k));
        assert(singles_right(bs, ps1, w1, k)) by {
            assert forall|id2: int|
                0 <= id2 < bs.len() && #[trigger] ps1[id2] is Some && bs[id2].indicies@.len() == 1 implies w1[bs[id2].indicies@[0] as int]
                    == k[bs[id2].indicies@[0] as int] by {
                assert(node_ok(bs, id2));
                let j = bs[id2].indicies@[0] as int;
                if id2 != id {
                    assert(ps1[id2] == ps[id2]);
                    assert(w[j] == k[j]);
                }
            }
        }
        match (b.right_sibling, b.parent) {
            (Some(s), Some(pa)) => {
                match ps1[pa as int] {
                    Some(pp) => {
                        if id < s < bs.len() {
                            let par = bs[pa as int];
                            assert(node_ok(bs, pa as int));
                            let (l, r) = par.sub_blocks.unwrap();
                            assert(l == id && r == s);
                            let h = (par.indicies@.len() / 2) as int;
                            assert(par.indicies@ =~= bs[id].indicies@ + bs[s as int].indicies@);
                            lemma_parity_concat(k, bs[id].indicies@, bs[s as int].indicies@);
                            assert(ps1[pa as int] == ps[pa as int]);
                            lemma_set_parity_true(bs, ps1, w1, k, s as int, pp != p);
                        }
                    },
                    None => {},
                }
            },
            _ => {},
        }
    }
}

proof fn lemma_set_all_true(
    bs: Seq<CascadeBlock>,
    ps: Seq<Option<bool>>,
    w: Seq<bool>,
    k: Seq<bool>,
    ids: Seq<usize>,
    ss: Seq<bool>,
    n: int,
)
    requires
        arena_wf(bs, w.len() as int),
        ps.len() == bs.len(),
        k.len() == w.len(),
        recorded_true(bs, ps, k),
        singles_right(bs, ps, w, k),
        0 <= n <= ids.len(),
        n <= ss.len(),
        forall|t: int| 0 <= t < n ==> #[trigger] ss[t] == parity(k, bs[ids[t] as int].indicies@),
    ensures
        set_all(bs, ps, w, ids, ss, n).0.len() == ps.len(),
        recorded_true(bs, set_all(bs, ps, w, ids, ss, n).0, k),
        singles_right(bs, set_all(bs, ps, w, ids, ss, n).0, set_all(bs, ps, w, ids, ss, n).1, k),
        no_new_errors(w, set_all(bs, ps, w, ids, ss, n).1, k),
    decreases n,
{
    if n > 0 {
        lemma_set_all_true(bs, ps, w, k, ids, ss, n - 1);
        let (ps1, w1) = set_all(bs, ps, w, ids, ss, n - 1);
        assert(ss[n - 1] == parity(k, bs[ids[n - 1] as int].indicies@));
        lemma_set_parity_true(bs, ps1, w1, k, ids[n - 1] as int, ss[n - 1]);
        let w2 = set_all(bs, ps, w, ids, ss, n).1;
        assert forall|i: int| 0 <= i < w.len() && #[trigger] w[i] == k[i] implies w2[i] == k[i] by {
            assert(w1[i] == k[i]);
        }
    }
}

proof fn lemma_unknown_of_bounded(bs: Seq<CascadeBlock>, ps: Seq<Option<bool>>, w: Seq<bool>, id: int)
    ensures
        forall|k: int| 0 <= k < unknown_of(bs, ps, w, id).len() ==> #[trigger] unknown_of(bs, ps, w, id)[k] < bs.len(),
    decreases bs.len() - id,
{
    if 0 <= id < bs.len() {
        let b = bs[id];
        if let Some(p) = ps[id] {
            if let Some((l, r)) = b.sub_blocks {
                if p != parity(w, b.indicies@) && id < l < bs.len() && id < r < bs.len() {
                    lemma_unknown_of_bounded(bs, ps, w, l as int);
                    lemma_unknown_of_bounded(bs, ps, w, r as int);
                    let a = unknown_of(bs, ps, w, l as int);
                    let c = unknown_of(bs, ps, w, r as int);
                    assert forall|k: int| 0 <= k < (a + c).len() implies #[trigger] (a + c)[k] < bs.len() by {
                        if k < a.len() {
                            assert((a + c)[k] == a[k]);
                        } else {
                            assert((a + c)[k] == c[k - a.len()]);
                        }
                    }
                }
            }
        }
    }
}

proof fn lemma_unknown_list_bounded(bs: Seq<CascadeBlock>, ps: Seq<Option<bool>>, w: Seq<bool>, ids: Seq<usize>, n: int)
    ensures
        forall|k: int| 0 <= k < unknown_list(bs, ps, w, ids, n).len() ==> #[trigger] unknown_list(bs, ps, w, ids, n)[k] < bs.len(),
    decreases n,
{
    if n > 0 {
        lemma_unknown_list_bounded(bs, ps, w, ids, n - 1);
        lemma_unknown_of_bounded(bs, ps, w, ids[n - 1] as int);
        let a = unknown_list(bs, ps, w, ids, n - 1);
        let c = unknown_of(bs, ps, w, ids[n - 1] as int);
        assert forall|k: int| 0 <= k < (a + c).len() implies #[trigger] (a + c)[k] < bs.len() by {
            if k < a.len() {
                assert((a + c)[k] == a[k]);
            } else {
                assert((a + c)[k] == c[k - a.len()]);
            }
        }
    }
}

proof fn lemma_node_ok_extends(bs: Seq<CascadeBlock>, bs2: Seq<CascadeBlock>, id: int)
    requires
        0 <= id < bs.len() <= bs2.len(),
        node_ok(bs, id),
        forall|j: int| 0 <= j < bs.len() ==> #[trigger] bs2[j] == bs[j],
    ensures
        node_ok(bs2, id),
{
    let b = bs[id];
    assert(bs2[id] == b);
    if let Some(pa) = b.parent {
        assert(bs2[pa as int] == bs[pa as int]);
    }
    if let Some((l, r)) = b.sub_blocks {
        assert(bs2[l as int] == bs[l as int]);
        assert(bs2[r as int] == bs[r as int]);
    }
}

/// Appends to the arena the block over the positions `idx`, with the given parent and
/// sibling, followed by the blocks of its left half and those of its right half.
fn build_block(bs: &mut Vec<CascadeBlock>, idx: Vec<usize>, parent: Option<usize>, sibling: Option<usize>, n: usize)
    requires
        idx.len() >= 1,
        old(bs).len() + 2 * idx.len() <= usize::MAX,
        forall|k: int| 0 <= k < idx.len() ==> #[trigger] idx[k] < n,
        parent matches Some(p) ==> p < old(bs).len(),
        parent matches Some(p) ==> (old(bs)@[p as int].sub_blocks matches Some((l, r)) && ((old(bs).len() == l
            && sibling == Some(r)) || (old(bs).len() == r && sibling is None))),
        parent is None ==> sibling is None,
        sibling matches Some(s) ==> s > old(bs).len(),
    ensures
        final(bs).len() == old(bs).len() + 2 * idx.len() - 1,
        forall|j: int| 0 <= j < old(bs).len() ==> #[trigger] final(bs)@[j] == old(bs)@[j],
        final(bs)@[old(bs).len() as int].indicies@ == idx@,
        final(bs)@[old(bs).len() as int].parent == parent,
        final(bs)@[old(bs).len() as int].right_sibling == sibling,
        forall|j: int| old(bs).len() <= j < final(bs).len() ==> #[trigger] node_ok(final(bs)@, j),
        forall|j: int| old(bs).len() < j < final(bs).len() ==> (#[trigger] final(bs)@[j]).parent is Some,
        forall|j: int| old(bs).len() < j < final(bs).len() ==> ((#[trigger] final(bs)@[j]).right_sibling matches Some(s) ==> s < final(bs).len()),
        forall|j: int, k: int| old(bs).len() <= j < final(bs).len() && 0 <= k < final(bs)@[j].indicies@.len() ==> #[trigger] final(bs)@[j].indicies@[k] < n,
    decreases idx.len(),
{
    let id = bs.len();
    let m = idx.len();
    let ghost whole = idx@;
    if m == 1 {
        bs.push(CascadeBlock { indicies: idx, sub_blocks: None, right_sibling: sibling, parent });
        proof {
            assert(bs@[id as int].indicies@ == whole);
            assert(node_ok(bs@, id as int));
            assert forall|k: int| 0 <= k < bs@[id as int].indicies@.len() implies #[trigger] bs@[id as int].indicies@[k] < n by {
                assert(whole[k] == idx@[k]);
            }
        }
    } else {
        let half = m / 2;
        let left = vstd::slice::slice_to_vec(vstd::slice::slice_subrange(idx.as_slice(), 0, half));
        let right = vstd::slice::slice_to_vec(vstd::slice::slice_subrange(idx.as_slice(), half, m));
        proof {
            assert forall|k: int| 0 <= k < left.len() implies #[trigger] left[k] < n by {
                assert(left[k] == whole[k]);
            }
            assert forall|k: int| 0 <= k < right.len() implies #[trigger] right[k] < n by {
                assert(right[k] == whole[k + half]);
            }
        }
        let l = id + 1;
        let r = id + 2 * half;
        bs.push(CascadeBlock { indicies: idx, sub_blocks: Some((l, r)), right_sibling: sibling, parent });
        let ghost bs1 = bs@;
        build_block(bs, left, Some(id), Some(r), n);
        let ghost bs2 = bs@;
        build_block(bs, right, Some(id), None, n);
        proof {
            let bs3 = bs@;
            assert(bs3[id as int] == bs1[id as int]);
            assert(bs3[l as int] == bs2[l as int]);
            assert forall|j: int| id <= j < bs3.len() implies {
                &&& #[trigger] node_ok(bs3, j)
                &&& (j > id ==> bs3[j].parent is Some)
                &&& (j > id ==> (bs3[j].right_sibling matches Some(s) ==> s < bs3.len()))
                &&& forall|k: int| 0 <= k < bs3[j].indicies@.len() ==> #[trigger] bs3[j].indicies@[k] < n
            } by {
                if j == id {
                    assert(bs3[l as int].indicies@ =~= whole.subrange(0, (whole.len() / 2) as int));
                    assert(bs3[r as int].indicies@ =~= whole.subrange((whole.len() / 2) as int, whole.len() as int));
                    assert(node_ok(bs3, j));
                    assert forall|k: int| 0 <= k < bs3[j].indicies@.len() implies #[trigger] bs3[j].indicies@[k] < n by {
                        assert(whole[k] == idx@[k]);
                    }
                } else if j < r {
                    assert(node_ok(bs2, j));
                    lemma_node_ok_extends(bs2, bs3, j);
                    assert(bs3[j] == bs2[j]);
                } else {
                    assert(node_ok(bs3, j));
                }
            }
        }
    }
}

/// The key's positions `s` cut into consecutive pieces of `size`, the last one possibly
/// shorter.
pub open spec fn chunks(s: Seq<usize>, size: nat) -> Seq<Seq<usize>>
    decreases s.len(),
{
    if s.len() == 0 || size == 0 {
        Seq::empty()
    } else if s.len() <= size {
        seq![s]
    } else {
        seq![s.subrange(0, size as int)] + chunks(s.subrange(size as int, s.len() as int), size)
    }
}

/// One iteration of Cascade: the blocks of one shuffled order of the key, in an arena, with
/// the parities learnt so far, and the whole blocks that the halving starts from.
pub struct CascadeIteration {
    blocks: Vec<CascadeBlock>,
    parities: Vec<Option<bool>>,
    roots: Vec<usize>,
}

impl CascadeIteration {
    /// The blocks.
    pub closed spec fn arena(&self) -> Seq<CascadeBlock> {
        self.blocks@
    }

    /// The parities learnt so far, one per block.
    pub closed spec fn learnt(&self) -> Seq<Option<bool>> {
        self.parities@
    }

    /// The whole blocks.
    pub closed spec fn tops(&self) -> Seq<usize> {
        self.roots@
    }

    /// The positions of each whole block, in order.
    pub closed spec fn top_positions(&self) -> Seq<Seq<usize>> {
        Seq::new(self.roots@.len(), |k: int| self.blocks@[self.roots@[k] as int].indicies@)
    }

    /// The arena is consistent over a key of `n` bits, with a parity slot per block and whole
    /// blocks that have no parent.
    pub closed spec fn wf(&self, n: int) -> bool {
        &&& arena_wf(self.blocks@, n)
        &&& self.parities@.len() == self.blocks@.len()
        &&& forall|k: int| 0 <= k < self.roots@.len() ==> {
            &&& #[trigger] self.roots@[k] < self.blocks@.len()
            &&& self.blocks@[self.roots@[k] as int].parent is None
        }
        &&& forall|a: int, b: int| 0 <= a < b < self.roots@.len() ==> #[trigger] self.roots@[a] < #[trigger] self.roots@[b]
    }

    /// Every parity recorded is that of the key `k`, and every single position whose parity
    /// is recorded has its bit in the working key `w` agreeing with `k`.
    pub closed spec fn holds_truth(&self, w: Seq<bool>, k: Seq<bool>) -> bool {
        &&& recorded_true(self.blocks@, self.parities@, k)
        &&& singles_right(self.blocks@, self.parities@, w, k)
    }

    /// The blocks whose parity is to be asked next, as `unknown_list` gives them under the
    /// whole blocks, given the working key `w`.
    pub closed spec fn asking(&self, w: Seq<bool>) -> Seq<usize> {
        unknown_list(self.blocks@, self.parities@, w, self.roots@, self.roots@.len() as int)
    }

    /// The blocks over the positions `indicies` cut into pieces of `initial_block_size`, each
    /// halved down to single positions, with no parity known; `n` is the key's length.
    #[verifier::spinoff_prover]
    pub fn new(indicies: Vec<usize>, initial_block_size: usize, n: usize) -> (r: Self)
        requires
            initial_block_size >= 1,
            2 * indicies.len() <= usize::MAX,
            forall|k: int| 0 <= k < indicies.len() ==> #[trigger] indicies[k] < n,
        ensures
            r.wf(n as int),
            r.arena().len() <= 2 * indicies.len(),
            r.top_positions() == chunks(indicies@, initial_block_size as nat),
            forall|j: int| 0 <= j < r.learnt().len() ==> #[trigger] r.learnt()[j] is None,
    {
        let len = indicies.len();
        let mut blocks: Vec<CascadeBlock> = Vec::new();
        let mut roots: Vec<usize> = Vec::new();
        let mut start: usize = 0;
        proof {
            assert(indicies@.subrange(0, len as int) =~= indicies@);
            assert(Seq::new(roots@.len(), |k: int| blocks@[roots@[k] as int].indicies@) =~= Seq::<Seq<usize>>::empty());
        }
        while start < len
            invariant
                start <= len,
                len == indicies.len(),
                initial_block_size >= 1,
                2 * len <= usize::MAX,
                forall|k: int| 0 <= k < indicies.len() ==> #[trigger] indicies[k] < n,
                blocks.len() <= 2 * start,
                arena_wf(blocks@, n as int),
                forall|a: int, b: int| 0 <= a < b < roots@.len() ==> #[trigger] roots@[a] < #[trigger] roots@[b],
                forall|k: int| 0 <= k < roots@.len() ==> {
                    &&& #[trigger] roots@[k] < blocks@.len()
                    &&& blocks@[roots@[k] as int].parent is None
                },
                Seq::new(roots@.len(), |k: int| blocks@[roots@[k] as int].indicies@) + chunks(
                    indicies@.subrange(start as int, len as int),
                    initial_block_size as nat,
                ) == chunks(indicies@, initial_block_size as nat),
            decreases len - start,
        {
            let end = if len - start <= initial_block_size { len } else { start + initial_block_size };
            let piece = vstd::slice::slice_to_vec(vstd::slice::slice_subrange(indicies.as_slice(), start, end));
            proof {
                assert forall|k: int| 0 <= k < piece.len() implies #[trigger] piece[k] < n by {
                    assert(piece[k] == indicies@[start + k]);
                }
            }
            let ghost before = blocks@;
            let ghost tops_before = Seq::new(roots@.len(), |k: int| blocks@[roots@[k] as int].indicies@);
            let id = blocks.len();
            build_block(&mut blocks, piece, None, None, n);
            roots.push(id);
            proof {
                let after = blocks@;
                assert forall|j: int| 0 <= j < after.len() implies {
                    &&& #[trigger] node_ok(after, j)
                    &&& (after[j].right_sibling matches Some(s) ==> s < after.len())
                    &&& forall|k: int| 0 <= k < after[j].indicies@.len() ==> #[trigger] after[j].indicies@[k] < n
                } by {
                    if j < before.len() {
                        assert(node_ok(before, j));
                        lemma_node_ok_extends(before, after, j);
                        assert(after[j] == before[j]);
                    } else {
                        assert(node_ok(after, j));
                        if j == id {
                            assert(after[j].right_sibling is None);
                        } else {
                            assert(after[j].right_sibling matches Some(s) ==> s < after.len());
                        }
                        assert forall|k: int| 0 <= k < after[j].indicies@.len() implies #[trigger] after[j].indicies@[k] < n by {
                        }
                    }
                }
                assert(arena_wf(after, n as int));
                let rest = indicies@.subrange(start as int, len as int);
                assert(rest.subrange(0, (end - start) as int) =~= piece@);
                assert(rest.subrange((end - start) as int, rest.len() as int) =~= indicies@.subrange(end as int, len as int));
                let tops_after = Seq::new(roots@.len(), |k: int| blocks@[roots@[k] as int].indicies@);
                assert(tops_after =~= tops_before.push(piece@));
                if end == len {
                    assert(rest =~= piece@);
                    assert(indicies@.subrange(end as int, len as int) =~= Seq::<usize>::empty());
                    assert(chunks(rest, initial_block_size as nat) == seq![piece@]);
                } else {
                    assert(chunks(rest, initial_block_size as nat) == seq![piece@] + chunks(
                        indicies@.subrange(end as int, len as int),
                        initial_block_size as nat,
                    ));
                }
                assert(tops_after + chunks(indicies@.subrange(end as int, len as int), initial_block_size as nat)
                    =~= tops_before + chunks(rest, initial_block_size as nat));
            }
            start = end;
        }
        let mut parities: Vec<Option<bool>> = Vec::new();
        let mut i: usize = 0;
        while i < blocks.len()
            invariant
                i <= blocks.len(),
                parities.len() == i,
                forall|j: int| 0 <= j < i ==> #[trigger] parities@[j] is None,
            decreases blocks.len() - i,
        {
            parities.push(None);
            i = i + 1;
        }
        proof {
            assert(indicies@.subrange(len as int, len as int) =~= Seq::<usize>::empty());
        }
        CascadeIteration { blocks, parities, roots }
    }

    /// The blocks whose parity is to be asked next, given the working key `w`.
    pub fn get_unknown_parity_blocks(&self, w: &Vec<bool>) -> (r: Vec<usize>)
        requires
            self.wf(w.len() as int),
        ensures
            r@ == self.asking(w@),
            forall|k: int| 0 <= k < r.len() ==> #[trigger] r@[k] < self.arena().len(),
    {
        proof {
            lemma_unknown_list_bounded(self.blocks@, self.parities@, w@, self.roots@, self.roots@.len() as int);
        }
        let mut out: Vec<usize> = Vec::new();
        let mut k: usize = 0;
        while k < self.roots.len()
            invariant
                k <= self.roots.len(),
                self.wf(w.len() as int),
                out@ == unknown_list(self.blocks@, self.parities@, w@, self.roots@, k as int),
            decreases self.roots.len() - k,
        {
            let id = self.roots[k];
            collect_unknown(&self.blocks, &self.parities, w, id, &mut out);
            k = k + 1;
        }
        out
    }

    /// Records the parities `ps` of the blocks `ids`, in turn, fixing the working key `w`.
    fn set_block_parities(&mut self, w: &mut Vec<bool>, ids: &Vec<usize>, ps: &Vec<bool>)
        requires
            old(self).wf(old(w).len() as int),
            ids.len() == ps.len(),
            forall|k: int| 0 <= k < ids.len() ==> #[trigger] ids[k] < old(self).arena().len(),
        ensures
            (final(self).learnt(), final(w)@) == set_all(old(self).arena(), old(self).learnt(), old(w)@, ids@, ps@, ids.len() as int),
            final(self).arena() == old(self).arena(),
            final(self).tops() == old(self).tops(),
            final(w).len() == old(w).len(),
            final(self).wf(final(w).len() as int),
    {
        let mut k: usize = 0;
        while k < ids.len()
            invariant
                k <= ids.len(),
                ids.len() == ps.len(),
                forall|t: int| 0 <= t < ids.len() ==> #[trigger] ids[t] < self.blocks.len(),
                self.blocks@ == old(self).arena(),
                self.roots@ == old(self).tops(),
                w.len() == old(w).len(),
                self.wf(w.len() as int),
                (self.parities@, w@) == set_all(old(self).arena(), old(self).learnt(), old(w)@, ids@, ps@, k as int),
            decreases ids.len() - k,
        {
            set_correct_parity(&self.blocks, &mut self.parities, w, ids[k], ps[k]);
            k = k + 1;
        }
    }
}

/// Every block that an iteration of Cascade asks about, over a key of `n` bits, is one of
/// its blocks, names at least one position, and names only positions of the key: each parity
/// request the leader sends can be answered.
pub proof fn law_asked_blocks_lie_in_key(it: CascadeIteration, n: int, w: Seq<bool>)
    requires
        it.wf(n),
    ensures
        forall|t: int| 0 <= t < it.asking(w).len() ==> {
            &&& #[trigger] it.asking(w)[t] < it.arena().len()
            &&& block_positions(it.arena(), it.asking(w)[t] as int).len() >= 1
            &&& forall|j: int|
                0 <= j < block_positions(it.arena(), it.asking(w)[t] as int).len() ==> #[trigger] block_positions(
                    it.arena(),
                    it.asking(w)[t] as int,
                )[j] < n
        },
{
    lemma_unknown_list_bounded(it.blocks@, it.parities@, w, it.roots@, it.roots@.len() as int);
    assert forall|t: int| 0 <= t < it.asking(w).len() implies {
        &&& #[trigger] it.asking(w)[t] < it.arena().len()
        &&& block_positions(it.arena(), it.asking(w)[t] as int).len() >= 1
        &&& forall|j: int|
            0 <= j < block_positions(it.arena(), it.asking(w)[t] as int).len() ==> #[trigger] block_positions(
                it.arena(),
                it.asking(w)[t] as int,
            )[j] < n
    } by {
        let id = it.asking(w)[t] as int;
        assert(node_ok(it.blocks@, id));
    }
}

/// Where the search over the iterations stands: going back towards the first iteration or
/// forward towards the last, with the furthest iteration reached so far and whether bits
/// leaked since the search last turned.
#[derive(Clone, Copy)]
pub enum CascadeState {
    Backward(usize, bool),
    Forward(usize, bool),
}

impl CascadeState {
    /// The same state, with bits leaked.
    pub open spec fn with_leak(self) -> CascadeState {
        match self {
            CascadeState::Backward(m, _) => CascadeState::Backward(m, true),
            CascadeState::Forward(m, _) => CascadeState::Forward(m, true),
        }
    }

    /// Notes that bits leaked.
    fn leak(&mut self)
        ensures
            *final(self) == old(self).with_leak(),
    {
        match self {
            CascadeState::Backward(m, _) => {
                *self = CascadeState::Backward(*m, true);
            },
            CascadeState::Forward(m, _) => {
                *self = CascadeState::Forward(*m, true);
            },
        }
    }
}

/// The state `st` at iteration `i` is possible among `len` iterations: the iteration is at
/// most the furthest one reached, which exists.
pub open spec fn state_ok(len: int, st: CascadeState, i: int) -> bool {
    &&& 1 <= len <= usize::MAX
    &&& 0 <= i
    &&& match st {
        CascadeState::Backward(m, _) => i <= m && m < len,
        CascadeState::Forward(m, _) => i <= m && m < len,
    }
}

/// How far the search is from its end, between turns: each turn moves to a smaller rank.
pub open spec fn rank(len: int, st: CascadeState) -> int {
    match st {
        CascadeState::Backward(m, lk) => 5 * (len - m) + if lk { 4int } else { 2int },
        CascadeState::Forward(m, lk) => 5 * (len - m) + if lk { 3int } else { 1int },
    }
}

/// How far the search is from its next turn.
pub open spec fn progress(st: CascadeState, i: int) -> int {
    match st {
        CascadeState::Backward(_, _) => i,
        CascadeState::Forward(m, _) => m - i,
    }
}

/// The search for the next iteration with blocks to ask, from state `st` at iteration `i`,
/// where `pending[j]` says whether iteration `j` has blocks to ask: the state and the
/// iteration that it ends at, and whether it found one. Going back, it moves to the first
/// iteration and then turns forward; going forward, it moves to the furthest iteration
/// reached, turns back if bits leaked since the last turn, and otherwise reaches one
/// iteration further; it ends without finding one at the last iteration when nothing leaked.
pub open spec fn search(pending: Seq<bool>, st: CascadeState, i: int) -> (CascadeState, int, bool)
    decreases rank(pending.len() as int, st), progress(st, i),
{
    let len = pending.len() as int;
    if !state_ok(len, st, i) {
        (st, i, false)
    } else if pending[i] {
        (st.with_leak(), i, true)
    } else {
        match st {
            CascadeState::Backward(m, lk) => if i > 0 {
                search(pending, st, i - 1)
            } else {
                search(pending, CascadeState::Forward(m, lk), if m < 1 { m as int } else { 1 })
            },
            CascadeState::Forward(m, lk) => if i + 1 == len && !lk {
                (st, i, false)
            } else if i == m {
                if lk {
                    search(pending, CascadeState::Backward(m, false), if i > 0 { i - 1 } else { 0 })
                } else {
                    search(pending, CascadeState::Forward((m + 1) as usize, false), i + 1)
                }
            } else {
                search(pending, st, i + 1)
            },
        }
    }
}

/// Whether bits leaked since the search last turned.
pub open spec fn leaked_since_turn(st: CascadeState) -> bool {
    match st {
        CascadeState::Backward(_, lk) => lk,
        CascadeState::Forward(_, lk) => lk,
    }
}

/// What the search knows when nothing leaked since it last turned: going forward, no
/// iteration before the furthest one reached has blocks to ask; going back from `m`, no
/// iteration after `i` up to `m` has any.
pub open spec fn clean_since_turn(pending: Seq<bool>, st: CascadeState, i: int) -> bool {
    match st {
        CascadeState::Forward(m, false) => forall|j: int| 0 <= j < m ==> !#[trigger] pending[j],
        CascadeState::Backward(m, false) => forall|j: int| i < j <= m ==> !#[trigger] pending[j],
        _ => true,
    }
}

/// The search ends without a block to ask only when no iteration has any left: a correction
/// in a later iteration that exposes blocks of odd parity in earlier ones sends the search
/// back to them before it ends. When it finds an iteration to ask, bits leak.
pub proof fn law_search_ends_with_nothing_to_ask(pending: Seq<bool>, st: CascadeState, i: int)
    requires
        state_ok(pending.len() as int, st, i),
        clean_since_turn(pending, st, i),
    ensures
        search(pending, st, i).2 ==> leaked_since_turn(search(pending, st, i).0),
        !search(pending, st, i).2 ==> forall|j: int| 0 <= j < pending.len() ==> !#[trigger] pending[j],
    decreases rank(pending.len() as int, st), progress(st, i),
{
    let len = pending.len() as int;
    if !pending[i] {
        match st {
            CascadeState::Backward(m, lk) => {
                if i > 0 {
                    law_search_ends_with_nothing_to_ask(pending, st, i - 1);
                } else {
                    law_search_ends_with_nothing_to_ask(pending, CascadeState::Forward(m, lk), if m < 1 {
                        m as int
                    } else {
                        1
                    });
                }
            },
            CascadeState::Forward(m, lk) => {
                if i + 1 == len && !lk {
                    assert forall|j: int| 0 <= j < len implies !#[trigger] pending[j] by {
                        if j != i {
                            assert(j < m);
                        }
                    }
                } else if i == m {
                    if lk {
                        law_search_ends_with_nothing_to_ask(pending, CascadeState::Backward(m, false), if i > 0 {
                            i - 1
                        } else {
                            0
                        });
                    } else {
                        law_search_ends_with_nothing_to_ask(pending, CascadeState::Forward((m + 1) as usize, false), i + 1);
                    }
                } else {
                    law_search_ends_with_nothing_to_ask(pending, st, i + 1);
                }
            },
        }
    }
}

/// Cascade reconciliation of a key: its iterations, the working copy of the key that they
/// correct, the blocks whose parities were asked and not yet answered, the iteration and
/// the state of the search, and the number of parities learnt.
pub struct Cascade {
    key: Key<Reconciling>,
    working: Vec<bool>,
    iterations: Vec<CascadeIteration>,
    parity_blocks: Option<Vec<usize>>,
    iteration: usize,
    leaked_bits: usize,
    state: CascadeState,
}

impl Cascade {
    /// The key as it was before reconciliation.
    pub closed spec fn key(&self) -> Key<Reconciling> {
        self.key
    }

    /// The working copy of the key.
    pub closed spec fn working(&self) -> Seq<bool> {
        self.working@
    }

    /// The iterations.
    pub closed spec fn rounds(&self) -> Seq<CascadeIteration> {
        self.iterations@
    }

    /// The blocks asked and not yet answered, in the current iteration.
    pub closed spec fn awaiting(&self) -> Option<Seq<usize>> {
        match self.parity_blocks {
            Some(v) => Some(v@),
            None => None,
        }
    }

    /// The current iteration.
    pub closed spec fn at(&self) -> int {
        self.iteration as int
    }

    /// The state of the search.
    pub closed spec fn phase(&self) -> CascadeState {
        self.state
    }

    /// The number of parities learnt.
    pub closed spec fn leaked(&self) -> int {
        self.leaked_bits as int
    }

    /// Every iteration holds the truth of the key `k`: its recorded parities are those of `k`,
    /// and the working key agrees with `k` at each single position whose parity is recorded.
    pub open spec fn truthful(&self, k: Seq<bool>) -> bool {
        &&& k.len() == self.working().len()
        &&& forall|j: int| 0 <= j < self.rounds().len() ==> #[trigger] self.rounds()[j].holds_truth(self.working(), k)
    }

    /// The parities `s` answer the blocks awaited as the key `k` does.
    pub open spec fn answers_true(&self, s: Seq<bool>, k: Seq<bool>) -> bool {
        self.awaiting() matches Some(ids) && s.len() == ids.len() && forall|t: int|
            0 <= t < s.len() ==> #[trigger] s[t] == parity(k, block_positions(self.rounds()[self.at()].arena(), ids[t] as int))
    }

    /// Which iterations have blocks to ask.
    pub closed spec fn pending(&self) -> Seq<bool> {
        Seq::new(self.iterations@.len(), |j: int| self.iterations@[j].asking(self.working@).len() > 0)
    }

    /// The search keeps what it knows: while nothing is awaited, the iterations it has found
    /// with nothing to ask since it last turned still have nothing to ask; while parities are
    /// awaited, bits have leaked since the last turn.
    pub closed spec fn search_sound(&self) -> bool {
        &&& self.parity_blocks is None ==> clean_since_turn(self.pending(), self.state, self.iteration as int)
        &&& self.parity_blocks is Some ==> leaked_since_turn(self.state)
    }

    /// At least one iteration, each consistent over the working key; a possible state; the
    /// blocks asked lie in the current iteration.
    pub closed spec fn wf(&self) -> bool {
        &&& forall|j: int| 0 <= j < self.iterations@.len() ==> #[trigger] self.iterations@[j].wf(self.working@.len() as int)
        &&& state_ok(self.iterations@.len() as int, self.state, self.iteration as int)
        &&& (self.parity_blocks matches Some(ids) ==> forall|k: int| 0 <= k < ids@.len() ==> #[trigger] ids@[k] < self.iterations@[self.iteration as int].arena().len())
    }

    /// The number of parities learnt.
    pub fn leaked_bits(&self) -> (r: usize)
        ensures
            r == self.leaked(),
    {
        self.leaked_bits
    }

    /// Asks for the parities of the next blocks: the search over the iterations, from the
    /// current state, finds the next iteration with blocks to ask and asks the follower for
    /// their parities, or ends when no iteration has any; refused while parities are awaited.
    pub fn step(&mut self) -> (r: Result<PPStep<(), FollowerRequests>, PPError>)
        requires
            old(self).wf(),
        ensures
            final(self).wf(),
            final(self).key() == old(self).key(),
            final(self).working() == old(self).working(),
            final(self).rounds() == old(self).rounds(),
            final(self).leaked() == old(self).leaked(),
            r is Err <==> old(self).awaiting() is Some,
            old(self).search_sound() ==> final(self).search_sound(),
            old(self).search_sound() && (r matches Ok(PPStep::Result(_))) ==> forall|j: int|
                0 <= j < final(self).rounds().len() ==> #[trigger] final(self).rounds()[j].asking(final(self).working()).len()
                    == 0,
            old(self).awaiting() is Some ==> {
                &&& r is Err
                &&& final(self).awaiting() == old(self).awaiting()
                &&& final(self).at() == old(self).at()
                &&& final(self).phase() == old(self).phase()
            },
            old(self).awaiting() is None ==> {
                let found = search(old(self).pending(), old(self).phase(), old(self).at());
                &&& final(self).phase() == found.0
                &&& final(self).at() == found.1
                &&& found.2 ==> {
                    let asked = old(self).rounds()[found.1].asking(old(self).working());
                    &&& final(self).awaiting() == Some(asked)
                    &&& asked.len() > 0
                    &&& r matches Ok(PPStep::GetUpdate(FollowerRequests::Syndrome(v))) && v.len() == asked.len()
                        && (forall|k: int| 0 <= k < v.len() ==> (#[trigger] v[k])@ == block_positions(
                            old(self).rounds()[found.1].arena(),
                            asked[k] as int,
                        )) && (forall|k: int| 0 <= k < v.len() ==> (#[trigger] v[k])@.len() > 0) && (forall|
                            k: int,
                            j: int,
                        | 0 <= k < v.len() && 0 <= j < v[k]@.len() ==> #[trigger] v[k]@[j] < old(self).working().len())
                }
                &&& !found.2 ==> {
                    &&& final(self).awaiting() is None
                    &&& r matches Ok(PPStep::Result(_))
                }
            },
    {
        if self.parity_blocks.is_some() {
            return Err(PPError::new("Cannot process, outstanding parities missing"));
        }
        let ghost pend = self.pending();
        let ghost start = search(pend, self.state, self.iteration as int);
        proof {
            if self.search_sound() {
                law_search_ends_with_nothing_to_ask(pend, self.state, self.iteration as int);
            }
        }
        let len = self.iterations.len();
        let mut found: Vec<usize> = Vec::new();
        loop
            invariant_except_break
                self.wf(),
                self.parity_blocks is None,
                old(self).parity_blocks is None,
                self.key == old(self).key,
                self.working@ == old(self).working@,
                self.iterations@ == old(self).iterations@,
                self.leaked_bits == old(self).leaked_bits,
                len == self.iterations.len(),
                pend == self.pending(),
                pend == old(self).pending(),
                search(pend, self.state, self.iteration as int) == start,
                start == search(old(self).pending(), old(self).phase(), old(self).at()),
                old(self).search_sound() ==> (start.2 ==> leaked_since_turn(start.0)) && (!start.2 ==> forall|j: int|
                    0 <= j < pend.len() ==> !#[trigger] pend[j]),
            ensures
                self.wf(),
                self.parity_blocks is None,
                self.key == old(self).key,
                self.working@ == old(self).working@,
                self.iterations@ == old(self).iterations@,
                self.leaked_bits == old(self).leaked_bits,
                start == search(old(self).pending(), old(self).phase(), old(self).at()),
                start.2,
                self.state == start.0,
                self.iteration == start.1,
                found@ == self.iterations@[self.iteration as int].asking(self.working@),
                found@.len() > 0,
                forall|t: int| 0 <= t < found.len() ==> #[trigger] found@[t] < self.iterations@[self.iteration as int].arena().len(),
            decreases rank(len as int, self.state), progress(self.state, self.iteration as int),
        {
            let blocks = self.iterations[self.iteration].get_unknown_parity_blocks(&self.working);
            if blocks.len() > 0 {
                proof {
                    assert(pend[self.iteration as int]);
                }
                self.state.leak();
                found = blocks;
                break;
            }
            proof {
                assert(!pend[self.iteration as int]);
            }
            match self.state {
                CascadeState::Backward(max_iter, leaked) => {
                    if self.iteration > 0 {
                        self.iteration = self.iteration - 1;
                    } else {
                        self.iteration = if self.iteration + 1 < max_iter { self.iteration + 1 } else { max_iter };
                        self.state = CascadeState::Forward(max_iter, leaked);
                    }
                },
                CascadeState::Forward(max_iter, leaked) => {
                    if self.iteration + 1 == len && !leaked {
                        proof {
                            if old(self).search_sound() {
                                assert(!start.2);
                                assert forall|j: int| 0 <= j < self.iterations@.len() implies #[trigger] self.iterations@[
                                    j
                                ].asking(self.working@).len() == 0 by {
                                    assert(!pend[j]);
                                }
                            }
                        }
                        return Ok(PPStep::Result(()));
                    }
                    if self.iteration == max_iter {
                        if leaked {
                            self.iteration = if self.iteration > 0 { self.iteration - 1 } else { 0 };
                            self.state = CascadeState::Backward(max_iter, false);
                        } else {
                            self.iteration = self.iteration + 1;
                            self.state = CascadeState::Forward(if max_iter + 1 < len { max_iter + 1 } else { len }, false);
                        }
                    } else {
                        self.iteration = self.iteration + 1;
                    }
                },
            }
        }
        let mut syndrome_indices: Vec<Vec<usize>> = Vec::new();
        let mut k: usize = 0;
        while k < found.len()
            invariant
                k <= found.len(),
                self.wf(),
                found@ == self.iterations@[self.iteration as int].asking(self.working@),
                syndrome_indices.len() == k,
                forall|t: int| 0 <= t < k ==> (#[trigger] syndrome_indices[t])@ == block_positions(
                    self.iterations@[self.iteration as int].arena(),
                    found@[t] as int,
                ),
                forall|t: int| 0 <= t < found.len() ==> #[trigger] found@[t] < self.iterations@[self.iteration as int].arena().len(),
            decreases found.len() - k,
        {
            let it = &self.iterations[self.iteration];
            let b = &it.blocks[found[k]];
            syndrome_indices.push(b.indicies.clone());
            k = k + 1;
        }
        proof {
            let it = self.iterations@[self.iteration as int];
            assert(it.wf(self.working@.len() as int));
            law_asked_blocks_lie_in_key(it, self.working@.len() as int, self.working@);
            assert forall|t: int| 0 <= t < syndrome_indices.len() implies (#[trigger] syndrome_indices[t])@.len() > 0 && forall|
                j: int,
            | 0 <= j < syndrome_indices[t]@.len() ==> syndrome_indices[t]@[j] < self.working@.len() by {
                assert(found@[t] == it.asking(self.working@)[t]);
            }
        }
        self.parity_blocks = Some(found);
        Ok(PPStep::GetUpdate(FollowerRequests::Syndrome(syndrome_indices)))
    }

    /// Takes the follower's parities of the blocks asked: they are recorded, as many as were
    /// asked, fixing the working key; any other answer, or one that was not awaited, is
    /// refused. Either way nothing is awaited any more.
    pub fn update(&mut self, update: FollowerResponse) -> (r: Result<(), PPError>)
        requires
            old(self).wf(),
            update matches FollowerResponse::Syndrome(s) ==> old(self).leaked() + s.len() <= usize::MAX,
        ensures
            final(self).wf(),
            final(self).awaiting() is None,
            old(self).search_sound() ==> final(self).search_sound(),
            final(self).key() == old(self).key(),
            final(self).at() == old(self).at(),
            final(self).phase() == old(self).phase(),
            r is Ok <==> (old(self).awaiting() matches Some(ids) && update matches FollowerResponse::Syndrome(s)
                && s.len() == ids.len()),
            old(self).awaiting() matches Some(ids) ==> update matches FollowerResponse::Syndrome(s) ==> s.len()
                == ids.len() ==> {
                let it = old(self).rounds()[old(self).at()];
                let after = set_all(it.arena(), it.learnt(), old(self).working(), ids, s@, ids.len() as int);
                &&& final(self).leaked() == old(self).leaked() + s.len()
                &&& final(self).working() == after.1
                &&& final(self).rounds().len() == old(self).rounds().len()
                &&& final(self).rounds()[old(self).at()].learnt() == after.0
                &&& final(self).rounds()[old(self).at()].arena() == it.arena()
                &&& final(self).rounds()[old(self).at()].tops() == it.tops()
                &&& forall|j: int|
                    0 <= j < old(self).rounds().len() && j != old(self).at() ==> #[trigger] final(self).rounds()[j]
                        == old(self).rounds()[j]
            },
            r is Err ==> {
                &&& final(self).working() == old(self).working()
                &&& final(self).rounds() == old(self).rounds()
                &&& final(self).leaked() == old(self).leaked()
            },
            forall|k: Seq<bool>|
                #![trigger old(self).truthful(k)]
                update matches FollowerResponse::Syndrome(s) ==> (old(self).truthful(k) && old(self).answers_true(s@, k)
                    ==> final(self).truthful(k) && no_new_errors(old(self).working(), final(self).working(), k)),
    {
        let mut pending: Option<Vec<usize>> = None;
        std::mem::swap(&mut pending, &mut self.parity_blocks);
        let blocks = match pending {
            None => {
                return Err(PPError::new("Not expecting updates"));
            },
            Some(b) => b,
        };
        let syndromes = match update {
            FollowerResponse::Syndrome(v) => v,
            _ => {
                return Err(PPError::new("Unexpected response"));
            },
        };
        if syndromes.len() != blocks.len() {
            return Err(PPError::new("Unexpected length of syndrome"));
        }
        self.leaked_bits = self.leaked_bits + syndromes.len();
        let i = self.iteration;
        self.iterations[i].set_block_parities(&mut self.working, &blocks, &syndromes);
        proof {
            assert forall|k: Seq<bool>|
                #![trigger old(self).truthful(k)]
                old(self).truthful(k) && old(self).answers_true(syndromes@, k) implies self.truthful(k)
                    && no_new_errors(old(self).working(), self.working(), k) by {
                let it = old(self).iterations@[i as int];
                assert(it.holds_truth(old(self).working@, k));
                assert(it.wf(old(self).working@.len() as int));
                lemma_set_all_true(it.blocks@, it.parities@, old(self).working@, k, blocks@, syndromes@, blocks@.len() as int);
                assert forall|j: int| 0 <= j < self.rounds().len() implies #[trigger] self.rounds()[j].holds_truth(
                    self.working(),
                    k,
                ) by {
                    let o = old(self).iterations@[j];
                    assert(o.holds_truth(old(self).working@, k));
                    assert(o.wf(old(self).working@.len() as int));
                    if j != i {
                        assert(self.iterations@[j] == o);
                        lemma_singles_right_kept(o.blocks@, o.parities@, old(self).working@, self.working@, k);
                    }
                }
            }
            assert forall|j: int| 0 <= j < self.iterations@.len() implies #[trigger] self.iterations@[j].wf(
                self.working@.len() as int,
            ) by {
                if j != i {
                    assert(self.iterations@[j] == old(self).iterations@[j]);
                }
            }
        }
        Ok(())
    }

    /// The reconciled key: the working copy, with the parities learnt counted as leaked.
    pub fn finalize(self) -> (r: Result<Key<Reconciled>, PPError>)
        requires
            self.key().stage().revealed_bits.len() + self.leaked() <= usize::MAX,
        ensures
            r matches Ok(k) && {
                &&& k.bits() == self.working()
                &&& k.id() == self.key().id()
                &&& k.device() == self.key().device()
                &&& k.stage().leaked_bits == self.key().stage().revealed_bits.len() + self.leaked()
                &&& k.stage().corrected_bits == mismatches(
                    self.key().bits(),
                    self.working(),
                    if self.key().bits().len() <= self.working().len() {
                        self.key().bits().len() as int
                    } else {
                        self.working().len() as int
                    },
                )
            },
    {
        let fixed = KeyData(self.working);
        Ok(self.key.reconcile(fixed, self.leaked_bits))
    }
}

/// The positions of a key of `n` bits, in order.
pub open spec fn positions(n: nat) -> Seq<usize> {
    Seq::new(n, |i: int| i as usize)
}

/// Puts the positions in a random order, through `SliceRandom::shuffle` of the `rand` crate
/// with the thread's generator: afterwards the same positions are there, each as often as
/// before. Which order comes out is left open.
#[verifier::external_body]
fn shuffle_positions(v: &mut Vec<usize>)
    ensures
        final(v)@.to_multiset() == old(v)@.to_multiset(),
{
    v.shuffle(&mut rand::thread_rng());
}

proof fn lemma_double_fits(b: int, j: nat, num: nat)
    requires
        b >= 1,
        j < num,
        b * pow2(num) <= usize::MAX,
    ensures
        b * pow2(j + 1) <= usize::MAX,
        b * pow2(j + 1) == 2 * (b * pow2(j)),
{
    lemma_pow2_unfold(j + 1);
    assert(pow2((j + 1 - 1) as nat) == pow2(j));
    if j + 1 < num {
        lemma_pow2_strictly_increases(j + 1, num);
    }
    lemma_mul_left_inequality(b, pow2(j + 1) as int, pow2(num) as int);
    let p = pow2(j) as int;
    assert(b * (2 * p) == 2 * (b * p)) by (nonlinear_arith);
}

/// The whole blocks of the iteration `it` are the pieces of `size` of some order of the `n`
/// positions of the key.
pub open spec fn shuffled_blocks(it: CascadeIteration, n: nat, size: nat) -> bool {
    exists|order: Seq<usize>|
        #[trigger] chunks(order, size) == it.top_positions() && order.to_multiset() == positions(n).to_multiset()
}

/// The setup of Cascade: the number of iterations.
pub struct SetupCascade {
    num_iterations: usize,
}

impl SetupCascade {
    /// The number of iterations.
    pub closed spec fn iterations(&self) -> usize {
        self.num_iterations
    }

    /// The setup for `num_iterations` iterations.
    pub fn new(num_iterations: usize) -> (r: Self)
        ensures
            r.iterations() == num_iterations,
    {
        Self { num_iterations }
    }

    /// The number of iterations.
    pub fn num_iterations(&self) -> (r: usize)
        ensures
            r == self.iterations(),
    {
        self.num_iterations
    }

    /// Cascade over the key: each iteration cuts its own random order of the key's positions
    /// into blocks, of `initial_block_size` in the first iteration and twice as large in each
    /// next one; the search starts forward at the first iteration.
    pub fn setup(self, key: Key<Reconciling>, initial_block_size: usize) -> (r: Cascade)
        requires
            self.iterations() >= 1,
            initial_block_size >= 1,
            initial_block_size * pow2(self.iterations() as nat) <= usize::MAX,
            2 * key.bits().len() <= usize::MAX,
        ensures
            r.wf(),
            r.key() == key,
            r.working() == key.bits(),
            r.leaked() == 0,
            r.awaiting() is None,
            r.at() == 0,
            r.phase() == CascadeState::Forward(0, false),
            r.search_sound(),
            r.rounds().len() == self.iterations(),
            forall|j: int| 0 <= j < r.rounds().len() ==> shuffled_blocks(
                #[trigger] r.rounds()[j],
                key.bits().len(),
                (initial_block_size * pow2(j as nat)) as nat,
            ),
            forall|j: int, k: int| 0 <= j < r.rounds().len() && 0 <= k < r.rounds()[j].learnt().len() ==> #[trigger] r.rounds()[j].learnt()[k] is None,
            forall|k: Seq<bool>| k.len() == key.bits().len() ==> #[trigger] r.truthful(k),
            forall|j: int| 0 <= j < r.rounds().len() ==> #[trigger] r.rounds()[j].arena().len() <= 2 * key.bits().len(),
    {
        let n = key.length();
        let working = key.get_interior();
        let num = self.num_iterations;
        let mut iterations: Vec<CascadeIteration> = Vec::new();
        let mut block_size = initial_block_size;
        let mut j: usize = 0;
        proof {
            assert(pow2(0) == 1) by {
                vstd::arithmetic::power2::lemma2_to64();
            }
        }
        while j < num
            invariant
                j <= num,
                num == self.num_iterations,
                n == key.bits().len(),
                working@ == key.bits(),
                2 * n <= usize::MAX,
                initial_block_size >= 1,
                initial_block_size * pow2(num as nat) <= usize::MAX,
                block_size == initial_block_size * pow2(j as nat),
                iterations.len() == j,
                forall|t: int| 0 <= t < j ==> #[trigger] iterations@[t].wf(n as int) && iterations@[t].arena().len() <= 2 * n,
                forall|t: int| 0 <= t < j ==> shuffled_blocks(
                    #[trigger] iterations@[t],
                    n as nat,
                    (initial_block_size * pow2(t as nat)) as nat,
                ),
                forall|t: int, k: int| 0 <= t < j && 0 <= k < iterations@[t].learnt().len() ==> #[trigger] iterations@[t].learnt()[k] is None,
            decreases num - j,
        {
            let mut idx: Vec<usize> = Vec::new();
            let mut i: usize = 0;
            while i < n
                invariant
                    i <= n,
                    idx@ == positions(i as nat),
                decreases n - i,
            {
                idx.push(i);
                proof {
                    assert(idx@ =~= positions((i + 1) as nat));
                }
                i = i + 1;
            }
            let ghost ordered = idx@;
            shuffle_positions(&mut idx);
            proof {
                broadcast use vstd::seq_lib::group_to_multiset_ensures;
                assert(idx@.len() == idx@.to_multiset().len());
                assert(ordered.len() == ordered.to_multiset().len());
                assert forall|k: int| 0 <= k < idx.len() implies #[trigger] idx[k] < n by {
                    assert(idx@.contains(idx@[k]));
                    assert(idx@.to_multiset().count(idx@[k]) > 0);
                    assert(ordered.contains(idx@[k]));
                }
                lemma_double_fits(initial_block_size as int, j as nat, num as nat);
                vstd::arithmetic::power2::lemma_pow2_pos(j as nat);
                lemma_mul_left_inequality(initial_block_size as int, 1, pow2(j as nat) as int);
            }
            let x = CascadeIteration::new(idx, block_size, n);
            proof {
                assert(chunks(idx@, block_size as nat) == x.top_positions());
                assert(shuffled_blocks(x, n as nat, (initial_block_size * pow2(j as nat)) as nat));
            }
            iterations.push(x);
            block_size = block_size * 2;
            j = j + 1;
        }
        proof {
            assert forall|k: Seq<bool>, t: int| k.len() == n && 0 <= t < iterations@.len() implies #[trigger] iterations@[t].holds_truth(working@, k) by {
                let it = iterations@[t];
                assert(it.wf(n as int));
                assert forall|id: int| 0 <= id < it.blocks@.len() && #[trigger] it.parities@[id] is Some implies false by {
                    assert(iterations@[t].learnt()[id] is None);
                }
            }
        }
        proof {
            assert forall|t: int| 0 <= t < iterations@.len() implies #[trigger] iterations@[t].arena().len() <= 2 * n by {
                assert(iterations@[t].wf(n as int));
            }
        }
        Cascade {
            key,
            working,
            iterations,
            parity_blocks: None,
            iteration: 0,
            leaked_bits: 0,
            state: CascadeState::Forward(0, false),
        }
    }
}


/// The number of parities not learnt yet.
spec fn count_none(ps: Seq<Option<bool>>) -> nat
    decreases ps.len(),
{
    if ps.len() == 0 {
        0
    } else {
        count_none(ps.drop_last()) + if ps.last() is None {
            1nat
        } else {
            0nat
        }
    }
}

/// The number of parities not learnt yet, over all iterations.
spec fn total_none(rs: Seq<CascadeIteration>) -> nat
    decreases rs.len(),
{
    if rs.len() == 0 {
        0
    } else {
        total_none(rs.drop_last()) + count_none(rs.last().learnt())
    }
}

/// Learning parities only lowers the number not learnt, and strictly where one is learnt.
proof fn lemma_count_none_drops(a: Seq<Option<bool>>, b: Seq<Option<bool>>, j: int)
    requires
        a.len() == b.len(),
        forall|i: int| 0 <= i < a.len() && #[trigger] a[i] is Some ==> b[i] is Some,
    ensures
        count_none(b) <= count_none(a),
        0 <= j < a.len() && a[j] is None && b[j] is Some ==> count_none(b) < count_none(a),
    decreases a.len(),
{
    if a.len() > 0 {
        let n = a.len() - 1;
        assert forall|i: int| 0 <= i < a.drop_last().len() && #[trigger] a.drop_last()[i] is Some implies b.drop_last()[i] is Some by {
            assert(a[i] is Some);
        }
        lemma_count_none_drops(a.drop_last(), b.drop_last(), j);
        if j < n && 0 <= j {
            assert(a.drop_last()[j] == a[j]);
            assert(b.drop_last()[j] == b[j]);
        }
        if a.last() is Some {
            assert(a[n] is Some);
        }
    }
}

/// Setting a parity keeps the parities learnt and learns that of the block.
proof fn lemma_set_parity_keeps(bs: Seq<CascadeBlock>, ps: Seq<Option<bool>>, w: Seq<bool>, id: int, p: bool)
    requires
        ps.len() == bs.len(),
    ensures
        set_parity(bs, ps, w, id, p).0.len() == ps.len(),
        forall|i: int| 0 <= i < ps.len() && #[trigger] ps[i] is Some ==> set_parity(bs, ps, w, id, p).0[i] is Some,
        0 <= id < bs.len() ==> set_parity(bs, ps, w, id, p).0[id] is Some,
    decreases bs.len() - id,
{
    lemma_set_parity_len(bs, ps, w, id, p);
    if 0 <= id < bs.len() {
        let b = bs[id];
        let ps1 = ps.update(id, Some(p));
        let w1 = if b.indicies@.len() == 1 && p != parity(w, b.indicies@) && b.indicies@[0] < w.len() {
            w.update(b.indicies@[0] as int, !w[b.indicies@[0] as int])
        } else {
            w
        };
        match (b.right_sibling, b.parent) {
            (Some(s), Some(pa)) => match ps1[pa as int] {
                Some(pp) => if id < s < bs.len() {
                    lemma_set_parity_keeps(bs, ps1, w1, s as int, pp != p);
                    assert forall|i: int| 0 <= i < ps.len() && #[trigger] ps[i] is Some implies set_parity(bs, ps, w, id, p).0[i] is Some by {
                        assert(ps1[i] is Some);
                    }
                    assert(ps1[id] is Some);
                },
                None => {},
            },
            _ => {},
        }
    }
}

/// Setting parities in turn keeps the parities learnt and learns those of the blocks set.
proof fn lemma_set_all_keeps(bs: Seq<CascadeBlock>, ps: Seq<Option<bool>>, w: Seq<bool>, ids: Seq<usize>, ss: Seq<bool>, k: int)
    requires
        ps.len() == bs.len(),
    ensures
        set_all(bs, ps, w, ids, ss, k).0.len() == ps.len(),
        forall|i: int| 0 <= i < ps.len() && #[trigger] ps[i] is Some ==> set_all(bs, ps, w, ids, ss, k).0[i] is Some,
        forall|t: int| 0 <= t < k && #[trigger] ids[t] < bs.len() ==> set_all(bs, ps, w, ids, ss, k).0[ids[t] as int] is Some,
    decreases k,
{
    if k > 0 {
        lemma_set_all_keeps(bs, ps, w, ids, ss, k - 1);
        let (ps1, w1) = set_all(bs, ps, w, ids, ss, k - 1);
        lemma_set_parity_keeps(bs, ps1, w1, ids[k - 1] as int, ss[k - 1]);
        assert forall|i: int| 0 <= i < ps.len() && #[trigger] ps[i] is Some implies set_all(bs, ps, w, ids, ss, k).0[i] is Some by {
            assert(ps1[i] is Some);
        }
        assert forall|t: int| 0 <= t < k && #[trigger] ids[t] < bs.len() implies set_all(bs, ps, w, ids, ss, k).0[ids[t] as int] is Some by {
            if t < k - 1 {
                assert(ps1[ids[t] as int] is Some);
            }
        }
    }
}

/// The blocks to ask lie in the arena and have no parity learnt.
proof fn lemma_unknown_of_fresh(bs: Seq<CascadeBlock>, ps: Seq<Option<bool>>, w: Seq<bool>, id: int)
    requires
        ps.len() == bs.len(),
        bs.len() <= usize::MAX,
    ensures
        forall|t: int| 0 <= t < unknown_of(bs, ps, w, id).len() ==> #[trigger] unknown_of(bs, ps, w, id)[t] < bs.len()
            && ps[unknown_of(bs, ps, w, id)[t] as int] is None,
    decreases bs.len() - id,
{
    if 0 <= id < bs.len() {
        let b = bs[id];
        match ps[id] {
            None => {
                if b.parent is None || b.right_sibling is Some {
                    assert(unknown_of(bs, ps, w, id) =~= seq![id as usize]);
                } else {
                    assert(unknown_of(bs, ps, w, id) =~= Seq::<usize>::empty());
                }
            },
            Some(p) => match b.sub_blocks {
                Some((l, r)) => if p != parity(w, b.indicies@) && id < l < bs.len() && id < r < bs.len() {
                    assert(unknown_of(bs, ps, w, id) == unknown_of(bs, ps, w, l as int) + unknown_of(bs, ps, w, r as int));
                    lemma_unknown_of_fresh(bs, ps, w, l as int);
                    lemma_unknown_of_fresh(bs, ps, w, r as int);
                    let left = unknown_of(bs, ps, w, l as int);
                    let right = unknown_of(bs, ps, w, r as int);
                    assert forall|t: int| 0 <= t < (left + right).len() implies #[trigger] (left + right)[t] < bs.len()
                        && ps[(left + right)[t] as int] is None by {
                        if t < left.len() {
                            assert((left + right)[t] == left[t]);
                        } else {
                            assert((left + right)[t] == right[t - left.len()]);
                        }
                    }
                },
                None => {},
            },
        }
    }
}

/// The blocks to ask under whole blocks lie in the arena and have no parity learnt.
proof fn lemma_unknown_list_fresh(bs: Seq<CascadeBlock>, ps: Seq<Option<bool>>, w: Seq<bool>, ids: Seq<usize>, k: int)
    requires
        ps.len() == bs.len(),
        bs.len() <= usize::MAX,
    ensures
        forall|t: int| 0 <= t < unknown_list(bs, ps, w, ids, k).len() ==> #[trigger] unknown_list(bs, ps, w, ids, k)[t]
            < bs.len() && ps[unknown_list(bs, ps, w, ids, k)[t] as int] is None,
    decreases k,
{
    if k > 0 {
        lemma_unknown_list_fresh(bs, ps, w, ids, k - 1);
        lemma_unknown_of_fresh(bs, ps, w, ids[k - 1] as int);
        let left = unknown_list(bs, ps, w, ids, k - 1);
        let right = unknown_of(bs, ps, w, ids[k - 1] as int);
        assert forall|t: int| 0 <= t < (left + right).len() implies #[trigger] (left + right)[t] < bs.len()
            && ps[(left + right)[t] as int] is None by {
            if t < left.len() {
                assert((left + right)[t] == left[t]);
            } else {
                assert((left + right)[t] == right[t - left.len()]);
            }
        }
    }
}

/// Following parents from block `x` reaches block `id`: `x` lies under `id`.
spec fn under(bs: Seq<CascadeBlock>, x: int, id: int) -> bool
    decreases x,
{
    if x == id {
        true
    } else if 0 <= x < bs.len() {
        match bs[x].parent {
            Some(p) => if p < x {
                under(bs, p as int, id)
            } else {
                false
            },
            None => false,
        }
    } else {
        false
    }
}

/// A block lies only under blocks that come before it.
proof fn lemma_under_before(bs: Seq<CascadeBlock>, x: int, id: int)
    requires
        under(bs, x, id),
    ensures
        id <= x,
    decreases x,
{
    if x != id {
        let p = bs[x].parent.unwrap() as int;
        lemma_under_before(bs, p, id);
    }
}

/// What lies under a half lies under the half's parent.
proof fn lemma_under_parent(bs: Seq<CascadeBlock>, x: int, l: int, id: int)
    requires
        under(bs, x, l),
        0 <= id < l < bs.len(),
        bs.len() <= usize::MAX,
        bs[l].parent == Some(id as usize),
    ensures
        under(bs, x, id),
    decreases x,
{
    if x == l {
        assert(under(bs, id, id));
    } else {
        let p = bs[x].parent.unwrap() as int;
        lemma_under_parent(bs, p, l, id);
    }
}

/// Two blocks above one block lie one under the other.
proof fn lemma_under_chain(bs: Seq<CascadeBlock>, x: int, a: int, b: int)
    requires
        under(bs, x, a),
        under(bs, x, b),
    ensures
        under(bs, a, b) || under(bs, b, a),
    decreases x,
{
    if x != a && x != b {
        let p = bs[x].parent.unwrap() as int;
        lemma_under_chain(bs, p, a, b);
    }
}

/// The blocks to ask under block `id` lie under it, each once.
proof fn lemma_unknown_of_distinct(bs: Seq<CascadeBlock>, ps: Seq<Option<bool>>, w: Seq<bool>, id: int)
    requires
        forall|j: int| 0 <= j < bs.len() ==> #[trigger] node_ok(bs, j),
        bs.len() <= usize::MAX,
    ensures
        forall|t: int| 0 <= t < unknown_of(bs, ps, w, id).len() ==> under(bs, #[trigger] unknown_of(bs, ps, w, id)[t] as int, id),
        unknown_of(bs, ps, w, id).no_duplicates(),
    decreases bs.len() - id,
{
    if 0 <= id < bs.len() {
        let b = bs[id];
        match ps[id] {
            None => {
                if b.parent is None || b.right_sibling is Some {
                    assert(unknown_of(bs, ps, w, id) =~= seq![id as usize]);
                } else {
                    assert(unknown_of(bs, ps, w, id) =~= Seq::<usize>::empty());
                }
            },
            Some(p) => match b.sub_blocks {
                Some((l, r)) => if p != parity(w, b.indicies@) && id < l < bs.len() && id < r < bs.len() {
                    assert(node_ok(bs, id));
                    assert(node_ok(bs, l as int));
                    assert(node_ok(bs, r as int));
                    lemma_unknown_of_distinct(bs, ps, w, l as int);
                    lemma_unknown_of_distinct(bs, ps, w, r as int);
                    let left = unknown_of(bs, ps, w, l as int);
                    let right = unknown_of(bs, ps, w, r as int);
                    assert(unknown_of(bs, ps, w, id) == left + right);
                    assert forall|t: int| 0 <= t < (left + right).len() implies under(bs, #[trigger] (left + right)[t] as int, id) by {
                        if t < left.len() {
                            assert((left + right)[t] == left[t]);
                            lemma_under_parent(bs, left[t] as int, l as int, id);
                        } else {
                            assert((left + right)[t] == right[t - left.len()]);
                            lemma_under_parent(bs, right[t - left.len()] as int, r as int, id);
                        }
                    }
                    assert forall|i: int, j: int| 0 <= i < j < (left + right).len() implies (left + right)[i] != (left + right)[j] by {
                        if j < left.len() {
                            assert((left + right)[i] == left[i]);
                            assert((left + right)[j] == left[j]);
                        } else if i >= left.len() {
                            assert((left + right)[i] == right[i - left.len()]);
                            assert((left + right)[j] == right[j - left.len()]);
                        } else {
                            let x = left[i];
                            let y = right[j - left.len()];
                            assert((left + right)[i] == x);
                            assert((left + right)[j] == y);
                            if x == y {
                                assert(under(bs, x as int, l as int));
                                assert(under(bs, y as int, r as int));
                                lemma_under_chain(bs, x as int, l as int, r as int);
                                if under(bs, l as int, r as int) {
                                    lemma_under_before(bs, l as int, r as int);
                                } else {
                                    assert(bs[r as int].parent == Some(id as usize));
                                    lemma_under_before(bs, id, l as int);
                                }
                            }
                        }
                    }
                } else {
                    assert(unknown_of(bs, ps, w, id) =~= Seq::<usize>::empty());
                },
                None => {
                    assert(unknown_of(bs, ps, w, id) =~= Seq::<usize>::empty());
                },
            },
        }
    } else {
        assert(unknown_of(bs, ps, w, id) =~= Seq::<usize>::empty());
    }
}

/// The blocks to ask under whole blocks in increasing order with no parent, each once.
proof fn lemma_unknown_list_distinct(bs: Seq<CascadeBlock>, ps: Seq<Option<bool>>, w: Seq<bool>, ids: Seq<usize>, k: int)
    requires
        forall|j: int| 0 <= j < bs.len() ==> #[trigger] node_ok(bs, j),
        bs.len() <= usize::MAX,
        0 <= k <= ids.len(),
        forall|t: int| 0 <= t < ids.len() ==> #[trigger] ids[t] < bs.len() && bs[ids[t] as int].parent is None,
        forall|a: int, b: int| 0 <= a < b < ids.len() ==> #[trigger] ids[a] < #[trigger] ids[b],
    ensures
        forall|t: int| 0 <= t < unknown_list(bs, ps, w, ids, k).len() ==> exists|q: int| 0 <= q < k
            && under(bs, #[trigger] unknown_list(bs, ps, w, ids, k)[t] as int, ids[q] as int),
        unknown_list(bs, ps, w, ids, k).no_duplicates(),
    decreases k,
{
    if k > 0 {
        lemma_unknown_list_distinct(bs, ps, w, ids, k - 1);
        lemma_unknown_of_distinct(bs, ps, w, ids[k - 1] as int);
        let left = unknown_list(bs, ps, w, ids, k - 1);
        let right = unknown_of(bs, ps, w, ids[k - 1] as int);
        assert(unknown_list(bs, ps, w, ids, k) == left + right);
        assert forall|t: int| 0 <= t < (left + right).len() implies exists|q: int| 0 <= q < k
            && under(bs, #[trigger] (left + right)[t] as int, ids[q] as int) by {
            if t < left.len() {
                assert((left + right)[t] == left[t]);
                let q = choose|q: int| 0 <= q < k - 1 && under(bs, left[t] as int, ids[q] as int);
                assert(under(bs, (left + right)[t] as int, ids[q] as int));
            } else {
                assert((left + right)[t] == right[t - left.len()]);
                assert(under(bs, (left + right)[t] as int, ids[k - 1] as int));
            }
        }
        assert forall|i: int, j: int| 0 <= i < j < (left + right).len() implies (left + right)[i] != (left + right)[j] by {
            if j < left.len() {
                assert((left + right)[i] == left[i]);
                assert((left + right)[j] == left[j]);
            } else if i >= left.len() {
                assert((left + right)[i] == right[i - left.len()]);
                assert((left + right)[j] == right[j - left.len()]);
            } else {
                let x = left[i];
                let y = right[j - left.len()];
                assert((left + right)[i] == x);
                assert((left + right)[j] == y);
                if x == y {
                    let q = choose|q: int| 0 <= q < k - 1 && under(bs, left[i] as int, ids[q] as int);
                    let a = ids[q] as int;
                    let c = ids[k - 1] as int;
                    assert(a < c);
                    lemma_under_chain(bs, x as int, a, c);
                    assert(bs[a].parent is None);
                    assert(bs[c].parent is None);
                }
            }
        }
    } else {
        assert(unknown_list(bs, ps, w, ids, k) =~= Seq::<usize>::empty());
    }
}

/// Learning one parity lowers the number not learnt by one.
proof fn lemma_count_none_update(a: Seq<Option<bool>>, x: int, v: bool)
    requires
        0 <= x < a.len(),
        a[x] is None,
    ensures
        count_none(a.update(x, Some(v))) + 1 == count_none(a),
    decreases a.len(),
{
    let n = a.len() - 1;
    if x == n {
        assert(a.update(x, Some(v)).drop_last() =~= a.drop_last());
    } else {
        lemma_count_none_update(a.drop_last(), x, v);
        assert(a.update(x, Some(v)).drop_last() =~= a.drop_last().update(x, Some(v)));
    }
}

/// Learning the parities of distinct blocks lowers the number not learnt by as many.
proof fn lemma_count_none_many(a: Seq<Option<bool>>, b: Seq<Option<bool>>, ids: Seq<usize>)
    requires
        a.len() == b.len(),
        forall|i: int| 0 <= i < a.len() && #[trigger] a[i] is Some ==> b[i] is Some,
        ids.no_duplicates(),
        forall|t: int| 0 <= t < ids.len() ==> #[trigger] ids[t] < a.len() && a[ids[t] as int] is None && b[ids[t] as int] is Some,
    ensures
        count_none(b) + ids.len() <= count_none(a),
    decreases ids.len(),
{
    if ids.len() == 0 {
        lemma_count_none_drops(a, b, 0);
    } else {
        let x = ids.last() as int;
        assert(ids[ids.len() - 1] < a.len());
        let a1 = a.update(x, Some(true));
        lemma_count_none_update(a, x, true);
        let rest = ids.drop_last();
        assert forall|t: int| 0 <= t < rest.len() implies #[trigger] rest[t] < a1.len() && a1[rest[t] as int] is None && b[rest[t] as int] is Some by {
            assert(rest[t] == ids[t]);
            assert(ids[t] != ids[ids.len() - 1]);
        }
        assert forall|i: int| 0 <= i < a1.len() && #[trigger] a1[i] is Some implies b[i] is Some by {
            if i != x {
                assert(a[i] is Some);
            }
        }
        assert(rest.no_duplicates()) by {
            assert forall|i: int, j: int| 0 <= i < rest.len() && 0 <= j < rest.len() && i != j implies rest[i] != rest[j] by {
                assert(rest[i] == ids[i]);
                assert(rest[j] == ids[j]);
            }
        }
        lemma_count_none_many(a1, b, rest);
    }
}

/// No more parities are missing than there are slots.
proof fn lemma_count_none_le_len(a: Seq<Option<bool>>)
    ensures
        count_none(a) <= a.len(),
    decreases a.len(),
{
    if a.len() > 0 {
        lemma_count_none_le_len(a.drop_last());
    }
}

/// Over all iterations, no more parities are missing than `m` per iteration.
proof fn lemma_total_none_bound(rs: Seq<CascadeIteration>, m: int)
    requires
        0 <= m,
        forall|j: int| 0 <= j < rs.len() ==> (#[trigger] rs[j]).learnt().len() <= m,
    ensures
        total_none(rs) <= rs.len() * m,
    decreases rs.len(),
{
    if rs.len() > 0 {
        let n = rs.len() - 1;
        assert forall|j: int| 0 <= j < rs.drop_last().len() implies (#[trigger] rs.drop_last()[j]).learnt().len() <= m by {
            assert(rs.drop_last()[j] == rs[j]);
        }
        lemma_total_none_bound(rs.drop_last(), m);
        lemma_count_none_le_len(rs.last().learnt());
        assert(rs[n].learnt().len() <= m);
        assert(n * m + m == rs.len() * m) by (nonlinear_arith)
            requires
                n == rs.len() - 1;
    }
}

/// Changing one iteration to one with `d` fewer parities missing lowers the total by `d`.
proof fn lemma_total_none_less(a: Seq<CascadeIteration>, b: Seq<CascadeIteration>, j: int, d: int)
    requires
        a.len() == b.len(),
        0 <= j < a.len(),
        forall|t: int| 0 <= t < a.len() && t != j ==> #[trigger] b[t] == a[t],
        count_none(b[j].learnt()) + d <= count_none(a[j].learnt()),
    ensures
        total_none(b) + d <= total_none(a),
    decreases a.len(),
{
    let n = a.len() - 1;
    if j == n {
        assert(a.drop_last() =~= b.drop_last());
    } else {
        assert forall|t: int| 0 <= t < a.drop_last().len() && t != j implies #[trigger] b.drop_last()[t] == a.drop_last()[t] by {
            assert(b[t] == a[t]);
        }
        assert(b.drop_last()[j] == b[j]);
        assert(a.drop_last()[j] == a[j]);
        lemma_total_none_less(a.drop_last(), b.drop_last(), j, d);
        assert(b[n] == a[n]);
    }
}

/// The parities missing in one iteration are among those missing overall.
proof fn lemma_total_none_part(rs: Seq<CascadeIteration>, j: int)
    requires
        0 <= j < rs.len(),
    ensures
        count_none(rs[j].learnt()) <= total_none(rs),
    decreases rs.len(),
{
    if j < rs.len() - 1 {
        assert(rs.drop_last()[j] == rs[j]);
        lemma_total_none_part(rs.drop_last(), j);
    }
}

/// Cascade against a follower whose key is `correct_key` and who answers every request
/// with that key's parities, until it ends: the reconciled key. Answered so, Cascade ends,
/// never makes a bit wrong that was right, and leaks at most one bit per block of its
/// iterations, which is what bounds the counts of leaked bits.
pub fn run_ec(ec: Cascade, correct_key: &[bool]) -> (r: Option<Key<Reconciled>>)
    requires
        ec.wf(),
        ec.awaiting() is None,
        ec.truthful(correct_key@),
        forall|j: int| 0 <= j < ec.rounds().len() ==> #[trigger] ec.rounds()[j].arena().len() <= 2 * correct_key@.len(),
        ec.key().stage().revealed_bits.len() + ec.leaked() + 2 * correct_key@.len() * ec.rounds().len() <= usize::MAX,
    ensures
        r matches Some(k) && {
            &&& no_new_errors(ec.working(), k.bits(), correct_key@)
            &&& k.id() == ec.key().id()
            &&& k.device() == ec.key().device()
            &&& k.stage().leaked_bits <= ec.key().stage().revealed_bits.len() + ec.leaked() + 2 * correct_key@.len()
                * ec.rounds().len()
        },
{
    let mut run = ec;
    let ghost w0 = run.working();
    let ghost key0 = run.key();
    let ghost n = correct_key@.len() as int;
    let ghost rounds0 = run.rounds().len() as int;
    let ghost bound = run.leaked() + 2 * n * rounds0;
    proof {
        assert forall|i: int| 0 <= i < w0.len() && #[trigger] w0[i] == correct_key@[i] implies w0[i] == correct_key@[i] by {}
        assert forall|j: int| 0 <= j < run.rounds().len() implies (#[trigger] run.rounds()[j]).learnt().len() <= 2 * n by {
            assert(run.rounds()[j].wf(run.working().len() as int));
            assert(run.rounds()[j].arena().len() <= 2 * n);
        }
        lemma_total_none_bound(run.rounds(), 2 * n);
        assert(rounds0 * (2 * n) == 2 * n * rounds0) by (nonlinear_arith);
    }
    loop
        invariant
            run.wf(),
            run.awaiting() is None,
            run.truthful(correct_key@),
            no_new_errors(w0, run.working(), correct_key@),
            run.key() == key0,
            w0 == ec.working(),
            key0 == ec.key(),
            n == correct_key@.len(),
            run.rounds().len() == rounds0,
            rounds0 == ec.rounds().len(),
            forall|j: int| 0 <= j < run.rounds().len() ==> #[trigger] run.rounds()[j].arena().len() <= 2 * n,
            run.leaked() + total_none(run.rounds()) <= bound,
            bound == ec.leaked() + 2 * n * rounds0,
            key0.stage().revealed_bits.len() + bound <= usize::MAX,
        decreases total_none(run.rounds()),
    {
        let ghost before = run;
        let step = run.step();
        match step {
            Ok(PPStep::Result(_)) => {
                let ghost last = run;
                let done = run.finalize();
                match done {
                    Ok(k) => {
                        proof {
                            assert(k.bits() == last.working());
                            assert(last.working() == before.working());
                            assert(no_new_errors(w0, k.bits(), correct_key@));
                            assert(k.id() == key0.id());
                            assert(k.device() == key0.device());
                        }
                        return Some(k);
                    },
                    // `finalize` always gives the key.
                    Err(_) => {
                        return None;
                    },
                }
            },
            Ok(PPStep::GetUpdate(FollowerRequests::Syndrome(lists))) => {
                let ghost at = run.at();
                let ghost it = run.rounds()[at];
                let ghost asked = it.asking(before.working());
                proof {
                    assert(it.wf(before.working().len() as int));
                    assert(it.blocks.len() == it.arena().len());
                    lemma_unknown_list_fresh(it.arena(), it.learnt(), before.working(), it.tops(), it.tops().len() as int);
                    assert forall|j: int| 0 <= j < it.arena().len() implies #[trigger] node_ok(it.arena(), j) by {
                        assert(node_ok(it.blocks@, j));
                    }
                    lemma_unknown_list_distinct(it.arena(), it.learnt(), before.working(), it.tops(), it.tops().len() as int);
                }
                let mut s: Vec<bool> = Vec::new();
                let mut t: usize = 0;
                while t < lists.len()
                    invariant
                        t <= lists.len(),
                        lists.len() == asked.len(),
                        correct_key@.len() == before.working().len(),
                        it.wf(before.working().len() as int),
                        forall|q: int| 0 <= q < asked.len() ==> #[trigger] asked[q] < it.arena().len(),
                        forall|q: int| 0 <= q < lists.len() ==> (#[trigger] lists[q])@ == block_positions(it.arena(), asked[q] as int),
                        s@.len() == t,
                        forall|q: int| 0 <= q < t ==> #[trigger] s@[q] == parity(correct_key@, block_positions(it.arena(), asked[q] as int)),
                    decreases lists.len() - t,
                {
                    proof {
                        let id = asked[t as int] as int;
                        assert(id < it.arena().len());
                        assert forall|j: int| 0 <= j < lists[t as int]@.len() implies #[trigger] lists[t as int]@[j] < correct_key.len() by {
                            assert(node_ok(it.arena(), id));
                            assert(it.arena()[id].indicies@[j] < before.working().len());
                        }
                    }
                    let b = crate::bits::calc_syndrome(lists[t].as_slice(), correct_key);
                    s.push(b);
                    t = t + 1;
                }
                let ghost mid = run;
                let ghost sv = s@;
                let ghost after = set_all(it.arena(), it.learnt(), before.working(), asked, sv, asked.len() as int);
                proof {
                    assert(mid.answers_true(sv, correct_key@));
                    assert(mid.truthful(correct_key@));
                    lemma_set_all_keeps(it.arena(), it.learnt(), before.working(), asked, sv, asked.len() as int);
                    assert forall|q: int| 0 <= q < asked.len() implies #[trigger] asked[q] < it.learnt().len()
                        && it.learnt()[asked[q] as int] is None && after.0[asked[q] as int] is Some by {
                        assert(asked[q] < it.arena().len());
                    }
                    lemma_count_none_many(it.learnt(), after.0, asked);
                    lemma_total_none_part(before.rounds(), at);
                    assert(run.leaked() + s@.len() <= usize::MAX);
                }
                let outcome = run.update(FollowerResponse::Syndrome(s));
                proof {
                    assert(outcome is Ok);
                    assert(run.rounds()[at].learnt() == after.0);
                    lemma_total_none_less(before.rounds(), run.rounds(), at, asked.len() as int);
                    assert forall|i: int| 0 <= i < w0.len() && #[trigger] w0[i] == correct_key@[i] implies run.working()[i] == correct_key@[i] by {
                        assert(before.working()[i] == correct_key@[i]);
                    }
                    assert forall|j: int| 0 <= j < run.rounds().len() implies #[trigger] run.rounds()[j].arena().len() <= 2 * n by {
                        if j != at {
                            assert(run.rounds()[j] == before.rounds()[j]);
                        }
                    }
                }
            },
            // With nothing awaited, `step` either asks for parities or ends.
            _ => {
                return None;
            },
        }
    }
}

/// The number of positions, among the first `min(len)`, where two keys differ.
pub fn error_count(key1: &[bool], key2: &[bool]) -> (r: usize)
    ensures
        r == mismatches(key1@, key2@, if key1.len() <= key2.len() { key1.len() as int } else { key2.len() as int }),
{
    let n: usize = if key1.len() <= key2.len() { key1.len() } else { key2.len() };
    let mut count: usize = 0;
    let mut i: usize = 0;
    while i < n
        invariant
            i <= n,
            n <= key1.len(),
            n <= key2.len(),
            count == mismatches(key1@, key2@, i as int),
            count <= i,
        decreases n - i,
    {
        if key1[i] != key2[i] {
            count = count + 1;
        }
        i = i + 1;
    }
    count
}

/// The positions where a key differs from `k` can only become fewer when no bit that agreed
/// with `k` changes: Cascade answered truthfully leaves no more errors than it found.
pub proof fn law_errors_do_not_grow(w1: Seq<bool>, w2: Seq<bool>, k: Seq<bool>, n: int)
    requires
        no_new_errors(w1, w2, k),
        0 <= n <= w1.len(),
    ensures
        mismatches(w2, k, n) <= mismatches(w1, k, n),
    decreases n,
{
    if n > 0 {
        law_errors_do_not_grow(w1, w2, k, n - 1);
        if w1[n - 1] == k[n - 1] {
            assert(w2[n - 1] == k[n - 1]);
        }
    }
}

} // verus!
