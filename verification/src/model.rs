//! The mathematical model of the tree: how one construction round combines
//! a level of digests, how repeated rounds reduce a level to the root, which
//! sibling path belongs to a leaf position, and how verification chains a
//! path back up to the root.

use vstd::prelude::*;

use crate::digest::{internal_hash, sha256_of};

verus! {

/// The digests of the leaves, in blob order.
pub open spec fn leaf_hashes_of(blobs: Seq<Seq<u8>>) -> Seq<Seq<u8>> {
    Seq::new(blobs.len(), |i: int| sha256_of(blobs[i]))
}

/// One construction round: consecutive pairs are joined left-then-right;
/// when the level holds an odd count, the last digest is paired with itself.
pub open spec fn combine_level(level: Seq<Seq<u8>>) -> Seq<Seq<u8>> {
    Seq::new(
        (level.len() + 1) / 2,
        |j: int|
            if 2 * j + 1 < level.len() {
                internal_hash(level[2 * j], level[2 * j + 1])
            } else {
                internal_hash(level[2 * j], level[2 * j])
            },
    )
}

/// The digest that repeated construction rounds reduce a non-empty level to.
pub open spec fn root_from_level(level: Seq<Seq<u8>>) -> Seq<u8>
    recommends
        level.len() >= 1,
    decreases level.len(),
{
    if level.len() <= 1 {
        if level.len() == 1 {
            level[0]
        } else {
            Seq::empty()
        }
    } else {
        root_from_level(combine_level(level))
    }
}

/// The root digest committed to by a non-empty blob sequence.
pub open spec fn root_of_blobs(blobs: Seq<Seq<u8>>) -> Seq<u8>
    recommends
        blobs.len() >= 1,
{
    root_from_level(leaf_hashes_of(blobs))
}

/// The sibling path for position `i` of a level, ordered from the immediate
/// sibling upward to the level just below the root. At each round the
/// sibling is the neighbouring digest — or, for a lone last digest on an
/// odd-count level, the digest itself — and the position halves.
pub open spec fn proof_for_level(level: Seq<Seq<u8>>, i: nat) -> Seq<Seq<u8>>
    recommends
        i < level.len(),
    decreases level.len(),
{
    if level.len() <= 1 {
        Seq::empty()
    } else {
        let sib = if i % 2 == 0 {
            if i + 1 < level.len() {
                level[i as int + 1]
            } else {
                level[i as int]
            }
        } else {
            level[i as int - 1]
        };
        seq![sib] + proof_for_level(combine_level(level), i / 2)
    }
}

/// What verification computes: each path entry is joined onto the running
/// digest — on the left or the right as the running index's parity says —
/// and the index halves.
pub open spec fn chain_up(h: Seq<u8>, path: Seq<Seq<u8>>, i: nat) -> Seq<u8>
    decreases path.len(),
{
    if path.len() == 0 {
        h
    } else {
        let next = if i % 2 == 0 {
            internal_hash(h, path[0])
        } else {
            internal_hash(path[0], h)
        };
        chain_up(next, path.drop_first(), i / 2)
    }
}

/// A byte vector's element-wise deep view and its flat view agree.
pub proof fn lemma_vec_u8_deep_view(v: Vec<u8>)
    ensures
        v.deep_view() == v@,
{
    assert(v.deep_view() =~= v@);
}

/// Level `k + 1` is the combination of level `k`, and level `k` still held
/// at least two digests.
pub open spec fn level_linked(lv: Seq<Seq<Seq<u8>>>, k: int) -> bool
    recommends
        0 <= k < lv.len() - 1,
{
    lv[k].len() >= 2 && lv[k + 1] == combine_level(lv[k])
}

/// A well-formed stack of construction levels: each level above the first is
/// the combination of the one below it, every level but the last holds at
/// least two digests, and the last holds exactly the root.
pub open spec fn levels_ok(lv: Seq<Seq<Seq<u8>>>) -> bool {
    &&& forall|k: int| 0 <= k < lv.len() - 1 ==> #[trigger] level_linked(lv, k)
    &&& lv.len() > 0 ==> lv[lv.len() - 1].len() == 1
}

/// One step of proof generation: on a level of at least two digests, the
/// path for position `i` opens with the sibling the parity rule picks and
/// continues as the path for position `i / 2` of the combined level.
pub proof fn lemma_proof_step(level: Seq<Seq<u8>>, i: nat, sib: Seq<u8>)
    requires
        level.len() >= 2,
        i < level.len(),
        sib == (if i % 2 == 0 {
            if i + 1 < level.len() {
                level[i as int + 1]
            } else {
                level[i as int]
            }
        } else {
            level[i as int - 1]
        }),
    ensures
        proof_for_level(level, i) == seq![sib] + proof_for_level(combine_level(level), i / 2),
        i / 2 < combine_level(level).len(),
{
}

/// Appending one element and then a remainder is the same as appending the
/// remainder led by that element.
pub proof fn lemma_push_then_concat<T>(a: Seq<T>, x: T, rest: Seq<T>)
    ensures
        a.push(x) + rest == a + (seq![x] + rest),
{
    assert(a.push(x) + rest =~= a + (seq![x] + rest));
}

/// In a well-formed stack of levels, the single digest on the last level is
/// the root of the first level.
pub proof fn lemma_levels_root(lv: Seq<Seq<Seq<u8>>>)
    requires
        levels_ok(lv),
        lv.len() > 0,
    ensures
        lv[lv.len() - 1][0] == root_from_level(lv[0]),
    decreases lv.len(),
{
    if lv.len() == 1 {
        assert(lv[0].len() == 1);
    } else {
        let tail = lv.drop_first();
        assert(level_linked(lv, 0));
        assert(lv[0].len() >= 2);
        assert forall|k: int| 0 <= k < tail.len() - 1 implies #[trigger] level_linked(tail, k) by {
            assert(level_linked(lv, k + 1));
            assert(tail[k] == lv[k + 1]);
            assert(tail[k + 1] == lv[k + 2]);
        }
        assert(tail[tail.len() - 1].len() == 1);
        lemma_levels_root(tail);
        assert(tail[0] == combine_level(lv[0]));
    }
}

/// The path that construction assigns to a position chains back up to the
/// root of the level it was generated from.
pub proof fn lemma_chain_up_root(level: Seq<Seq<u8>>, i: nat)
    requires
        1 <= level.len(),
        i < level.len(),
    ensures
        chain_up(level[i as int], proof_for_level(level, i), i) == root_from_level(level),
    decreases level.len(),
{
    if level.len() == 1 {
        assert(i == 0);
    } else {
        let next_level = combine_level(level);
        let sib = if i % 2 == 0 {
            if i + 1 < level.len() {
                level[i as int + 1]
            } else {
                level[i as int]
            }
        } else {
            level[i as int - 1]
        };
        let rest = proof_for_level(next_level, i / 2);
        let path = proof_for_level(level, i);
        assert(path == seq![sib] + rest);
        assert(path[0] == sib);
        assert(path.drop_first() =~= rest);
        let next = if i % 2 == 0 {
            internal_hash(level[i as int], sib)
        } else {
            internal_hash(sib, level[i as int])
        };
        assert(chain_up(level[i as int], path, i) == chain_up(next, rest, i / 2));
        let j = (i / 2) as int;
        assert(i == 2 * j + (i % 2));
        if i % 2 == 0 {
            assert(next == next_level[j]);
        } else {
            assert(2 * j + 1 == i);
            assert(next == next_level[j]);
        }
        assert(i / 2 < next_level.len());
        lemma_chain_up_root(next_level, i / 2);
    }
}

} // verus!
