//! The tree itself: construction from the blobs, root-hash retrieval in its
//! raw and display forms, membership-proof generation, and stand-alone
//! proof verification.

use vstd::prelude::*;

use crate::digest::{
    bytes_eq, hex_of, internal_hash_bytes, sha256, sha256_of, to_hex,
};
use crate::model::{
    chain_up, combine_level, leaf_hashes_of, lemma_levels_root, lemma_proof_step,
    lemma_push_then_concat, lemma_vec_u8_deep_view, level_linked, levels_ok, proof_for_level,
    root_from_level,
};

verus! {

/// A binary hash tree over an ordered list of byte blobs, held as its stack
/// of construction levels: the leaf digests first, each further level the
/// pairwise combination of the one below it, the last level holding the
/// root digest alone. An empty blob list yields an empty stack.
#[derive(Debug)]
pub struct MerkleTree {
    levels: Vec<Vec<Vec<u8>>>,
}

/// One construction round over a level of digests.
fn combine(cur: &Vec<Vec<u8>>) -> (next: Vec<Vec<u8>>)
    requires
        cur.deep_view().len() >= 2,
    ensures
        next.deep_view() == combine_level(cur.deep_view()),
{
    let mut next: Vec<Vec<u8>> = Vec::new();
    let mut i: usize = 0;
    while i < cur.len()
        invariant
            i <= cur@.len(),
            i % 2 == 0 || i == cur@.len(),
            next.deep_view().len() == (i + 1) / 2,
            forall|j: int|
                0 <= j < next.deep_view().len() ==> next.deep_view()[j] == combine_level(
                    cur.deep_view(),
                )[j],
        decreases cur@.len() - i,
    {
        let h = if i + 1 < cur.len() {
            internal_hash_bytes(&cur[i], &cur[i + 1])
        } else {
            internal_hash_bytes(&cur[i], &cur[i])
        };
        proof {
            let dv = cur.deep_view();
            lemma_vec_u8_deep_view(cur@[i as int]);
            assert(dv[i as int] == cur@[i as int]@);
            if i + 1 < cur@.len() {
                lemma_vec_u8_deep_view(cur@[i as int + 1]);
                assert(dv[i as int + 1] == cur@[i as int + 1]@);
            }
            assert(h@ == combine_level(dv)[i as int / 2]);
        }
        let ghost prev = next.deep_view();
        next.push(h);
        proof {
            lemma_vec_u8_deep_view(h);
            assert(next.deep_view() =~= prev.push(h@));
        }
        if i + 1 < cur.len() {
            i = i + 2;
        } else {
            i = cur.len();
        }
    }
    assert(next.deep_view() =~= combine_level(cur.deep_view()));
    next
}

/// An element-wise copy of a level of digests.
fn copy_level(level: &Vec<Vec<u8>>) -> (out: Vec<Vec<u8>>)
    ensures
        out.deep_view() == level.deep_view(),
{
    let mut out: Vec<Vec<u8>> = Vec::new();
    let mut i: usize = 0;
    while i < level.len()
        invariant
            i <= level@.len(),
            out.deep_view().len() == i,
            forall|j: int| 0 <= j < i ==> out.deep_view()[j] == level.deep_view()[j],
        decreases level@.len() - i,
    {
        let v = vstd::slice::slice_to_vec(level[i].as_slice());
        let ghost prev = out.deep_view();
        out.push(v);
        proof {
            lemma_vec_u8_deep_view(v);
            lemma_vec_u8_deep_view(level@[i as int]);
            assert(out.deep_view() =~= prev.push(v@));
        }
        i = i + 1;
    }
    assert(out.deep_view() =~= level.deep_view());
    out
}

impl Clone for MerkleTree {
    /// The clone holds the same levels, so it commits to the same leaves
    /// and the same root.
    fn clone(&self) -> (res: Self)
        ensures
            res.leaves() == self.leaves(),
            res.root_spec() == self.root_spec(),
    {
        proof {
            use_type_invariant(&*self);
        }
        let mut levels: Vec<Vec<Vec<u8>>> = Vec::new();
        let mut k: usize = 0;
        while k < self.levels.len()
            invariant
                k <= self.levels@.len(),
                levels.deep_view().len() == k,
                forall|j: int| 0 <= j < k ==> levels.deep_view()[j] == self.levels_view()[j],
        decreases self.levels@.len() - k,
        {
            let lvl = copy_level(&self.levels[k]);
            let ghost prev = levels.deep_view();
            levels.push(lvl);
            proof {
                assert(levels.deep_view() =~= prev.push(lvl.deep_view()));
            }
            k = k + 1;
        }
        proof {
            assert(levels.deep_view() =~= self.levels_view());
        }
        MerkleTree { levels }
    }
}

impl MerkleTree {
    /// The stack of construction levels, as sequences of digests.
    pub closed spec fn levels_view(&self) -> Seq<Seq<Seq<u8>>> {
        self.levels.deep_view()
    }

    #[verifier::type_invariant]
    spec fn wf(&self) -> bool {
        levels_ok(self.levels_view())
    }

    /// The leaf digests, in blob order; empty for the empty tree.
    pub open spec fn leaves(&self) -> Seq<Seq<u8>> {
        if self.levels_view().len() == 0 {
            Seq::empty()
        } else {
            self.levels_view()[0]
        }
    }

    /// The raw root digest: what the construction rounds chain the leaf
    /// digests up to, before display wrapping.
    pub open spec fn root_spec(&self) -> Seq<u8> {
        root_from_level(self.leaves())
    }

    /// Builds the tree for `data`: each blob is hashed to a leaf digest, and
    /// construction rounds combine each level pairwise — a lone last digest
    /// paired with itself — until a single digest remains. An empty input
    /// yields the empty tree.
    pub fn new(data: Vec<Vec<u8>>) -> (tree: Self)
        ensures
            tree.leaves() == leaf_hashes_of(data.deep_view()),
    {
        let mut level0: Vec<Vec<u8>> = Vec::new();
        let mut i: usize = 0;
        while i < data.len()
            invariant
                i <= data@.len(),
                level0@.len() == i,
                forall|j: int|
                    0 <= j < i ==> level0.deep_view()[j] == sha256_of(data.deep_view()[j]),
            decreases data@.len() - i,
        {
            let h = sha256(data[i].as_slice());
            proof {
                lemma_vec_u8_deep_view(data@[i as int]);
                assert(data@[i as int]@ == data.deep_view()[i as int]);
            }
            let ghost prev = level0.deep_view();
            level0.push(h);
            proof {
                lemma_vec_u8_deep_view(h);
                assert(level0.deep_view() =~= prev.push(h@));
            }
            i = i + 1;
        }
        assert(level0.deep_view() =~= leaf_hashes_of(data.deep_view()));

        let mut levels: Vec<Vec<Vec<u8>>> = Vec::new();
        if level0.len() == 0 {
            proof {
                assert(levels_ok(levels.deep_view()));
            }
            let tree = MerkleTree { levels };
            assert(tree.leaves() =~= leaf_hashes_of(data.deep_view()));
            return tree;
        }
        let mut cur: Vec<Vec<u8>> = level0;
        while cur.len() > 1
            invariant
                cur@.len() >= 1,
                levels.deep_view().len() == 0 ==> cur.deep_view() == leaf_hashes_of(
                    data.deep_view(),
                ),
                levels.deep_view().len() > 0 ==> levels.deep_view()[0] == leaf_hashes_of(
                    data.deep_view(),
                ),
                forall|k: int|
                    0 <= k < levels.deep_view().len() - 1 ==> #[trigger] level_linked(
                        levels.deep_view(),
                        k,
                    ),
                levels.deep_view().len() > 0 ==> (levels.deep_view().last().len() >= 2
                    && cur.deep_view() == combine_level(levels.deep_view().last())),
            decreases cur@.len(),
        {
            let ghost prev_levels = levels.deep_view();
            let ghost prev_cur = cur.deep_view();
            let next = combine(&cur);
            levels.push(cur);
            cur = next;
            proof {
                assert(levels.deep_view() =~= prev_levels.push(prev_cur));
                assert(combine_level(prev_cur).len() == (prev_cur.len() + 1) / 2);
                assert forall|k: int|
                    0 <= k < levels.deep_view().len() - 1 implies #[trigger] level_linked(
                    levels.deep_view(),
                    k,
                ) by {
                    if k < prev_levels.len() - 1 {
                        assert(level_linked(prev_levels, k));
                    }
                }
            }
        }
        let ghost prev_levels = levels.deep_view();
        let ghost prev_cur = cur.deep_view();
        levels.push(cur);
        proof {
            assert(levels.deep_view() =~= prev_levels.push(prev_cur));
            assert(prev_cur.len() == 1);
            assert forall|k: int|
                0 <= k < levels.deep_view().len() - 1 implies #[trigger] level_linked(
                levels.deep_view(),
                k,
            ) by {
                if k < prev_levels.len() - 1 {
                    assert(level_linked(prev_levels, k));
                }
            }
            assert(levels_ok(levels.deep_view()));
        }
        let tree = MerkleTree { levels };
        tree
    }

    /// The externally displayed root hash: one further SHA-256 pass over the
    /// raw root digest, hex-encoded in lowercase. `None` for the empty tree.
    pub fn root_hash(&self) -> (r: Option<String>)
        ensures
            match r {
                Option::None => self.leaves().len() == 0,
                Option::Some(s) => self.leaves().len() > 0 && s@ == hex_of(
                    sha256_of(self.root_spec()),
                ) && s@.len() == 64,
            },
    {
        proof {
            use_type_invariant(&*self);
        }
        if self.levels.len() == 0 {
            return Option::None;
        }
        proof {
            lemma_levels_root(self.levels_view());
            if self.levels_view().len() > 1 {
                assert(level_linked(self.levels_view(), 0));
            }
            assert(self.leaves().len() > 0);
        }
        let last = &self.levels[self.levels.len() - 1];
        proof {
            assert(last.deep_view() == self.levels_view()[self.levels_view().len() - 1]);
            lemma_vec_u8_deep_view(last@[0]);
            assert(last@[0]@ == self.levels_view()[self.levels_view().len() - 1][0]);
        }
        let wrapped = sha256(last[0].as_slice());
        Option::Some(to_hex(&wrapped))
    }

    /// The raw root digest, the form `verify_proof` checks against.
    /// `None` for the empty tree.
    pub fn root_digest(&self) -> (r: Option<Vec<u8>>)
        ensures
            match r {
                Option::None => self.leaves().len() == 0,
                Option::Some(d) => self.leaves().len() > 0 && d@ == self.root_spec(),
            },
    {
        proof {
            use_type_invariant(&*self);
        }
        if self.levels.len() == 0 {
            return Option::None;
        }
        proof {
            lemma_levels_root(self.levels_view());
            if self.levels_view().len() > 1 {
                assert(level_linked(self.levels_view(), 0));
            }
            assert(self.leaves().len() > 0);
        }
        let last = &self.levels[self.levels.len() - 1];
        proof {
            assert(last.deep_view() == self.levels_view()[self.levels_view().len() - 1]);
            lemma_vec_u8_deep_view(last@[0]);
            assert(last@[0]@ == self.levels_view()[self.levels_view().len() - 1][0]);
        }
        Option::Some(vstd::slice::slice_to_vec(last[0].as_slice()))
    }

    /// The sibling path for the leaf at `index`, ordered from the leaf's
    /// immediate sibling upward to the level just below the root. `None`
    /// when the index is out of range or the tree is empty.
    pub fn generate_proof(&self, index: usize) -> (r: Option<Vec<Vec<u8>>>)
        ensures
            match r {
                Option::None => index >= self.leaves().len(),
                Option::Some(path) => index < self.leaves().len() && path.deep_view()
                    == proof_for_level(self.leaves(), index as nat),
            },
    {
        proof {
            use_type_invariant(&*self);
        }
        if self.levels.len() == 0 {
            return Option::None;
        }
        if index >= self.levels[0].len() {
            proof {
                assert(self.levels_view()[0] == self.levels@[0].deep_view());
            }
            return Option::None;
        }
        let ghost lv = self.levels_view();
        let mut path: Vec<Vec<u8>> = Vec::new();
        let mut ci: usize = index;
        let mut k: usize = 0;
        proof {
            assert(lv[0] == self.levels@[0].deep_view());
            assert(Seq::<Seq<u8>>::empty() + proof_for_level(lv[0], index as nat)
                =~= proof_for_level(lv[0], index as nat));
        }
        while k < self.levels.len() - 1
            invariant
                levels_ok(lv),
                lv == self.levels_view(),
                lv.len() == self.levels@.len(),
                k < lv.len(),
                ci < lv[k as int].len(),
                path.deep_view() + proof_for_level(lv[k as int], ci as nat) == proof_for_level(
                    lv[0],
                    index as nat,
                ),
            decreases lv.len() - k,
        {
            let level = &self.levels[k];
            proof {
                assert(lv[k as int] == level.deep_view());
                assert(level_linked(lv, k as int));
                assert(lv[k as int].len() >= 2);
            }
            let sib: Vec<u8> = if ci % 2 == 0 {
                if ci + 1 < level.len() {
                    vstd::slice::slice_to_vec(level[ci + 1].as_slice())
                } else {
                    vstd::slice::slice_to_vec(level[ci].as_slice())
                }
            } else {
                vstd::slice::slice_to_vec(level[ci - 1].as_slice())
            };
            proof {
                let cur_level = lv[k as int];
                if ci % 2 == 0 {
                    if ci + 1 < level@.len() {
                        lemma_vec_u8_deep_view(level@[ci as int + 1]);
                    } else {
                        lemma_vec_u8_deep_view(level@[ci as int]);
                    }
                } else {
                    lemma_vec_u8_deep_view(level@[ci as int - 1]);
                }
                assert(sib@ == (if (ci as nat) % 2 == 0 {
                    if ci + 1 < cur_level.len() {
                        cur_level[ci as int + 1]
                    } else {
                        cur_level[ci as int]
                    }
                } else {
                    cur_level[ci as int - 1]
                }));
                lemma_proof_step(cur_level, ci as nat, sib@);
                assert(lv[k as int + 1] == combine_level(cur_level));
            }
            let ghost prev = path.deep_view();
            path.push(sib);
            proof {
                lemma_vec_u8_deep_view(sib);
                assert(path.deep_view() =~= prev.push(sib@));
                lemma_push_then_concat(
                    prev,
                    sib@,
                    proof_for_level(lv[k as int + 1], (ci as nat) / 2),
                );
            }
            ci = ci / 2;
            k = k + 1;
        }
        proof {
            assert(k == lv.len() - 1);
            assert(lv[k as int].len() == 1);
            assert(proof_for_level(lv[k as int], ci as nat) =~= Seq::<Seq<u8>>::empty());
            assert(path.deep_view() + Seq::<Seq<u8>>::empty() =~= path.deep_view());
        }
        Option::Some(path)
    }

    /// Recomputes the chained digest from the leaf bytes, the sibling path
    /// and the leaf's original index — the running index's parity decides
    /// the concatenation order at each step — and compares it with the
    /// claimed raw root digest.
    pub fn verify_proof(root_hash: &[u8], siblings: &[Vec<u8>], leaf: Vec<u8>, index: usize) -> (r:
        bool)
        ensures
            r == (chain_up(sha256_of(leaf@), siblings.deep_view(), index as nat) == root_hash@),
    {
        let mut computed = sha256(leaf.as_slice());
        let mut ci: usize = index;
        let mut k: usize = 0;
        proof {
            assert(siblings.deep_view().skip(0) =~= siblings.deep_view());
        }
        while k < siblings.len()
            invariant
                k <= siblings@.len(),
                siblings.deep_view().len() == siblings@.len(),
                chain_up(sha256_of(leaf@), siblings.deep_view(), index as nat) == chain_up(
                    computed@,
                    siblings.deep_view().skip(k as int),
                    ci as nat,
                ),
            decreases siblings@.len() - k,
        {
            let sib = &siblings[k];
            let next = if ci % 2 == 0 {
                internal_hash_bytes(&computed, sib)
            } else {
                internal_hash_bytes(sib, &computed)
            };
            proof {
                let dv = siblings.deep_view();
                let remaining = dv.skip(k as int);
                lemma_vec_u8_deep_view(siblings@[k as int]);
                assert(remaining[0] == dv[k as int]);
                assert(dv[k as int] == siblings@[k as int]@);
                assert(remaining.drop_first() =~= dv.skip(k as int + 1));
                assert(chain_up(computed@, remaining, ci as nat) == chain_up(
                    next@,
                    dv.skip(k as int + 1),
                    (ci as nat) / 2,
                ));
            }
            computed = next;
            ci = ci / 2;
            k = k + 1;
        }
        proof {
            assert(siblings.deep_view().skip(k as int) =~= Seq::<Seq<u8>>::empty());
        }
        bytes_eq(computed.as_slice(), root_hash)
    }
}

} // verus!
