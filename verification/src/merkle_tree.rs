//! A Merkle tree kept level by level in one vector, leaves first, root last.

use vstd::prelude::*;

verus! {

/// The value that the combiner `f` gives for the pair `(left, right)`.
pub open spec fn combined<H, F: Fn(&H, &H) -> H>(f: F, left: H, right: H) -> H {
    choose|r: H| f.ensures((&left, &right), r)
}

/// A combiner accepts every pair and is a function of its two arguments.
pub open spec fn is_combiner<H, F: Fn(&H, &H) -> H>(f: F) -> bool {
    &&& forall|a: H, b: H| #[trigger] f.requires((&a, &b))
    &&& forall|a: H, b: H, r1: H, r2: H|
        #![trigger f.ensures((&a, &b), r1), f.ensures((&a, &b), r2)]
        f.ensures((&a, &b), r1) && f.ensures((&a, &b), r2) ==> r1 == r2
}

/// Number of nodes on the level above a level of `n` nodes.
pub open spec fn next_level_len(n: nat) -> nat {
    (n + 1) / 2
}

/// Number of stored nodes of a tree over `n` leaves.
pub open spec fn tree_length(n: nat) -> nat
    decreases n,
{
    if n <= 1 {
        n
    } else {
        n + tree_length(next_level_len(n))
    }
}

/// The level above `level`: neighbours are paired, and an unpaired last node
/// is paired with itself.
pub open spec fn next_level<H, F: Fn(&H, &H) -> H>(f: F, level: Seq<H>) -> Seq<H> {
    Seq::new(
        next_level_len(level.len()),
        |j: int|
            combined(
                f,
                level[2 * j],
                if 2 * j + 1 < level.len() {
                    level[2 * j + 1]
                } else {
                    level[2 * j]
                },
            ),
    )
}

/// The whole storage of the tree over `leaves`: every level, leaves first.
pub open spec fn tree_of<H, F: Fn(&H, &H) -> H>(f: F, leaves: Seq<H>) -> Seq<H>
    decreases leaves.len(),
{
    if leaves.len() <= 1 {
        leaves
    } else {
        leaves + tree_of(f, next_level(f, leaves))
    }
}

/// The storage of a tree over `n` leaves has `tree_length(n)` nodes.
pub proof fn lemma_tree_of_len<H, F: Fn(&H, &H) -> H>(f: F, leaves: Seq<H>)
    ensures
        tree_of(f, leaves).len() == tree_length(leaves.len()),
    decreases leaves.len(),
{
    if leaves.len() > 1 {
        lemma_tree_of_len(f, next_level(f, leaves));
    }
}

/// A tree over `n >= 1` leaves stores at least `n` and at most `3 * n` nodes.
pub proof fn lemma_tree_length_bounds(n: nat)
    ensures
        n <= tree_length(n) <= 3 * n,
        n >= 1 ==> tree_length(n) >= 1,
    decreases n,
{
    if n > 1 {
        lemma_tree_length_bounds(next_level_len(n));
        if n == 2 {
            assert(tree_length(1) == 1);
        }
    }
}

/// Whatever a combiner returns for a pair is the value `combined` names.
pub proof fn lemma_combined<H, F: Fn(&H, &H) -> H>(f: F, left: H, right: H, value: H)
    requires
        is_combiner(f),
        f.ensures((&left, &right), value),
    ensures
        value == combined(f, left, right),
{
    let chosen = combined(f, left, right);
    assert(f.ensures((&left, &right), chosen));
}

/// Computes `tree_length(length)`.
pub fn tree_length_for_input(length: usize) -> (count: usize)
    requires
        length <= usize::MAX / 3,
    ensures
        count == tree_length(length as nat),
{
    if length == 0 {
        return 0;
    }
    let mut len: usize = length;
    let mut count: usize = 0;
    while len > 1
        invariant
            1 <= len <= length,
            count + tree_length(len as nat) == tree_length(length as nat),
            length <= usize::MAX / 3,
        decreases len,
    {
        proof {
            lemma_tree_length_bounds(len as nat);
            lemma_tree_length_bounds(length as nat);
        }
        count = count + len;
        len = len - len / 2;
    }
    proof {
        lemma_tree_length_bounds(length as nat);
    }
    count + 1
}

/// The levels above `level`, lowest first; none above a single node.
pub open spec fn levels_above<H, F: Fn(&H, &H) -> H>(f: F, level: Seq<H>) -> Seq<H> {
    if level.len() > 1 {
        tree_of(f, next_level(f, level))
    } else {
        Seq::empty()
    }
}

/// The level directly above `level`; empty above a single node.
pub open spec fn level_above<H, F: Fn(&H, &H) -> H>(f: F, level: Seq<H>) -> Seq<H> {
    if level.len() > 1 {
        next_level(f, level)
    } else {
        Seq::empty()
    }
}

/// Two levels that agree except in the last place of the longer one have
/// upper levels that agree except in their last place.
proof fn lemma_upper_agrees<H, F: Fn(&H, &H) -> H>(f: F, level: Seq<H>, level_old: Seq<H>, j: int)
    requires
        level.len() >= 2,
        level.len() == level_old.len() || level.len() == level_old.len() + 1,
        forall|i: int| 0 <= i < level.len() - 1 ==> level[i] == level_old[i],
        0 <= j < next_level_len(level.len()) - 1,
    ensures
        level_old.len() > 1,
        j < next_level_len(level_old.len()),
        next_level(f, level)[j] == next_level(f, level_old)[j],
{
    assert(level[2 * j] == level_old[2 * j]);
    assert(level[2 * j + 1] == level_old[2 * j + 1]);
}

/// Storing the last node of the next level, in place of the old one or
/// behind it, turns the old upper levels into the new next level followed by
/// what stood above the old one.
proof fn lemma_level_step<H, F: Fn(&H, &H) -> H>(
    f: F,
    before: Seq<H>,
    after: Seq<H>,
    level_old: Seq<H>,
    pos: int,
    len: int,
    value: H,
    kept: int,
)
    requires
        0 <= pos,
        0 <= kept <= pos + len,
        len >= 2,
        pos + len <= before.len(),
        len == level_old.len() || len == level_old.len() + 1,
        forall|i: int| 0 <= i < len - 1 ==> #[trigger] before[pos + i] == level_old[i],
        before.subrange(pos + len, before.len() as int) == levels_above(f, level_old),
        value == next_level(f, before.subrange(pos, pos + len))[next_level_len(len as nat) - 1],
        after == (if next_level_len(len as nat) > level_above(f, level_old).len() {
            before.insert(pos + len + next_level_len(len as nat) - 1, value)
        } else {
            before.update(pos + len + next_level_len(len as nat) - 1, value)
        }),
    ensures
        pos + len + next_level_len(len as nat) <= after.len(),
        after.subrange(0, pos + len) == before.subrange(0, pos + len),
        after.subrange(pos + len, pos + len + next_level_len(len as nat)) == next_level(
            f,
            before.subrange(pos, pos + len),
        ),
        after.subrange(pos + len + next_level_len(len as nat), after.len() as int) == levels_above(
            f,
            level_above(f, level_old),
        ),
        after.subrange(0, kept) == before.subrange(0, kept),
        before.subrange(0, pos) + tree_of(f, before.subrange(pos, pos + len)) == after.subrange(
            0,
            pos + len,
        ) + tree_of(f, after.subrange(pos + len, pos + len + next_level_len(len as nat))),
        forall|i: int|
            0 <= i < next_level_len(len as nat) - 1 ==> #[trigger] after[pos + len + i]
                == level_above(f, level_old)[i],
{
    let level = before.subrange(pos, pos + len);
    let up_new = next_level_len(len as nat) as int;
    let upper_old = level_above(f, level_old);
    let up_old = upper_old.len() as int;
    let rest = before.subrange(pos + len, before.len() as int);
    let tail = levels_above(f, upper_old);
    assert(up_new == up_old || up_new == up_old + 1);
    assert(rest == upper_old + tail) by {
        if level_old.len() > 1 {
            assert(tree_of(f, upper_old) == upper_old + tail);
        } else {
            assert(rest =~= upper_old + tail);
        }
    }
    assert(rest.len() == before.len() - (pos + len));
    let upper = after.subrange(pos + len, pos + len + up_new);
    assert(after.subrange(0, pos + len) =~= before.subrange(0, pos + len));
    assert forall|j: int| 0 <= j < up_new implies upper[j] == next_level(f, level)[j] by {
        if j < up_new - 1 {
            assert(upper[j] == rest[j]);
            assert(rest[j] == upper_old[j]);
            assert forall|i: int| 0 <= i < level.len() - 1 implies level[i] == level_old[i] by {
                assert(level[i] == before[pos + i]);
            }
            lemma_upper_agrees(f, level, level_old, j);
        }
    }
    assert(upper =~= next_level(f, level));
    let rest_after = after.subrange(pos + len + up_new, after.len() as int);
    assert(rest_after.len() == tail.len());
    assert forall|i: int| 0 <= i < tail.len() implies rest_after[i] == tail[i] by {
        assert(rest_after[i] == rest[up_old + i]);
    }
    assert(rest_after =~= tail);
    assert(after.subrange(0, kept) =~= before.subrange(0, kept));
    assert(tree_of(f, level) == level + tree_of(f, upper));
    assert(after.subrange(0, pos + len) =~= before.subrange(0, pos) + level);
    assert(before.subrange(0, pos) + (level + tree_of(f, upper)) =~= (before.subrange(0, pos)
        + level) + tree_of(f, upper));
    assert forall|i: int| 0 <= i < up_new - 1 implies #[trigger] after[pos + len + i]
        == upper_old[i] by {
        assert(upper[i] == after[pos + len + i]);
        assert(upper[i] == rest[i]);
        assert(rest[i] == upper_old[i]);
    }
}

pub struct MerkleTree<H, F> {
    tree: Vec<H>,
    hash_for_two: F,
    input_length: usize,
}

/// Applies the combiner to two stored nodes.
fn combine_at<H, F: Fn(&H, &H) -> H>(f: &F, tree: &Vec<H>, i: usize, j: usize) -> (value: H)
    requires
        is_combiner(*f),
        i < tree.len(),
        j < tree.len(),
    ensures
        value == combined(*f, tree@[i as int], tree@[j as int]),
{
    let value = f(&tree[i], &tree[j]);
    proof {
        lemma_combined(*f, tree@[i as int], tree@[j as int], value);
    }
    value
}

impl<H: Clone, F: Fn(&H, &H) -> H> MerkleTree<H, F> {
    /// Every stored node, level by level, leaves first.
    pub closed spec fn nodes(&self) -> Seq<H> {
        self.tree@
    }

    /// The combiner the tree was made with.
    pub closed spec fn combiner(&self) -> F {
        self.hash_for_two
    }

    /// The leaves, in the order in which they were given.
    pub closed spec fn leaves(&self) -> Seq<H> {
        self.tree@.subrange(0, self.input_length as int)
    }

    /// The storage holds exactly the tree over the leaves.
    pub closed spec fn wf(&self) -> bool {
        &&& is_combiner(self.hash_for_two)
        &&& self.input_length <= self.tree.len()
        &&& self.tree@ == tree_of(self.hash_for_two, self.leaves())
    }

    /// A tree without leaves.
    pub fn empty_tree(hash_for_two: F) -> (r: Self)
        requires
            is_combiner(hash_for_two),
        ensures
            r.wf(),
            r.combiner() == hash_for_two,
            r.leaves() == Seq::<H>::empty(),
            r.nodes() == Seq::<H>::empty(),
    {
        let r = MerkleTree { tree: Vec::new(), hash_for_two, input_length: 0 };
        assert(r.leaves() =~= Seq::<H>::empty());
        assert(r.tree@ =~= Seq::<H>::empty());
        r
    }

    /// Builds the tree over copies of `hashes`.
    pub fn create(hash: F, hashes: &Vec<H>) -> (r: Self)
        requires
            is_combiner(hash),
        ensures
            r.wf(),
            r.combiner() == hash,
            r.leaves().len() == hashes.len(),
            forall|i: int| 0 <= i < hashes.len() ==> cloned(hashes@[i], #[trigger] r.leaves()[i]),
            r.nodes() == tree_of(hash, r.leaves()),
            r.nodes().len() == tree_length(hashes.len() as nat),
    {
        let hashes_len = hashes.len();
        let mut tree: Vec<H> = Vec::new();
        let mut k: usize = 0;
        while k < hashes_len
            invariant
                k <= hashes_len,
                hashes_len == hashes.len(),
                tree.len() == k,
                forall|i: int| 0 <= i < k ==> cloned(hashes@[i], #[trigger] tree@[i]),
            decreases hashes_len - k,
        {
            tree.push(hashes[k].clone());
            k = k + 1;
        }
        let ghost leaves = tree@;
        let mut pos: usize = 0;
        let mut len: usize = hashes_len;
        proof {
            assert(tree@.subrange(0, 0) + tree_of(hash, tree@.subrange(0, len as int)) =~= tree_of(
                hash,
                leaves,
            )) by {
                assert(tree@.subrange(0, len as int) =~= leaves);
            }
        }
        while len > 1
            invariant
                is_combiner(hash),
                tree.len() == pos + len,
                tree_of(hash, leaves) == tree@.subrange(0, pos as int) + tree_of(
                    hash,
                    tree@.subrange(pos as int, pos + len),
                ),
                pos + len >= hashes_len,
                tree@.subrange(0, hashes_len as int) == leaves,
            decreases len,
        {
            let ghost level = tree@.subrange(pos as int, pos + len);
            let ghost before = tree@;
            let up: usize = len - len / 2;
            let mut j: usize = 0;
            while j < up
                invariant
                    is_combiner(hash),
                    j <= up,
                    up == next_level_len(len as nat),
                    len > 1,
                    tree.len() == pos + len + j,
                    before.len() == pos + len,
                    tree@.subrange(0, pos + len) == before,
                    level == before.subrange(pos as int, pos + len),
                    forall|i: int|
                        0 <= i < j ==> #[trigger] tree@[pos + len + i] == next_level(
                            hash,
                            level,
                        )[i],
                decreases up - j,
            {
                let left: usize = pos + 2 * j;
                let right: usize = if 2 * j + 1 < len {
                    left + 1
                } else {
                    left
                };
                assert(tree@[left as int] == tree@.subrange(0, pos + len)[left as int]);
                assert(tree@[right as int] == tree@.subrange(0, pos + len)[right as int]);
                let value = combine_at(&hash, &tree, left, right);
                let ghost prior = tree@;
                tree.push(value);
                proof {
                    assert(tree@.subrange(0, pos + len) =~= prior.subrange(0, pos + len));
                    assert(level[2 * j] == before[left as int]);
                    assert(level[right - pos] == before[right as int]);
                }
                j = j + 1;
            }
            proof {
                let upper = tree@.subrange(pos + len, pos + len + up);
                assert forall|i: int| 0 <= i < up implies upper[i] == next_level(
                    hash,
                    level,
                )[i] by {
                    assert(upper[i] == tree@[pos + len + i]);
                }
                assert(upper =~= next_level(hash, level));
                assert(tree_of(hash, level) == level + tree_of(hash, upper));
                assert(tree@.subrange(0, pos + len) =~= tree@.subrange(0, pos as int) + level);
                assert(tree@.subrange(0, pos as int) =~= before.subrange(0, pos as int));
                assert(tree@.subrange(0, hashes_len as int) =~= before.subrange(
                    0,
                    hashes_len as int,
                ));
            }
            pos = pos + len;
            len = up;
        }
        proof {
            let level = tree@.subrange(pos as int, pos + len);
            assert(tree_of(hash, level) == level);
            assert(tree@ =~= tree@.subrange(0, pos as int) + level);
            lemma_tree_of_len(hash, leaves);
        }
        MerkleTree { tree, hash_for_two: hash, input_length: hashes_len }
    }

    /// Adds one leaf and returns a copy of the new root. The storage becomes
    /// that of the tree over the old leaves followed by `new_hash`; on every
    /// level only the last node is computed, the others are kept.
    pub fn append_hash(&mut self, new_hash: H) -> (root: H)
        requires
            old(self).wf(),
        ensures
            final(self).wf(),
            final(self).combiner() == old(self).combiner(),
            final(self).leaves() == old(self).leaves().push(new_hash),
            final(self).nodes() == tree_of(
                old(self).combiner(),
                old(self).leaves().push(new_hash),
            ),
            final(self).nodes().len() == tree_length(old(self).leaves().len() + 1),
            final(self).nodes().len() > 0,
            cloned(final(self).nodes().last(), root),
    {
        let ghost f = self.hash_for_two;
        let ghost old_leaves = self.leaves();
        let ghost new_leaves = old_leaves.push(new_hash);
        let ghost old_tree = self.tree@;
        let n = self.input_length;
        self.tree.insert(n, new_hash);
        let total = self.tree.len();
        assert(n < total);
        let mut pos: usize = 0;
        let mut len: usize = n + 1;
        let mut old_len: usize = n;
        let ghost mut level_old: Seq<H> = old_leaves;
        proof {
            let level = self.tree@.subrange(0, len as int);
            assert(level =~= new_leaves);
            assert(self.tree@.subrange(0, 0) + tree_of(f, level) =~= tree_of(f, new_leaves));
            assert(old_tree == old_leaves + levels_above(f, old_leaves)) by {
                if old_len <= 1 {
                    assert(old_tree =~= old_leaves + levels_above(f, old_leaves));
                }
            }
            assert(self.tree@.subrange(len as int, self.tree.len() as int) =~= levels_above(
                f,
                old_leaves,
            ));
        }
        while len > 1
            invariant
                self.hash_for_two == f,
                is_combiner(f),
                self.input_length == n,
                n + 1 <= pos + len <= self.tree.len(),
                self.tree@.subrange(0, n + 1) == new_leaves,
                old_len == level_old.len(),
                len == old_len || len == old_len + 1,
                len >= 1,
                forall|i: int|
                    0 <= i < len - 1 ==> #[trigger] self.tree@[pos + i] == level_old[i],
                tree_of(f, new_leaves) == self.tree@.subrange(0, pos as int) + tree_of(
                    f,
                    self.tree@.subrange(pos as int, pos + len),
                ),
                self.tree@.subrange(pos + len, self.tree.len() as int) == levels_above(
                    f,
                    level_old,
                ),
            decreases len,
        {
            let ghost before = self.tree@;
            let ghost level = before.subrange(pos as int, pos + len);
            let ghost upper_old = level_above(f, level_old);
            let up_new: usize = len - len / 2;
            let up_old: usize = if old_len > 1 {
                old_len - old_len / 2
            } else {
                0
            };
            proof {
                if old_len > 1 {
                    lemma_tree_of_len(f, upper_old);
                    lemma_tree_length_bounds(upper_old.len());
                }
                assert(up_new == up_old || up_new == up_old + 1);
                assert(before.subrange(pos + len, before.len() as int).len() == before.len() - (pos
                    + len));
            }
            let idx: usize = pos + len + (up_new - 1);
            let value = if len % 2 == 0 {
                combine_at(&self.hash_for_two, &self.tree, pos + len - 2, pos + len - 1)
            } else {
                combine_at(&self.hash_for_two, &self.tree, pos + len - 1, pos + len - 1)
            };
            if up_new > up_old {
                self.tree.insert(idx, value);
            } else {
                self.tree[idx] = value;
            }
            proof {
                assert(level[len - 1] == before[pos + len - 1]);
                if len % 2 == 0 {
                    assert(level[len - 2] == before[pos + len - 2]);
                }
                lemma_level_step(
                    f,
                    before,
                    self.tree@,
                    level_old,
                    pos as int,
                    len as int,
                    value,
                    n + 1,
                );
                level_old = upper_old;
            }
            pos = pos + len;
            old_len = up_old;
            len = up_new;
        }
        proof {
            let level = self.tree@.subrange(pos as int, pos + len);
            assert(tree_of(f, level) == level);
            assert(self.tree@ =~= self.tree@.subrange(0, pos as int) + level);
            lemma_tree_of_len(f, new_leaves);
        }
        self.input_length = n + 1;
        self.tree[self.tree.len() - 1].clone()
    }

    /// The combiner and the leaves determine the tree: two trees with the same
    /// combiner over the same leaves store the same nodes and have the same
    /// root, whether they were built at once or grown leaf by leaf.
    pub proof fn law_leaves_determine_tree(&self, other: &Self)
        requires
            self.wf(),
            other.wf(),
            self.combiner() == other.combiner(),
            self.leaves() == other.leaves(),
        ensures
            self.nodes() == other.nodes(),
            self.nodes().last() == other.nodes().last(),
    {
    }

    /// A well-formed tree stores the tree over its leaves: `tree_length(n)`
    /// nodes for `n` leaves, the leaves first.
    pub proof fn law_storage_length(&self)
        requires
            self.wf(),
        ensures
            is_combiner(self.combiner()),
            self.nodes() == tree_of(self.combiner(), self.leaves()),
            self.nodes().len() == tree_length(self.leaves().len()),
            self.nodes().subrange(0, self.leaves().len() as int) == self.leaves(),
    {
        lemma_tree_of_len(self.hash_for_two, self.leaves());
        assert(self.tree@.subrange(0, self.leaves().len() as int) =~= self.leaves());
    }

    /// Number of stored nodes.
    pub fn size(&self) -> (n: usize)
        ensures
            n == self.nodes().len(),
            self.wf() ==> n == tree_length(self.leaves().len()),
    {
        proof {
            if self.wf() {
                lemma_tree_of_len(self.hash_for_two, self.leaves());
            }
        }
        self.tree.len()
    }

    /// A copy of the root, the last stored node.
    pub fn root(&self) -> (r: H)
        requires
            self.nodes().len() > 0,
        ensures
            cloned(self.nodes().last(), r),
    {
        self.tree[self.tree.len() - 1].clone()
    }
}

/// Each item of `copies` is a copy of the item of `given` at its place.
pub open spec fn is_copy_of<H: Clone>(copies: Seq<H>, given: Seq<H>) -> bool {
    &&& copies.len() == given.len()
    &&& forall|i: int| 0 <= i < given.len() ==> cloned(given[i], #[trigger] copies[i])
}

/// The root of the tree over copies of `hashes`.
pub fn calculate_merkle_root<H: Clone, F: Fn(&H, &H) -> H>(hash_for_two: F, hashes: &Vec<H>) -> (root:
    H)
    requires
        is_combiner(hash_for_two),
        hashes.len() > 0,
    ensures
        exists|leaves: Seq<H>|
            is_copy_of(leaves, hashes@) && cloned(tree_of(hash_for_two, leaves).last(), root),
{
    let tree = MerkleTree::create(hash_for_two, hashes);
    proof {
        lemma_tree_length_bounds(hashes.len() as nat);
    }
    let root = tree.root();
    proof {
        let leaves = tree.leaves();
        assert(is_copy_of(leaves, hashes@));
        assert(cloned(tree_of(hash_for_two, leaves).last(), root));
    }
    root
}

} // verus!
