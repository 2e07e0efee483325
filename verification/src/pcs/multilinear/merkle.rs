//! Merkle trees over columns of field elements.

use crate::util::field;
use crate::util::field::PrimeField;
use crate::util::hash::{HashFunction, Keccak256};
use crate::util::integer;
use crate::util::transcript;
use std::marker::PhantomData;
use vstd::arithmetic::power2;
use vstd::arithmetic::power2::pow2;
use vstd::prelude::*;

verus! {

/// A node of a Merkle tree.
#[derive(Clone, Copy, Debug, PartialEq, Eq)]
pub struct MerkleNode(pub [u8; 32]);

/// 32 zero bytes.
pub open spec fn zero_node() -> MerkleNode {
    MerkleNode(transcript::to_array(Seq::new(32, |i: int| 0u8)))
}

impl Default for MerkleNode {
    fn default() -> (r: Self)
        ensures
            r == zero_node(),
            forall|i: int| 0 <= i < 32 ==> #[trigger] r.0@[i] == 0u8,
    {
        let bytes = [0u8; 32];
        proof {
            let filled = vstd::array::spec_array_fill_for_copy_type::<u8, 32>(0u8);
            assert(bytes == filled);
            assert(filled@.len() == 32);
            assert forall|i: int| 0 <= i < 32 implies #[trigger] bytes@[i] == 0u8 by {
                assert(filled@[i] == 0u8);
            }
            assert(bytes@ =~= Seq::new(32, |i: int| 0u8));
            transcript::lemma_to_array(bytes);
        }
        MerkleNode(bytes)
    }
}

/// The node that `data` hashes to.
pub open spec fn hash_spec<H: HashFunction>(data: Seq<u8>) -> MerkleNode {
    MerkleNode(transcript::to_array(H::digest_of(data).take(32)))
}

/// The node above `left` and `right`.
pub open spec fn hash_two_spec<H: HashFunction>(left: MerkleNode, right: MerkleNode) -> MerkleNode {
    hash_spec::<H>(left.0@ + right.0@)
}

impl MerkleNode {
    /// The first 32 bytes of the digest of `data`.
    pub fn hash<H: HashFunction>(data: &[u8]) -> (r: Self)
        ensures
            r == hash_spec::<H>(data@),
            r.0@ == H::digest_of(data@).take(32),
    {
        let digest = H::digest(data);
        proof {
            H::digest_is_long(data@);
        }
        let mut output = [0u8; 32];
        let mut i: usize = 0;
        while i < 32
            invariant
                i <= 32,
                digest@.len() >= 32,
                forall|j: int| 0 <= j < i ==> output@[j] == digest@[j],
            decreases 32 - i,
        {
            output[i] = digest[i];
            i = i + 1;
        }
        proof {
            assert(output@ =~= digest@.take(32));
            transcript::lemma_to_array(output);
        }
        MerkleNode(output)
    }

    /// The digest of two nodes side by side.
    pub fn hash_two<H: HashFunction>(left: &Self, right: &Self) -> (r: Self)
        ensures
            r == hash_two_spec::<H>(*left, *right),
            r.0@ == H::digest_of(left.0@ + right.0@).take(32),
    {
        let mut input: Vec<u8> = Vec::new();
        transcript::append_bytes(&mut input, &left.0);
        transcript::append_bytes(&mut input, &right.0);
        assert(input@ =~= left.0@ + right.0@);
        Self::hash::<H>(&input)
    }

    /// Whether both nodes hold the same bytes.
    pub fn same(&self, other: &Self) -> (r: bool)
        ensures
            r == (*self == *other),
    {
        let mut i: usize = 0;
        while i < 32
            invariant
                i <= 32,
                forall|j: int| 0 <= j < i ==> self.0@[j] == other.0@[j],
            decreases 32 - i,
        {
            if self.0[i] != other.0[i] {
                return false;
            }
            i = i + 1;
        }
        proof {
            assert(self.0@ =~= other.0@);
            transcript::lemma_to_array(self.0);
            transcript::lemma_to_array(other.0);
        }
        true
    }
}

/// The encodings of the elements of `column`, one after the other.
pub open spec fn column_bytes<F: PrimeField>(column: Seq<int>) -> Seq<u8>
    decreases column.len(),
{
    if column.len() == 0 {
        Seq::empty()
    } else {
        column_bytes::<F>(column.drop_last()) + F::repr(column.last())
    }
}

/// The leaf that `column` hashes to.
pub open spec fn leaf_spec<F: PrimeField, H: HashFunction>(column: Seq<int>) -> MerkleNode {
    hash_spec::<H>(column_bytes::<F>(column))
}

/// Hashes a column.
fn hash_column<F: PrimeField, H: HashFunction>(column: &[F]) -> (r: MerkleNode)
    ensures
        r == leaf_spec::<F, H>(field::vals(column@)),
{
    let ghost v = field::vals(column@);
    let mut bytes: Vec<u8> = Vec::new();
    let mut i: usize = 0;
    assert(v.take(0) =~= Seq::empty());
    while i < column.len()
        invariant
            i <= column.len(),
            v == field::vals(column@),
            bytes@ == column_bytes::<F>(v.take(i as int)),
        decreases column.len() - i,
    {
        let repr = column[i].to_repr();
        transcript::append_bytes(&mut bytes, &repr);
        assert(v.take(i + 1).drop_last() =~= v.take(i as int));
        i = i + 1;
    }
    assert(v.take(v.len() as int) =~= v);
    MerkleNode::hash::<H>(&bytes)
}

/// The leaves over `columns`: their hashes, filled up with zero nodes to a power of two.
pub open spec fn leaves_spec<F: PrimeField, H: HashFunction>(columns: Seq<Seq<int>>) -> Seq<MerkleNode> {
    Seq::new(
        pow2(integer::ceil_log2(columns.len())),
        |i: int|
            if i < columns.len() {
                leaf_spec::<F, H>(columns[i])
            } else {
                zero_node()
            },
    )
}

/// Node `idx` of the tree over `leaves`. The root is node zero, and the nodes below
/// node `idx` are `2 * idx + 1` and `2 * idx + 2`.
pub open spec fn node_at<H: HashFunction>(leaves: Seq<MerkleNode>, idx: nat) -> MerkleNode
    decreases 2 * leaves.len() - idx,
{
    if idx + 1 >= leaves.len() {
        leaves[idx + 1 - leaves.len()]
    } else {
        hash_two_spec::<H>(node_at::<H>(leaves, 2 * idx + 1), node_at::<H>(leaves, 2 * idx + 2))
    }
}

/// The node beside node `idx`.
pub open spec fn sibling(idx: nat) -> nat {
    if idx % 2 == 1 {
        idx + 1
    } else {
        (idx - 1) as nat
    }
}

/// The node above node `idx`.
pub open spec fn parent(idx: nat) -> nat {
    ((idx - 1) / 2) as nat
}

/// The siblings on the way from node `idx` to the root.
pub open spec fn path_spec<H: HashFunction>(leaves: Seq<MerkleNode>, idx: nat) -> Seq<MerkleNode>
    decreases idx,
{
    if idx == 0 {
        Seq::empty()
    } else {
        seq![node_at::<H>(leaves, sibling(idx))] + path_spec::<H>(leaves, parent(idx))
    }
}

/// The siblings on the way from node `idx` to the root, as far as there are such nodes.
pub open spec fn existing_path<H: HashFunction>(leaves: Seq<MerkleNode>, idx: nat) -> Seq<MerkleNode>
    decreases idx,
{
    if idx == 0 {
        Seq::empty()
    } else {
        (if sibling(idx) < 2 * leaves.len() - 1 {
            seq![node_at::<H>(leaves, sibling(idx))]
        } else {
            Seq::empty()
        }) + existing_path::<H>(leaves, parent(idx))
    }
}

/// From a node of the tree, all siblings exist.
pub proof fn law_paths_in_the_tree_exist<H: HashFunction>(leaves: Seq<MerkleNode>, idx: nat)
    requires
        idx < 2 * leaves.len() - 1,
    ensures
        existing_path::<H>(leaves, idx) == path_spec::<H>(leaves, idx),
    decreases idx,
{
    if idx > 0 {
        law_paths_in_the_tree_exist::<H>(leaves, parent(idx));
    }
}

/// The node reached from `current` at `idx` by hashing with the nodes of `path`.
pub open spec fn climb<H: HashFunction>(current: MerkleNode, idx: nat, path: Seq<MerkleNode>) -> MerkleNode
    decreases path.len(),
{
    if path.len() == 0 {
        current
    } else {
        let next = if idx % 2 == 1 {
            hash_two_spec::<H>(current, path[0])
        } else {
            hash_two_spec::<H>(path[0], current)
        };
        climb::<H>(next, parent(idx), path.drop_first())
    }
}

/// How many steps lie between node `idx` and the root.
pub open spec fn depth(idx: nat) -> nat
    decreases idx,
{
    if idx == 0 {
        0
    } else {
        1 + depth(parent(idx))
    }
}

/// A Merkle tree over columns, with its leaves filled up to a power of two.
#[verifier::reject_recursive_types(H)]
#[derive(Debug)]
pub struct MerkleTree<H: HashFunction = Keccak256> {
    nodes: Vec<MerkleNode>,
    num_leaves: usize,
    marker: PhantomData<H>,
}

impl<H: HashFunction> MerkleTree<H> {
    #[verifier::type_invariant]
    spec fn wf(self) -> bool {
        &&& self.num_leaves >= 1
        &&& self.nodes@.len() == 2 * self.num_leaves - 1
        &&& forall|i: int|
            0 <= i < self.nodes@.len() ==> #[trigger] self.nodes@[i] == node_at::<H>(
                self.leaves(),
                i as nat,
            )
    }

    /// The leaves of the tree.
    pub closed spec fn leaves(self) -> Seq<MerkleNode> {
        self.nodes@.skip(self.num_leaves - 1)
    }

    /// Builds the tree over `columns`.
    pub fn new<F: PrimeField>(columns: &[Vec<F>]) -> (r: Self)
        requires
            2 * pow2(integer::ceil_log2(columns@.len())) - 1 <= usize::MAX,
        ensures
            r.leaves() == leaves_spec::<F, H>(columns_vals(columns@)),
    {
        let exponent = integer::ceil_log2_usize(columns.len());
        proof {
            integer::lemma_ceil_log2(columns@.len());
            power2::lemma_pow2_pos(exponent as nat);
        }
        let num_leaves = integer::pow2_usize(exponent);
        let ghost cols = columns_vals(columns@);
        let ghost leaves = leaves_spec::<F, H>(cols);
        let total = num_leaves - 1 + num_leaves;
        let mut nodes: Vec<MerkleNode> = Vec::new();
        let mut i: usize = 0;
        while i < num_leaves - 1
            invariant
                i <= num_leaves - 1,
                nodes@.len() == i,
            decreases num_leaves - 1 - i,
        {
            nodes.push(MerkleNode::default());
            i = i + 1;
        }
        let mut j: usize = 0;
        while j < num_leaves
            invariant
                j <= num_leaves,
                num_leaves == pow2(integer::ceil_log2(columns@.len())),
                num_leaves >= 1,
                columns@.len() <= num_leaves,
                cols == columns_vals(columns@),
                leaves == leaves_spec::<F, H>(cols),
                nodes@.len() == num_leaves - 1 + j,
                forall|t: int| 0 <= t < j ==> nodes@[num_leaves - 1 + t] == #[trigger] leaves[t],
            decreases num_leaves - j,
        {
            let leaf = if j < columns.len() {
                hash_column::<F, H>(&columns[j])
            } else {
                MerkleNode::default()
            };
            assert(leaf == leaves[j as int]);
            nodes.push(leaf);
            j = j + 1;
        }
        proof {
            assert forall|t: int| num_leaves - 1 <= t < nodes@.len() implies #[trigger] nodes@[t]
                == node_at::<H>(leaves, t as nat) by {
                assert(nodes@[num_leaves - 1 + (t - (num_leaves - 1))] == leaves[t - (num_leaves - 1)]);
            }
        }
        let mut k: usize = num_leaves - 1;
        while k > 0
            invariant
                k <= num_leaves - 1,
                num_leaves >= 1,
                leaves.len() == num_leaves,
                nodes@.len() == 2 * num_leaves - 1,
                total == nodes@.len(),
                forall|t: int|
                    k <= t < nodes@.len() ==> #[trigger] nodes@[t] == node_at::<H>(leaves, t as nat),
                forall|t: int| 0 <= t < num_leaves ==> nodes@[num_leaves - 1 + t] == #[trigger] leaves[t],
            decreases k,
        {
            k = k - 1;
            assert(2 * k + 2 < total);
            let left = nodes[2 * k + 1];
            let right = nodes[2 * k + 2];
            let above = MerkleNode::hash_two::<H>(&left, &right);
            assert(above == node_at::<H>(leaves, k as nat));
            nodes.set(k, above);
        }
        assert(nodes@.skip(num_leaves - 1) =~= leaves);
        MerkleTree { nodes, num_leaves, marker: PhantomData }
    }

    /// The root.
    pub fn root(&self) -> (r: &MerkleNode)
        ensures
            *r == node_at::<H>(self.leaves(), 0),
    {
        proof {
            use_type_invariant(self);
        }
        &self.nodes[0]
    }

    /// The siblings on the way from leaf `leaf_idx` to the root. From beyond the last leaf,
    /// those that exist.
    pub fn auth_path(&self, leaf_idx: usize) -> (path: Vec<MerkleNode>)
        requires
            leaf_idx < self.leaves().len() || self.leaves().len() + leaf_idx <= usize::MAX,
        ensures
            path@ == existing_path::<H>(
                self.leaves(),
                (self.leaves().len() - 1 + leaf_idx) as nat,
            ),
            leaf_idx < self.leaves().len() ==> path@ == path_spec::<H>(
                self.leaves(),
                (self.leaves().len() - 1 + leaf_idx) as nat,
            ),
    {
        proof {
            use_type_invariant(self);
        }
        let total = self.nodes.len();
        let ghost leaves = self.leaves();
        let mut path: Vec<MerkleNode> = Vec::new();
        let mut idx = self.num_leaves - 1 + leaf_idx;
        let ghost start = idx as nat;
        assert(path@ + existing_path::<H>(leaves, start) =~= existing_path::<H>(leaves, start));
        while idx > 0
            invariant
                leaves == self.leaves(),
                total == self.nodes@.len(),
                total == 2 * leaves.len() - 1,
                idx < usize::MAX,
                forall|i: int|
                    0 <= i < self.nodes@.len() ==> #[trigger] self.nodes@[i] == node_at::<H>(
                        leaves,
                        i as nat,
                    ),
                path@ + existing_path::<H>(leaves, idx as nat) == existing_path::<H>(leaves, start),
            decreases idx,
        {
            let sibling_idx = if idx % 2 == 1 {
                idx + 1
            } else {
                idx - 1
            };
            let ghost before = path@;
            if sibling_idx < total {
                path.push(self.nodes[sibling_idx]);
            }
            assert(before + existing_path::<H>(leaves, idx as nat) =~= path@ + existing_path::<H>(
                leaves,
                parent(idx as nat),
            ));
            idx = (idx - 1) / 2;
        }
        assert(path@ + existing_path::<H>(leaves, 0) =~= path@);
        proof {
            if leaf_idx < leaves.len() {
                law_paths_in_the_tree_exist::<H>(leaves, start);
            }
        }
        path
    }

    /// Whether `path` leads from the leaf over `leaf_data` at `leaf_idx` to `root`.
    pub fn verify_path<F: PrimeField>(
        root: &MerkleNode,
        leaf_idx: usize,
        leaf_data: &[F],
        path: &[MerkleNode],
        num_leaves: usize,
    ) -> (r: bool)
        requires
            num_leaves >= 1,
            num_leaves - 1 + leaf_idx <= usize::MAX,
            path@.len() <= depth((num_leaves - 1 + leaf_idx) as nat),
        ensures
            r == (climb::<H>(
                leaf_spec::<F, H>(field::vals(leaf_data@)),
                (num_leaves - 1 + leaf_idx) as nat,
                path@,
            ) == *root),
    {
        let mut current = hash_column::<F, H>(leaf_data);
        let mut idx = num_leaves - 1 + leaf_idx;
        let ghost goal = climb::<H>(current, idx as nat, path@);
        let mut i: usize = 0;
        assert(path@.skip(0) =~= path@);
        while i < path.len()
            invariant
                i <= path.len(),
                path@.len() - i <= depth(idx as nat),
                climb::<H>(current, idx as nat, path@.skip(i as int)) == goal,
            decreases path.len() - i,
        {
            let sibling = &path[i];
            assert(path@.skip(i as int).drop_first() =~= path@.skip(i + 1));
            current = if idx % 2 == 1 {
                MerkleNode::hash_two::<H>(&current, sibling)
            } else {
                MerkleNode::hash_two::<H>(sibling, &current)
            };
            idx = (idx - 1) / 2;
            i = i + 1;
        }
        current.same(root)
    }
}

/// The representatives of several columns.
pub open spec fn columns_vals<F: PrimeField>(columns: Seq<Vec<F>>) -> Seq<Seq<int>> {
    columns.map_values(|c: Vec<F>| field::vals(c@))
}

/// The path of a node leads from it to the root.
pub proof fn law_path_leads_to_root<H: HashFunction>(leaves: Seq<MerkleNode>, idx: nat)
    requires
        leaves.len() >= 1,
        idx < 2 * leaves.len() - 1,
    ensures
        climb::<H>(node_at::<H>(leaves, idx), idx, path_spec::<H>(leaves, idx)) == node_at::<H>(
            leaves,
            0,
        ),
        path_spec::<H>(leaves, idx).len() == depth(idx),
    decreases idx,
{
    if idx > 0 {
        let path = path_spec::<H>(leaves, idx);
        let up = parent(idx);
        assert(path.drop_first() =~= path_spec::<H>(leaves, up));
        assert(up + 1 < leaves.len());
        assert(idx == 2 * up + 1 || idx == 2 * up + 2);
        law_path_leads_to_root::<H>(leaves, up);
    }
}

/// The leaves of a tree with `2^k` leaves lie `k` steps below the root.
pub proof fn lemma_leaf_depth(k: nat, leaf_idx: nat)
    requires
        leaf_idx < pow2(k),
    ensures
        depth((pow2(k) - 1 + leaf_idx) as nat) == k,
    decreases k,
{
    power2::lemma_pow2_pos(k);
    let idx = (pow2(k) - 1 + leaf_idx) as nat;
    if k == 0 {
        power2::lemma2_to64();
    } else {
        power2::lemma_pow2_unfold(k);
        power2::lemma_pow2_pos((k - 1) as nat);
        lemma_leaf_depth((k - 1) as nat, leaf_idx / 2);
        assert(parent(idx) == pow2((k - 1) as nat) - 1 + leaf_idx / 2);
    }
}

/// Every column verifies against the root with its authentication path.
pub proof fn law_auth_path_verifies<F: PrimeField, H: HashFunction>(columns: Seq<Seq<int>>, i: int)
    requires
        0 <= i < columns.len(),
    ensures
        ({
            let leaves = leaves_spec::<F, H>(columns);
            let idx = (leaves.len() - 1 + i) as nat;
            &&& path_spec::<H>(leaves, idx).len() == integer::ceil_log2(columns.len())
            &&& depth(idx) == integer::ceil_log2(columns.len())
            &&& climb::<H>(leaf_spec::<F, H>(columns[i]), idx, path_spec::<H>(leaves, idx)) == node_at::<
                H,
            >(leaves, 0)
        }),
{
    let leaves = leaves_spec::<F, H>(columns);
    let k = integer::ceil_log2(columns.len());
    integer::lemma_ceil_log2(columns.len());
    let idx = (leaves.len() - 1 + i) as nat;
    law_path_leads_to_root::<H>(leaves, idx);
    lemma_leaf_depth(k, i as nat);
    assert(node_at::<H>(leaves, idx) == leaves[i]);
}

/// Whether two different inputs hash to the same node.
pub open spec fn collide<H: HashFunction>(x: Seq<u8>, y: Seq<u8>) -> bool {
    x != y && hash_spec::<H>(x) == hash_spec::<H>(y)
}

/// Two pairs of nodes that hash to the same node are the same, or their bytes collide.
proof fn lemma_pair_binds<H: HashFunction>(a: MerkleNode, b: MerkleNode, c: MerkleNode, d: MerkleNode)
    requires
        hash_two_spec::<H>(a, b) == hash_two_spec::<H>(c, d),
    ensures
        (a == c && b == d) || collide::<H>(a.0@ + b.0@, c.0@ + d.0@),
{
    let x = a.0@ + b.0@;
    let y = c.0@ + d.0@;
    if x == y {
        assert(a.0@ =~= x.take(32));
        assert(c.0@ =~= y.take(32));
        assert(b.0@ =~= x.skip(32));
        assert(d.0@ =~= y.skip(32));
        transcript::lemma_to_array(a.0);
        transcript::lemma_to_array(b.0);
        transcript::lemma_to_array(c.0);
        transcript::lemma_to_array(d.0);
    }
}

/// Two paths of the same length that lead from the same place to the same root start from the
/// same node and hold the same siblings, or they show two inputs that hash to the same node.
pub proof fn law_paths_bind<H: HashFunction>(
    a: MerkleNode,
    b: MerkleNode,
    idx: nat,
    p: Seq<MerkleNode>,
    q: Seq<MerkleNode>,
)
    requires
        p.len() == q.len(),
        climb::<H>(a, idx, p) == climb::<H>(b, idx, q),
    ensures
        (a == b && p == q) || exists|x: Seq<u8>, y: Seq<u8>| collide::<H>(x, y),
    decreases p.len(),
{
    if p.len() == 0 {
        assert(p =~= q);
    } else {
        let (u, v) = if idx % 2 == 1 {
            (hash_two_spec::<H>(a, p[0]), hash_two_spec::<H>(b, q[0]))
        } else {
            (hash_two_spec::<H>(p[0], a), hash_two_spec::<H>(q[0], b))
        };
        law_paths_bind::<H>(u, v, parent(idx), p.drop_first(), q.drop_first());
        if u == v && p.drop_first() == q.drop_first() {
            if idx % 2 == 1 {
                lemma_pair_binds::<H>(a, p[0], b, q[0]);
            } else {
                lemma_pair_binds::<H>(p[0], a, q[0], b);
            }
            assert(p =~= seq![p[0]] + p.drop_first());
            assert(q =~= seq![q[0]] + q.drop_first());
        }
    }
}

/// The length of the encoding of a column.
proof fn lemma_column_bytes_len<F: PrimeField>(column: Seq<int>)
    requires
        transcript::in_range(column, F::modulus()),
    ensures
        column_bytes::<F>(column).len() == 32 * column.len(),
    decreases column.len(),
{
    if column.len() > 0 {
        lemma_column_bytes_len::<F>(column.drop_last());
        F::repr_spells_value(column[column.len() - 1]);
    }
}

/// Different columns are encoded differently, so that all their elements are hashed.
pub proof fn law_columns_are_told_apart<F: PrimeField>(a: Seq<int>, b: Seq<int>)
    requires
        transcript::in_range(a, F::modulus()),
        transcript::in_range(b, F::modulus()),
        column_bytes::<F>(a) == column_bytes::<F>(b),
    ensures
        a == b,
    decreases a.len(),
{
    lemma_column_bytes_len::<F>(a);
    lemma_column_bytes_len::<F>(b);
    if a.len() > 0 {
        let n = a.len() - 1;
        let (x, y) = (a[n], b[n]);
        F::repr_spells_value(x);
        F::repr_spells_value(y);
        let whole = column_bytes::<F>(a);
        lemma_column_bytes_len::<F>(a.drop_last());
        lemma_column_bytes_len::<F>(b.drop_last());
        assert(F::repr(x) =~= whole.skip(32 * n));
        assert(F::repr(y) =~= whole.skip(32 * n));
        assert(column_bytes::<F>(a.drop_last()) =~= whole.take(32 * n));
        assert(column_bytes::<F>(b.drop_last()) =~= whole.take(32 * n));
        law_columns_are_told_apart::<F>(a.drop_last(), b.drop_last());
        assert(a =~= a.drop_last().push(x));
        assert(b =~= b.drop_last().push(y));
    } else {
        assert(a =~= b);
    }
}

/// A root commits to every column at its place: a column that leads there along some path to
/// the root of a tree is the tree's own column, or the path shows two inputs that hash to the
/// same node.
pub proof fn law_root_binds_columns<F: PrimeField, H: HashFunction>(
    columns: Seq<Seq<int>>,
    i: int,
    column: Seq<int>,
    path: Seq<MerkleNode>,
)
    requires
        0 <= i < columns.len(),
        transcript::in_range(columns[i], F::modulus()),
        transcript::in_range(column, F::modulus()),
        path.len() == integer::ceil_log2(columns.len()),
        ({
            let leaves = leaves_spec::<F, H>(columns);
            climb::<H>(leaf_spec::<F, H>(column), (leaves.len() - 1 + i) as nat, path) == node_at::<H>(
                leaves,
                0,
            )
        }),
    ensures
        column == columns[i] || exists|x: Seq<u8>, y: Seq<u8>| collide::<H>(x, y),
{
    let leaves = leaves_spec::<F, H>(columns);
    let idx = (leaves.len() - 1 + i) as nat;
    law_auth_path_verifies::<F, H>(columns, i);
    law_paths_bind::<H>(
        leaf_spec::<F, H>(column),
        leaf_spec::<F, H>(columns[i]),
        idx,
        path,
        path_spec::<H>(leaves, idx),
    );
    if leaf_spec::<F, H>(column) == leaf_spec::<F, H>(columns[i]) {
        let x = column_bytes::<F>(column);
        let y = column_bytes::<F>(columns[i]);
        if x == y {
            law_columns_are_told_apart::<F>(column, columns[i]);
        } else {
            assert(collide::<H>(x, y));
        }
    }
}

/// There are as many leaves as the smallest power of two that is enough for all columns. Every
/// column has the leaf at its place, and the leaves behind them are zero nodes.
pub proof fn law_leaves_are_filled_up<F: PrimeField, H: HashFunction>(
    columns: Seq<Seq<int>>,
    i: int,
)
    requires
        columns.len() > 0,
        0 <= i < leaves_spec::<F, H>(columns).len(),
    ensures
        columns.len() <= leaves_spec::<F, H>(columns).len() < 2 * columns.len(),
        integer::is_pow2(leaves_spec::<F, H>(columns).len() as int),
        i < columns.len() ==> leaves_spec::<F, H>(columns)[i] == hash_spec::<H>(
            column_bytes::<F>(columns[i]),
        ),
        i >= columns.len() ==> leaves_spec::<F, H>(columns)[i] == zero_node(),
{
    integer::lemma_ceil_log2(columns.len());
    assert(pow2(integer::ceil_log2(columns.len())) == leaves_spec::<F, H>(columns).len());
}

/// Two leaves or nodes side by side make the node above them, left before right.
pub proof fn law_nodes_join_what_is_below<H: HashFunction>(leaves: Seq<MerkleNode>, idx: nat)
    requires
        idx + 1 < leaves.len(),
    ensures
        node_at::<H>(leaves, idx) == hash_spec::<H>(
            node_at::<H>(leaves, 2 * idx + 1).0@ + node_at::<H>(leaves, 2 * idx + 2).0@,
        ),
{
}

} // verus!
