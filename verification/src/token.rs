//! Tree-coded symbols.
//!
//! A tree is an array of pairs: entry `i + bit` says where bit `bit` leads from
//! node `i`. A positive entry is the next node; any other entry is a leaf and
//! stands for the symbol that it is the negative of. Node `i` has its own
//! probability, at index `i / 2`.
use vstd::prelude::*;

use crate::bits::BoolDecoder;
use crate::coding;
use crate::coding::{Cursor, Sym};

verus! {

/// Every walk from `node` stays inside the tree and its `nprobs` probabilities
/// and reaches a leaf after at most `depth` branches.
pub open spec fn tree_ok(tree: Seq<i8>, nprobs: nat, node: int, depth: nat) -> bool
    decreases depth,
{
    &&& depth > 0
    &&& 0 <= node && node + 1 < tree.len()
    &&& node / 2 < nprobs
    &&& tree[node] > 0 ==> tree_ok(tree, nprobs, tree[node] as int, (depth - 1) as nat)
    &&& tree[node + 1] > 0 ==> tree_ok(tree, nprobs, tree[node + 1] as int, (depth - 1) as nat)
}

/// Every walk from the root ends. No walk that ends is longer than the tree.
pub open spec fn is_tree(tree: Seq<i8>, nprobs: nat) -> bool {
    tree_ok(tree, nprobs, 0, tree.len())
}

/// Where the next bit of `c` leads from `node`.
pub open spec fn tree_branch(c: Cursor, tree: Seq<i8>, probs: Seq<u8>, node: int) -> i8 {
    if coding::read_bit(c, probs[node / 2]) {
        tree[node + 1]
    } else {
        tree[node]
    }
}

/// The symbol that a walk from `node` reads.
pub open spec fn tree_value(
    c: Cursor,
    tree: Seq<i8>,
    probs: Seq<u8>,
    node: int,
    depth: nat,
) -> int
    decreases depth,
{
    let to = tree_branch(c, tree, probs, node);
    if depth == 0 || to <= 0 {
        -to
    } else {
        tree_value(
            coding::read_next(c, probs[node / 2]),
            tree,
            probs,
            to as int,
            (depth - 1) as nat,
        )
    }
}

/// The state after a walk from `node`.
pub open spec fn tree_after(
    c: Cursor,
    tree: Seq<i8>,
    probs: Seq<u8>,
    node: int,
    depth: nat,
) -> Cursor
    decreases depth,
{
    let to = tree_branch(c, tree, probs, node);
    let d = coding::read_next(c, probs[node / 2]);
    if depth == 0 || to <= 0 {
        d
    } else {
        tree_after(d, tree, probs, to as int, (depth - 1) as nat)
    }
}

/// The branches from `node` to the first leaf, zero branches first, that stands
/// for `symbol`.
pub open spec fn tree_path(
    tree: Seq<i8>,
    probs: Seq<u8>,
    symbol: int,
    node: int,
    depth: nat,
) -> Option<Seq<Sym>>
    decreases depth, 1nat,
{
    if depth == 0 {
        None
    } else {
        match branch_path(tree, probs, symbol, node, false, depth) {
            Some(p) => Some(p),
            None => branch_path(tree, probs, symbol, node, true, depth),
        }
    }
}

/// The same, by way of the branch `bit` of `node`.
pub open spec fn branch_path(
    tree: Seq<i8>,
    probs: Seq<u8>,
    symbol: int,
    node: int,
    bit: bool,
    depth: nat,
) -> Option<Seq<Sym>>
    decreases depth, 0nat,
{
    let to = if bit {
        tree[node + 1]
    } else {
        tree[node]
    };
    let head = seq![coding::sym(bit, probs[node / 2])];
    if depth == 0 {
        None
    } else if to <= 0 {
        if -to == symbol {
            Some(head)
        } else {
            None
        }
    } else {
        match tree_path(tree, probs, symbol, to as int, (depth - 1) as nat) {
            Some(p) => Some(head + p),
            None => None,
        }
    }
}

/// A leaf below `node` stands for `symbol`.
pub open spec fn has_leaf(tree: Seq<i8>, symbol: int, node: int, depth: nat) -> bool
    decreases depth,
{
    depth > 0 && ((if tree[node] > 0 {
        has_leaf(tree, symbol, tree[node] as int, (depth - 1) as nat)
    } else {
        -tree[node] == symbol
    }) || (if tree[node + 1] > 0 {
        has_leaf(tree, symbol, tree[node + 1] as int, (depth - 1) as nat)
    } else {
        -tree[node + 1] == symbol
    }))
}

/// A leaf of the tree stands for `symbol`.
pub open spec fn in_tree(tree: Seq<i8>, symbol: int) -> bool {
    has_leaf(tree, symbol, 0, tree.len())
}

/// A path leads to every leaf.
pub proof fn lemma_leaf_has_path(
    tree: Seq<i8>,
    probs: Seq<u8>,
    symbol: int,
    node: int,
    depth: nat,
)
    ensures
        has_leaf(tree, symbol, node, depth) == (tree_path(
            tree,
            probs,
            symbol,
            node,
            depth,
        ) is Some),
    decreases depth,
{
    if depth > 0 {
        if tree[node] > 0 {
            lemma_leaf_has_path(tree, probs, symbol, tree[node] as int, (depth - 1) as nat);
        }
        if tree[node + 1] > 0 {
            lemma_leaf_has_path(tree, probs, symbol, tree[node + 1] as int, (depth - 1) as nat);
        }
        let p = branch_path(tree, probs, symbol, node, false, depth);
        let q = branch_path(tree, probs, symbol, node, true, depth);
    }
}

/// The symbols that code `symbol` in the tree.
pub open spec fn tree_syms(tree: Seq<i8>, probs: Seq<u8>, symbol: int) -> Seq<Sym> {
    tree_path(tree, probs, symbol, 0, tree.len()).unwrap()
}

/// What a walk from the root reads.
pub open spec fn tree_read(c: Cursor, tree: Seq<i8>, probs: Seq<u8>) -> int {
    tree_value(c, tree, probs, 0, tree.len())
}

/// The state after a walk from the root.
pub open spec fn tree_done(c: Cursor, tree: Seq<i8>, probs: Seq<u8>) -> Cursor {
    tree_after(c, tree, probs, 0, tree.len())
}

/// Reads a tree-coded symbol.
pub fn read_tree(b: &mut BoolDecoder, tree: &[i8], probs: &[u8]) -> (r: i32)
    requires
        old(b).wf(),
        is_tree(tree@, probs@.len()),
    ensures
        final(b).wf(),
        r == tree_read(old(b)@, tree@, probs@),
        in_tree(tree@, r as int),
        final(b)@ == tree_done(old(b)@, tree@, probs@),
{
    proof {
        lemma_tree_value_found(b@, tree@, probs@, 0, tree@.len());
    }
    let len: usize = tree.len();
    let mut node: usize = 0;
    let ghost mut depth = tree@.len();
    loop
        invariant
            b.wf(),
            len == tree@.len(),
            in_tree(tree@, tree_read(old(b)@, tree@, probs@)),
            tree_ok(tree@, probs@.len(), node as int, depth),
            tree_value(b@, tree@, probs@, node as int, depth) == tree_read(
                old(b)@,
                tree@,
                probs@,
            ),
            tree_after(b@, tree@, probs@, node as int, depth) == tree_done(
                old(b)@,
                tree@,
                probs@,
            ),
        decreases depth,
    {
        let bit: u32 = b.read_bool(probs[node / 2]);
        let to: i8 = tree[node + bit as usize];
        if to <= 0 {
            return -(to as i32);
        }
        node = to as usize;
        proof {
            depth = (depth - 1) as nat;
        }
    }
}

/// Reading a tree returns one of its leaves.
pub proof fn lemma_tree_value_found(
    c: Cursor,
    tree: Seq<i8>,
    probs: Seq<u8>,
    node: int,
    depth: nat,
)
    requires
        tree_ok(tree, probs.len(), node, depth),
    ensures
        has_leaf(tree, tree_value(c, tree, probs, node, depth), node, depth),
    decreases depth,
{
    let to = tree_branch(c, tree, probs, node);
    if to > 0 {
        lemma_tree_value_found(
            coding::read_next(c, probs[node / 2]),
            tree,
            probs,
            to as int,
            (depth - 1) as nat,
        );
    }
}

/// Following the branches to a leaf from any node reads the leaf's symbol.
pub proof fn lemma_tree_path_read(
    c: Cursor,
    tree: Seq<i8>,
    probs: Seq<u8>,
    symbol: int,
    node: int,
    depth: nat,
)
    requires
        tree_path(tree, probs, symbol, node, depth) is Some,
        coding::holds(c, tree_path(tree, probs, symbol, node, depth).unwrap()),
    ensures
        tree_value(c, tree, probs, node, depth) == symbol,
        tree_after(c, tree, probs, node, depth) == coding::after(
            c,
            tree_path(tree, probs, symbol, node, depth).unwrap(),
        ),
    decreases depth,
{
    let path = tree_path(tree, probs, symbol, node, depth).unwrap();
    let bit = branch_path(tree, probs, symbol, node, false, depth) is None;
    let to = if bit {
        tree[node + 1]
    } else {
        tree[node]
    };
    let head = coding::sym(bit, probs[node / 2]);
    coding::lemma_holds_one(c, head);
    if to > 0 {
        let rest = tree_path(tree, probs, symbol, to as int, (depth - 1) as nat).unwrap();
        assert(path == seq![head] + rest);
        coding::lemma_holds_concat(c, seq![head], rest);
        lemma_tree_path_read(
            coding::read_next(c, head.prob),
            tree,
            probs,
            symbol,
            to as int,
            (depth - 1) as nat,
        );
    }
}

/// Reading a tree inverts writing it: where the symbols that code `symbol` come
/// next, a walk from the root reads `symbol` and stops right behind them.
pub proof fn law_tree_read_inverts_write(c: Cursor, tree: Seq<i8>, probs: Seq<u8>, symbol: int)
    requires
        in_tree(tree, symbol),
        coding::holds(c, tree_syms(tree, probs, symbol)),
    ensures
        tree_read(c, tree, probs) == symbol,
        tree_done(c, tree, probs) == coding::after(c, tree_syms(tree, probs, symbol)),
{
    lemma_leaf_has_path(tree, probs, symbol, 0, tree.len());
    lemma_tree_path_read(c, tree, probs, symbol, 0, tree.len());
}

} // verus!
