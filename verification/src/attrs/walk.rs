//! The attribute passes over a whole tree: every node gets the inline pass,
//! then every node gets the block pass; a node is visited before its
//! children, which are visited as the node's own pass left them.
use vstd::prelude::*;

use crate::attrs::{
    apply_block_attrs, apply_inline_attrs, block_fold, block_result, block_step, inline_children,
    inline_fold, inline_step, keep_unlisted, lemma_nodes_view, lemma_nodes_view_update, node_view,
    nodes_view, placeholder, with_attrs, with_children, AstNode, BlockState, NodeKind, NodeView,
};

verus! {

// ---------------------------------------------------------------------------
// Heights
// ---------------------------------------------------------------------------

/// The height of a node: one more than its tallest child.
pub open spec fn height(v: NodeView) -> nat
    decreases v,
{
    1 + heights(v.children)
}

/// The height of the tallest node of `s`, or 0 for none.
pub open spec fn heights(s: Seq<NodeView>) -> nat
    decreases s,
{
    if s.len() == 0 {
        0
    } else {
        let a = heights(s.drop_last());
        let b = height(s.last());
        if a >= b {
            a
        } else {
            b
        }
    }
}

proof fn lemma_heights_elem(s: Seq<NodeView>, k: int)
    requires
        0 <= k < s.len(),
    ensures
        height(s[k]) <= heights(s),
    decreases s.len(),
{
    if k < s.len() - 1 {
        lemma_heights_elem(s.drop_last(), k);
    }
}

proof fn lemma_heights_bound(s: Seq<NodeView>, m: nat)
    requires
        forall|k: int| 0 <= k < s.len() ==> height(#[trigger] s[k]) <= m,
    ensures
        heights(s) <= m,
    decreases s.len(),
{
    if s.len() > 0 {
        assert forall|k: int| 0 <= k < s.drop_last().len() implies height(
            #[trigger] s.drop_last()[k],
        ) <= m by {
            assert(s.drop_last()[k] == s[k]);
        }
        lemma_heights_bound(s.drop_last(), m);
    }
}

proof fn lemma_heights_skip(s: Seq<NodeView>, j: int)
    requires
        0 <= j <= s.len(),
    ensures
        heights(s.skip(j)) <= heights(s),
{
    assert forall|k: int| 0 <= k < s.skip(j).len() implies height(#[trigger] s.skip(j)[k]) <= heights(
        s,
    ) by {
        lemma_heights_elem(s, k + j);
    }
    lemma_heights_bound(s.skip(j), heights(s));
}

proof fn lemma_keep_unlisted_members(c: Seq<NodeView>, rm: Seq<int>)
    ensures
        forall|m: int|
            0 <= m < keep_unlisted(c, rm).len() ==> exists|k: int|
                0 <= k < c.len() && #[trigger] keep_unlisted(c, rm)[m] == c[k],
    decreases c.len(),
{
    if c.len() > 0 {
        lemma_keep_unlisted_members(c.drop_last(), rm);
        let prev = keep_unlisted(c.drop_last(), rm);
        assert forall|m: int| 0 <= m < keep_unlisted(c, rm).len() implies exists|k: int|
            0 <= k < c.len() && #[trigger] keep_unlisted(c, rm)[m] == c[k] by {
            if m < prev.len() {
                let k = choose|k: int| 0 <= k < c.drop_last().len() && prev[m] == c.drop_last()[k];
                assert(keep_unlisted(c, rm)[m] == c[k]);
            } else {
                assert(keep_unlisted(c, rm)[m] == c[c.len() - 1]);
            }
        }
    }
}

/// Kept entries are no taller than the tallest entry of `bound` at the same
/// index, entry by entry.
proof fn lemma_keep_unlisted_heights(c: Seq<NodeView>, rm: Seq<int>, bound: Seq<NodeView>)
    requires
        c.len() == bound.len(),
        forall|k: int| 0 <= k < c.len() ==> heights(#[trigger] c[k].children) <= heights(bound[k].children),
    ensures
        heights(keep_unlisted(c, rm)) <= heights(bound),
{
    lemma_keep_unlisted_members(c, rm);
    let kept = keep_unlisted(c, rm);
    assert forall|m: int| 0 <= m < kept.len() implies height(#[trigger] kept[m]) <= heights(bound) by {
        let k = choose|k: int| 0 <= k < c.len() && #[trigger] kept[m] == c[k];
        assert(heights(c[k].children) <= heights(bound[k].children));
        lemma_heights_elem(bound, k);
    }
    lemma_heights_bound(kept, heights(bound));
}

proof fn lemma_inline_fold_children(ch: Seq<NodeView>, rm: Seq<int>, i: int, n: int)
    ensures
        inline_fold(ch, rm, i, n).0.len() == ch.len(),
        forall|k: int|
            0 <= k < ch.len() ==> (#[trigger] inline_fold(ch, rm, i, n).0[k]).children
                == ch[k].children,
    decreases n - i,
{
    if !(i < 1 || i >= n || ch.len() != n) {
        let (c2, r2) = inline_step(ch, rm, i);
        assert(c2.len() == ch.len());
        assert forall|k: int| 0 <= k < ch.len() implies (#[trigger] c2[k]).children == ch[k].children by {}
        lemma_inline_fold_children(c2, r2, i + 1, n);
    }
}

/// The inline pass makes no child taller.
proof fn lemma_inline_heights(ch: Seq<NodeView>)
    ensures
        heights(inline_children(ch)) <= heights(ch),
{
    let (c, rm) = inline_fold(ch, seq![], 1, ch.len() as int);
    lemma_inline_fold_children(ch, seq![], 1, ch.len() as int);
    assert forall|k: int| 0 <= k < c.len() implies heights(#[trigger] c[k].children) <= heights(
        ch[k].children,
    ) by {
        assert(inline_fold(ch, seq![], 1, ch.len() as int).0[k] == c[k]);
    }
    lemma_keep_unlisted_heights(c, rm, ch);
}

proof fn lemma_block_fold_children(parent: NodeKind, s: BlockState, i: int, n: int, orig: Seq<NodeView>)
    requires
        s.children.len() == orig.len(),
        forall|k: int|
            0 <= k < orig.len() ==> heights(#[trigger] s.children[k].children) <= heights(
                orig[k].children,
            ),
    ensures
        block_fold(parent, s, i, n).children.len() == orig.len(),
        forall|k: int|
            0 <= k < orig.len() ==> heights(
                (#[trigger] block_fold(parent, s, i, n).children[k]).children,
            ) <= heights(orig[k].children),
    decreases n - i,
{
    if !(i < 0 || i >= n || s.children.len() != n) {
        let s2 = block_step(parent, s, i);
        let c = s.children[i];
        assert(s2.children.len() == orig.len());
        assert forall|k: int| 0 <= k < orig.len() implies heights(
            (#[trigger] s2.children[k]).children,
        ) <= heights(orig[k].children) by {
            if k == i && (c.kind == NodeKind::Paragraph || c.kind == NodeKind::ListItem) {
                match crate::attrs::leading_attrs(c.children) {
                    Some((raw, j)) => {
                        crate::attrs::lemma_scan_more_bounds(
                            c.children,
                            1,
                            crate::attrs::attr_only_text(c.children[0]).unwrap(),
                        );
                        if j == c.children.len() {
                            lemma_heights_skip(c.children, j);
                        } else if j < c.children.len() {
                            lemma_heights_skip(c.children, j + 1);
                        }
                    },
                    None => {},
                }
            }
        }
        lemma_block_fold_children(parent, s2, i + 1, n, orig);
    }
}

/// The block pass makes no child taller.
proof fn lemma_block_heights(v: NodeView)
    ensures
        heights(block_result(v).children) <= heights(v.children),
{
    let s0 = BlockState { attrs: v.attrs, children: v.children, remove: seq![] };
    let f = block_fold(v.kind, s0, 0, v.children.len() as int);
    lemma_block_fold_children(v.kind, s0, 0, v.children.len() as int, v.children);
    assert forall|k: int| 0 <= k < f.children.len() implies heights(
        #[trigger] f.children[k].children,
    ) <= heights(v.children[k].children) by {
        assert(block_fold(v.kind, s0, 0, v.children.len() as int).children[k] == f.children[k]);
    }
    lemma_keep_unlisted_heights(f.children, f.remove, v.children);
}

// ---------------------------------------------------------------------------
// The walks
// ---------------------------------------------------------------------------

/// The inline pass on `v` and then on each of its children, recursively,
/// `fuel` levels deep.
pub open spec fn inline_walk(v: NodeView, fuel: nat) -> NodeView
    decreases fuel, 0nat,
{
    if fuel == 0 {
        v
    } else {
        let v1 = with_children(v, inline_children(v.children));
        with_children(v1, inline_walk_all(v1.children, (fuel - 1) as nat))
    }
}

pub open spec fn inline_walk_all(s: Seq<NodeView>, fuel: nat) -> Seq<NodeView>
    decreases fuel, s.len() + 1,
{
    if s.len() == 0 {
        seq![]
    } else {
        inline_walk_all(s.drop_last(), fuel).push(inline_walk(s.last(), fuel))
    }
}

/// The block pass on `v` and then on each of its children, recursively,
/// `fuel` levels deep.
pub open spec fn block_walk(v: NodeView, fuel: nat) -> NodeView
    decreases fuel, 0nat,
{
    if fuel == 0 {
        v
    } else {
        let v1 = block_result(v);
        with_children(v1, block_walk_all(v1.children, (fuel - 1) as nat))
    }
}

pub open spec fn block_walk_all(s: Seq<NodeView>, fuel: nat) -> Seq<NodeView>
    decreases fuel, s.len() + 1,
{
    if s.len() == 0 {
        seq![]
    } else {
        block_walk_all(s.drop_last(), fuel).push(block_walk(s.last(), fuel))
    }
}

proof fn lemma_inline_walk_all_fuel(s: Seq<NodeView>, f1: nat, f2: nat)
    requires
        heights(s) <= f1 <= f2,
    ensures
        inline_walk_all(s, f1) == inline_walk_all(s, f2),
    decreases f1, s.len() + 1,
{
    if s.len() > 0 {
        lemma_heights_elem(s, s.len() - 1);
        assert forall|k: int| 0 <= k < s.drop_last().len() implies height(
            #[trigger] s.drop_last()[k],
        ) <= f1 by {
            lemma_heights_elem(s, k);
        }
        lemma_heights_bound(s.drop_last(), f1);
        lemma_inline_walk_all_fuel(s.drop_last(), f1, f2);
        lemma_inline_walk_fuel(s.last(), f1, f2);
    }
}

/// Once the fuel reaches every node, more fuel changes nothing.
pub proof fn lemma_inline_walk_fuel(v: NodeView, f1: nat, f2: nat)
    requires
        height(v) <= f1 <= f2,
    ensures
        inline_walk(v, f1) == inline_walk(v, f2),
    decreases f1, 0nat,
{
    lemma_inline_heights(v.children);
    let v1 = with_children(v, inline_children(v.children));
    lemma_inline_walk_all_fuel(v1.children, (f1 - 1) as nat, (f2 - 1) as nat);
}

proof fn lemma_block_walk_all_fuel(s: Seq<NodeView>, f1: nat, f2: nat)
    requires
        heights(s) <= f1 <= f2,
    ensures
        block_walk_all(s, f1) == block_walk_all(s, f2),
    decreases f1, s.len() + 1,
{
    if s.len() > 0 {
        lemma_heights_elem(s, s.len() - 1);
        assert forall|k: int| 0 <= k < s.drop_last().len() implies height(
            #[trigger] s.drop_last()[k],
        ) <= f1 by {
            lemma_heights_elem(s, k);
        }
        lemma_heights_bound(s.drop_last(), f1);
        lemma_block_walk_all_fuel(s.drop_last(), f1, f2);
        lemma_block_walk_fuel(s.last(), f1, f2);
    }
}

/// Once the fuel reaches every node, more fuel changes nothing.
pub proof fn lemma_block_walk_fuel(v: NodeView, f1: nat, f2: nat)
    requires
        height(v) <= f1 <= f2,
    ensures
        block_walk(v, f1) == block_walk(v, f2),
    decreases f1, 0nat,
{
    lemma_block_heights(v);
    let v1 = block_result(v);
    lemma_block_walk_all_fuel(v1.children, (f1 - 1) as nat, (f2 - 1) as nat);
}

fn walk_inline(node: &mut AstNode, Ghost(fuel): Ghost<nat>)
    requires
        height(node_view(*old(node))) <= fuel,
    ensures
        node_view(*final(node)) == inline_walk(node_view(*old(node)), fuel),
    decreases fuel,
{
    let ghost v = node_view(*node);
    apply_inline_attrs(node);
    let ghost v1 = node_view(*node);
    proof {
        lemma_inline_heights(v.children);
        lemma_nodes_view(node.children@);
    }
    let n = node.children.len();
    let mut k: usize = 0;
    assert(v1.children.take(0) =~= Seq::<NodeView>::empty());
    assert(v1.children.skip(0) =~= v1.children);
    while k < n
        invariant
            k <= n,
            n == v1.children.len(),
            node.children@.len() == n,
            v1 == with_children(v, inline_children(v.children)),
            heights(v1.children) + 1 <= fuel,
            nodes_view(node.children@) == inline_walk_all(v1.children.take(k as int), (fuel - 1) as nat)
                + v1.children.skip(k as int),
            node.id == v1.id,
            node.kind == v1.kind,
            node.content@ == v1.content,
            crate::attrs::pairs_view(node.attrs@) == v1.attrs,
        decreases n - k,
    {
        let ghost c0 = node.children@;
        proof {
            lemma_nodes_view(c0);
            lemma_heights_elem(v1.children, k as int);
            assert(nodes_view(c0)[k as int] == v1.children[k as int]);
        }
        let mut child = placeholder();
        node.children.set_and_swap(k, &mut child);
        walk_inline(&mut child, Ghost((fuel - 1) as nat));
        let ghost walked = child;
        node.children.set_and_swap(k, &mut child);
        proof {
            assert(node.children@ =~= c0.update(k as int, walked));
            lemma_nodes_view_update(c0, k as int, walked);
            let w = inline_walk_all(v1.children.take(k + 1), (fuel - 1) as nat);
            assert(v1.children.take(k + 1).drop_last() =~= v1.children.take(k as int));
            assert(w == inline_walk_all(v1.children.take(k as int), (fuel - 1) as nat).push(
                inline_walk(v1.children[k as int], (fuel - 1) as nat),
            ));
            assert(nodes_view(node.children@) =~= w + v1.children.skip(k + 1));
        }
        k = k + 1;
    }
    proof {
        assert(v1.children.take(n as int) =~= v1.children);
        assert(v1.children.skip(n as int) =~= Seq::<NodeView>::empty());
        assert(nodes_view(node.children@) =~= inline_walk_all(v1.children, (fuel - 1) as nat));
        assert(node_view(*node) =~= inline_walk(v, fuel));
    }
}

fn walk_block(node: &mut AstNode, Ghost(fuel): Ghost<nat>)
    requires
        height(node_view(*old(node))) <= fuel,
    ensures
        node_view(*final(node)) == block_walk(node_view(*old(node)), fuel),
    decreases fuel,
{
    let ghost v = node_view(*node);
    apply_block_attrs(node);
    let ghost v1 = node_view(*node);
    proof {
        lemma_block_heights(v);
        lemma_nodes_view(node.children@);
    }
    let n = node.children.len();
    let mut k: usize = 0;
    assert(v1.children.take(0) =~= Seq::<NodeView>::empty());
    assert(v1.children.skip(0) =~= v1.children);
    while k < n
        invariant
            k <= n,
            n == v1.children.len(),
            node.children@.len() == n,
            v1 == block_result(v),
            heights(v1.children) + 1 <= fuel,
            nodes_view(node.children@) == block_walk_all(v1.children.take(k as int), (fuel - 1) as nat)
                + v1.children.skip(k as int),
            node.id == v1.id,
            node.kind == v1.kind,
            node.content@ == v1.content,
            crate::attrs::pairs_view(node.attrs@) == v1.attrs,
        decreases n - k,
    {
        let ghost c0 = node.children@;
        proof {
            lemma_nodes_view(c0);
            lemma_heights_elem(v1.children, k as int);
            assert(nodes_view(c0)[k as int] == v1.children[k as int]);
        }
        let mut child = placeholder();
        node.children.set_and_swap(k, &mut child);
        walk_block(&mut child, Ghost((fuel - 1) as nat));
        let ghost walked = child;
        node.children.set_and_swap(k, &mut child);
        proof {
            assert(node.children@ =~= c0.update(k as int, walked));
            lemma_nodes_view_update(c0, k as int, walked);
            let w = block_walk_all(v1.children.take(k + 1), (fuel - 1) as nat);
            assert(v1.children.take(k + 1).drop_last() =~= v1.children.take(k as int));
            assert(w == block_walk_all(v1.children.take(k as int), (fuel - 1) as nat).push(
                block_walk(v1.children[k as int], (fuel - 1) as nat),
            ));
            assert(nodes_view(node.children@) =~= w + v1.children.skip(k + 1));
        }
        k = k + 1;
    }
    proof {
        assert(v1.children.take(n as int) =~= v1.children);
        assert(v1.children.skip(n as int) =~= Seq::<NodeView>::empty());
        assert(nodes_view(node.children@) =~= block_walk_all(v1.children, (fuel - 1) as nat));
        assert(node_view(*node) =~= block_walk(v, fuel));
    }
}

/// The inline pass over every node of the tree, each node before its
/// children (as the pass left them).
pub fn apply_inline_attrs_tree(root: &mut AstNode)
    ensures
        node_view(*final(root)) == inline_walk(node_view(*old(root)), height(node_view(*old(root)))),
{
    let ghost h = height(node_view(*root));
    walk_inline(root, Ghost(h));
}

/// The block pass over every node of the tree, each node before its
/// children (as the pass left them).
pub fn apply_block_attrs_tree(root: &mut AstNode)
    ensures
        node_view(*final(root)) == block_walk(node_view(*old(root)), height(node_view(*old(root)))),
{
    let ghost h = height(node_view(*root));
    walk_block(root, Ghost(h));
}

} // verus!
