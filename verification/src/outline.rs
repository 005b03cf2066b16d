//! The shape of a tree, line by line.
use crate::node::{pairs, trees, Internal, Leaf, Node};
use crate::tree::Tree;
use vstd::prelude::*;

verus! {

/// One node: how deep it lies, whether it is a leaf, and its keys.
pub struct Line<'a, K> {
    pub depth: usize,
    pub leaf: bool,
    pub keys: Vec<&'a K>,
}

/// A tree from top to bottom and left to right, with its degree and its number of entries.
pub struct Outline<'a, K> {
    pub t: usize,
    pub len: usize,
    pub lines: Vec<Line<'a, K>>,
}

/// A line as a mathematical value.
pub struct LineSpec<K> {
    pub depth: nat,
    pub leaf: bool,
    pub keys: Seq<K>,
}

impl<'a, K> Line<'a, K> {
    pub open spec fn view(&self) -> LineSpec<K> {
        LineSpec { depth: self.depth as nat, leaf: self.leaf, keys: unref(self.keys@) }
    }
}

/// What the references of `s` point to.
pub open spec fn unref<K>(s: Seq<&K>) -> Seq<K> {
    Seq::new(s.len(), |i: int| *s[i])
}

pub open spec fn views<K>(s: Seq<Line<K>>) -> Seq<LineSpec<K>> {
    Seq::new(s.len(), |i: int| s[i]@)
}

/// The keys of some entries.
pub open spec fn keys_of<K, V>(s: Seq<(K, V)>) -> Seq<K> {
    Seq::new(s.len(), |i: int| s[i].0)
}

/// The lines of a tree whose root lies at depth `d`: a node stands before its subtrees.
pub open spec fn lines_of<K, V>(m: Tree<K, V>, d: nat) -> Seq<LineSpec<K>>
    decreases m,
{
    match m {
        Tree::Leaf(e) => seq![LineSpec { depth: d, leaf: true, keys: keys_of(e) }],
        Tree::Internal(keys, ch) => seq![LineSpec { depth: d, leaf: false, keys }] + lines_of_row(
            ch,
            d + 1,
        ),
    }
}

/// The lines of a row of trees.
pub open spec fn lines_of_row<K, V>(ch: Seq<Tree<K, V>>, d: nat) -> Seq<LineSpec<K>>
    decreases ch,
{
    if ch.len() == 0 {
        Seq::empty()
    } else {
        lines_of_row(ch.drop_last(), d) + lines_of(ch.last(), d)
    }
}

/// Adds the lines of the tree below `node` to `out`.
pub(crate) fn print_node<'a, K: Ord + Clone, V>(
    node: &'a Node<K, V>,
    depth: usize,
    out: &mut Vec<Line<'a, K>>,
)
    requires
        depth <= old(out)@.len(),
    ensures
        views(final(out)@) == views(old(out)@) + lines_of(node.tree(), depth as nat),
    decreases node,
{
    match node {
        Node::Leaf(leaf) => {
            let mut keys: Vec<&'a K> = Vec::new();
            let mut i: usize = 0;
            while i < leaf.entries.len()
                invariant
                    i <= leaf.entries@.len(),
                    keys@.len() == i,
                    forall|j: int| 0 <= j < i ==> *#[trigger] keys@[j] == leaf.entries@[j].key,
                decreases leaf.entries@.len() - i,
            {
                keys.push(&leaf.entries[i].key);
                i += 1;
            }
            assert(unref(keys@) =~= keys_of(pairs(leaf.entries@)));
            out.push(Line { depth, leaf: true, keys });
            assert(views(out@) =~= views(old(out)@) + lines_of(node.tree(), depth as nat));
        },
        Node::Internal(internal) => {
            let mut keys: Vec<&'a K> = Vec::new();
            let mut i: usize = 0;
            while i < internal.keys.len()
                invariant
                    i <= internal.keys@.len(),
                    keys@.len() == i,
                    forall|j: int| 0 <= j < i ==> *#[trigger] keys@[j] == internal.keys@[j],
                decreases internal.keys@.len() - i,
            {
                keys.push(&internal.keys[i]);
                i += 1;
            }
            assert(unref(keys@) =~= internal.keys@);
            out.push(Line { depth, leaf: false, keys });
            let ghost head = seq![LineSpec { depth: depth as nat, leaf: false, keys: internal.keys@ }];
            let ghost ch = trees(internal.children@);
            assert(views(out@) =~= views(old(out)@) + head + lines_of_row(ch.take(0), (depth + 1) as nat));
            let n = out.len();
            let mut c: usize = 0;
            while c < internal.children.len()
                invariant
                    c <= internal.children@.len(),
                    ch == trees(internal.children@),
                    n == depth + 1 || depth + 1 <= n,
                    n <= out@.len(),
                    views(out@) == views(old(out)@) + head + lines_of_row(
                        ch.take(c as int),
                        (depth + 1) as nat,
                    ),
                    decreases_to!(node => internal),
                decreases internal.children@.len() - c,
            {
                let ghost before = views(out@);
                print_node(&*internal.children[c], depth + 1, out);
                proof {
                    assert(ch.take(c + 1).drop_last() =~= ch.take(c as int));
                    assert(ch.take(c + 1).last() == ch[c as int]);
                    assert(views(out@) =~= views(old(out)@) + head + lines_of_row(
                        ch.take(c + 1),
                        (depth + 1) as nat,
                    ));
                    assert(views(out@).len() >= before.len());
                }
                c += 1;
            }
            assert(ch.take(c as int) =~= ch);
            assert(views(out@) =~= views(old(out)@) + lines_of(node.tree(), depth as nat));
        },
    }
}

} // verus!
