//! Document trees and their flattening into key paths with leaf values.

use crate::keys::{copy_key, Key};
use vstd::prelude::*;
use vstd::seq_lib::lemma_no_dup_in_concat;

verus! {

/// A document node: a leaf value, or a table of labelled child nodes.
///
/// The leaf type is left open; a table is never a leaf, so every table of
/// the source format is a `Table` here.
pub enum Tree<L> {
    /// A value that is not a table.
    Leaf(L),
    /// Children, each under its label.
    Table(Vec<(String, Tree<L>)>),
}

/// The entries of a flattened node reached by the path `prefix`: one for each
/// leaf, under the path extended by the labels down to it, in the order of
/// the tables' children. Tables contribute no entry of their own.
pub open spec fn flat_of<L>(t: Tree<L>, prefix: Seq<Seq<char>>) -> Seq<(Seq<Seq<char>>, L)>
    decreases t,
{
    match t {
        Tree::Leaf(l) => seq![(prefix, l)],
        Tree::Table(children) => {
            proof {
                assert(decreases_to!(children => children@));
            }
            flat_children(children@, prefix)
        },
    }
}

/// The entries of the children `cs` of a table reached by `prefix`, one child
/// after the other.
pub open spec fn flat_children<L>(cs: Seq<(String, Tree<L>)>, prefix: Seq<Seq<char>>) -> Seq<
    (Seq<Seq<char>>, L),
>
    decreases cs,
{
    if cs.len() == 0 {
        Seq::empty()
    } else {
        proof {
            assert(decreases_to!(cs => cs.subrange(0, cs.len() - 1)));
            assert(decreases_to!(cs => cs[cs.len() - 1]));
        }
        flat_children(cs.drop_last(), prefix) + flat_of(cs.last().1, prefix.push(cs.last().0@))
    }
}

/// Every table of the tree gives its children pairwise distinct labels.
pub open spec fn labels_distinct<L>(t: Tree<L>) -> bool
    decreases t,
{
    match t {
        Tree::Leaf(_) => true,
        Tree::Table(children) => {
            proof {
                assert(decreases_to!(children => children@));
            }
            children_distinct(children@)
        },
    }
}

/// The children `cs` of a table have pairwise distinct labels, and each of
/// them has distinct labels in its own tables.
pub open spec fn children_distinct<L>(cs: Seq<(String, Tree<L>)>) -> bool
    decreases cs,
{
    if cs.len() == 0 {
        true
    } else {
        proof {
            assert(decreases_to!(cs => cs.subrange(0, cs.len() - 1)));
            assert(decreases_to!(cs => cs[cs.len() - 1]));
        }
        &&& children_distinct(cs.drop_last())
        &&& labels_distinct(cs.last().1)
        &&& forall|i: int| 0 <= i < cs.len() - 1 ==> (#[trigger] cs[i]).0@ != cs.last().0@
    }
}

/// The flattened document of a whole tree, whose root has the empty path.
pub open spec fn flattened<L>(t: Tree<L>) -> Seq<(Seq<Seq<char>>, L)> {
    flat_of(t, Seq::empty())
}

/// The view of flattened entries: each key path as a sequence of labels.
pub open spec fn entries_view<L>(s: Seq<(Key, L)>) -> Seq<(Seq<Seq<char>>, L)> {
    s.map_values(|e: (Key, L)| (e.0.deep_view(), e.1))
}

/// The key paths of flattened entries, in their order.
pub open spec fn paths_of<L>(s: Seq<(Seq<Seq<char>>, L)>) -> Seq<Seq<Seq<char>>> {
    s.map_values(|e: (Seq<Seq<char>>, L)| e.0)
}

/// `q` starts with `prefix`.
pub open spec fn extends(q: Seq<Seq<char>>, prefix: Seq<Seq<char>>) -> bool {
    q.len() >= prefix.len() && q.subrange(0, prefix.len() as int) == prefix
}

/// Every path flattened from a node reached by `prefix` starts with `prefix`.
proof fn lemma_paths_extend<L>(t: Tree<L>, prefix: Seq<Seq<char>>)
    ensures
        forall|k: int|
            0 <= k < flat_of(t, prefix).len() ==> extends(
                #[trigger] flat_of(t, prefix)[k].0,
                prefix,
            ),
    decreases t,
{
    if let Tree::Table(children) = t {
        assert(decreases_to!(children => children@));
        lemma_children_paths_extend(children@, prefix);
        assert(flat_of(t, prefix) == flat_children(children@, prefix));
        assert forall|k: int| 0 <= k < flat_of(t, prefix).len() implies extends(
            #[trigger] flat_of(t, prefix)[k].0,
            prefix,
        ) by {
            assert(flat_of(t, prefix)[k] == flat_children(children@, prefix)[k]);
        }
    } else {
        assert(prefix.subrange(0, prefix.len() as int) =~= prefix);
    }
}

/// Every path flattened from the children `cs` of a table reached by
/// `prefix` is `prefix` followed by the label of one of them, and more.
proof fn lemma_children_paths_extend<L>(cs: Seq<(String, Tree<L>)>, prefix: Seq<Seq<char>>)
    ensures
        forall|k: int|
            0 <= k < flat_children(cs, prefix).len() ==> {
                let q = (#[trigger] flat_children(cs, prefix)[k]).0;
                &&& q.len() > prefix.len()
                &&& q.subrange(0, prefix.len() as int) == prefix
                &&& exists|i: int| 0 <= i < cs.len() && q[prefix.len() as int] == (#[trigger] cs[i]).0@
            },
    decreases cs,
{
    if cs.len() > 0 {
        assert(decreases_to!(cs => cs.subrange(0, cs.len() - 1)));
        assert(decreases_to!(cs => cs[cs.len() - 1]));
        let front_cs = cs.drop_last();
        let last = cs.last();
        let inner = prefix.push(last.0@);
        lemma_children_paths_extend(front_cs, prefix);
        lemma_paths_extend(last.1, inner);
        let front = flat_children(front_cs, prefix);
        let back = flat_of(last.1, inner);
        assert forall|k: int| 0 <= k < flat_children(cs, prefix).len() implies {
            let q = (#[trigger] flat_children(cs, prefix)[k]).0;
            &&& q.len() > prefix.len()
            &&& q.subrange(0, prefix.len() as int) == prefix
            &&& exists|i: int| 0 <= i < cs.len() && q[prefix.len() as int] == (#[trigger] cs[i]).0@
        } by {
            if k < front.len() {
                let q = front[k].0;
                let i = choose|i: int|
                    0 <= i < front_cs.len() && q[prefix.len() as int] == (#[trigger] front_cs[i]).0@;
                assert(cs[i] == front_cs[i]);
            } else {
                let q = back[k - front.len()].0;
                assert(extends(back[k - front.len()].0, inner));
                assert(q.subrange(0, inner.len() as int) == inner);
                assert(q.subrange(0, prefix.len() as int) =~= inner.subrange(0, prefix.len() as int));
                assert(inner.subrange(0, prefix.len() as int) =~= prefix);
                assert(q[prefix.len() as int] == q.subrange(0, inner.len() as int)[prefix.len() as int]);
                assert(q[prefix.len() as int] == cs[cs.len() - 1].0@);
            }
        }
    }
}

/// Where each table's labels are distinct, the flattened paths of a node
/// are distinct.
proof fn lemma_paths_distinct<L>(t: Tree<L>, prefix: Seq<Seq<char>>)
    requires
        labels_distinct(t),
    ensures
        paths_of(flat_of(t, prefix)).no_duplicates(),
    decreases t,
{
    match t {
        Tree::Leaf(_) => {},
        Tree::Table(children) => {
            assert(decreases_to!(children => children@));
            lemma_children_paths_distinct(children@, prefix);
        },
    }
}

proof fn lemma_children_paths_distinct<L>(cs: Seq<(String, Tree<L>)>, prefix: Seq<Seq<char>>)
    requires
        children_distinct(cs),
    ensures
        paths_of(flat_children(cs, prefix)).no_duplicates(),
    decreases cs,
{
    if cs.len() > 0 {
        assert(decreases_to!(cs => cs.subrange(0, cs.len() - 1)));
        assert(decreases_to!(cs => cs[cs.len() - 1]));
        let front_cs = cs.drop_last();
        let last = cs.last();
        let inner = prefix.push(last.0@);
        lemma_children_paths_distinct(front_cs, prefix);
        lemma_paths_distinct(last.1, inner);
        lemma_children_paths_extend(front_cs, prefix);
        lemma_paths_extend(last.1, inner);
        let front = flat_children(front_cs, prefix);
        let back = flat_of(last.1, inner);
        let fp = paths_of(front);
        let bp = paths_of(back);
        assert forall|i: int, j: int| 0 <= i < fp.len() && 0 <= j < bp.len() implies fp[i]
            != bp[j] by {
            let q = front[i].0;
            let r = back[j].0;
            let c = choose|c: int|
                0 <= c < front_cs.len() && q[prefix.len() as int] == (#[trigger] front_cs[c]).0@;
            assert(cs[c] == front_cs[c]);
            assert(extends(back[j].0, inner));
            assert(r.subrange(0, inner.len() as int) == inner);
            assert(r[prefix.len() as int] == r.subrange(0, inner.len() as int)[prefix.len() as int]);
            assert(q[prefix.len() as int] != r[prefix.len() as int]);
        }
        lemma_no_dup_in_concat(fp, bp);
        assert(paths_of(front + back) =~= fp + bp);
    }
}

/// A tree whose tables each have distinct labels flattens to distinct key
/// paths: each path names exactly one leaf.
pub proof fn lemma_flattened_paths_distinct<L>(t: Tree<L>)
    requires
        labels_distinct(t),
    ensures
        paths_of(flattened(t)).no_duplicates(),
{
    lemma_paths_distinct(t, Seq::empty());
}

fn flatten_node<L>(t: Tree<L>, prefix: &mut Vec<String>) -> (r: Vec<(Key, L)>)
    ensures
        entries_view(r@) == flat_of(t, old(prefix).deep_view()),
        final(prefix)@ == old(prefix)@,
    decreases t,
{
    match t {
        Tree::Leaf(l) => {
            let mut out: Vec<(Key, L)> = Vec::new();
            out.push((copy_key(prefix), l));
            assert(entries_view(out@) =~= flat_of(t, old(prefix).deep_view()));
            out
        },
        Tree::Table(children) => {
            proof {
                assert(decreases_to!(children => children@));
            }
            flatten_children(children, prefix)
        },
    }
}

fn flatten_children<L>(cs: Vec<(String, Tree<L>)>, prefix: &mut Vec<String>) -> (r: Vec<(Key, L)>)
    ensures
        entries_view(r@) == flat_children(cs@, old(prefix).deep_view()),
        final(prefix)@ == old(prefix)@,
    decreases cs@,
{
    let ghost all = cs@;
    let mut cs = cs;
    match cs.pop() {
        None => {
            let out: Vec<(Key, L)> = Vec::new();
            assert(entries_view(out@) =~= Seq::empty());
            out
        },
        Some(last) => {
            let (label, child) = last;
            proof {
                assert(cs@ == all.subrange(0, all.len() - 1));
                assert(decreases_to!(all => all[all.len() - 1]));
            }
            let ghost start = prefix.deep_view();
            let mut front = flatten_children(cs, prefix);
            prefix.push(label);
            let ghost inner = prefix.deep_view();
            assert(inner =~= start.push(label@));
            let mut back = flatten_node(child, prefix);
            prefix.pop();
            let ghost front_view = entries_view(front@);
            let ghost back_view = entries_view(back@);
            front.append(&mut back);
            assert(entries_view(front@) =~= front_view + back_view);
            front
        },
    }
}

/// Flattens a document tree into its leaves, each under its key path: the
/// labels from the root down to it. A leaf at the root has the empty path,
/// and an empty table contributes nothing.
///
/// Where each table's labels are distinct, as in any parsed document, no two
/// entries share a key path.
pub fn flatten<L>(tree: Tree<L>) -> (r: Vec<(Key, L)>)
    ensures
        entries_view(r@) == flattened(tree),
        labels_distinct(tree) ==> paths_of(entries_view(r@)).no_duplicates(),
{
    let ghost source = tree;
    let mut prefix: Vec<String> = Vec::new();
    proof {
        assert(prefix.deep_view() =~= Seq::<Seq<char>>::empty());
        if labels_distinct(source) {
            lemma_flattened_paths_distinct(source);
        }
    }
    flatten_node(tree, &mut prefix)
}


/// A tree that is a single leaf flattens to one entry: that leaf, under the
/// empty path.
pub proof fn lemma_leaf_flattens_to_root<L>(leaf: L)
    ensures
        flattened(Tree::Leaf(leaf)) == seq![(Seq::<Seq<char>>::empty(), leaf)],
{
}

/// A table without children flattens to nothing.
pub proof fn lemma_empty_table_flattens_to_nothing<L>(children: Vec<(String, Tree<L>)>)
    requires
        children@.len() == 0,
    ensures
        flattened(Tree::Table(children)).len() == 0,
{
}


/// The key paths of a flattened document, in the order of its entries.
pub fn keys_of<L>(entries: &Vec<(Key, L)>) -> (r: Vec<Key>)
    ensures
        r.deep_view() == paths_of(entries_view(entries@)),
{
    let mut out: Vec<Key> = Vec::new();
    let mut i: usize = 0;
    while i < entries.len()
        invariant
            i <= entries.len(),
            out.deep_view() == paths_of(entries_view(entries@)).take(i as int),
        decreases entries.len() - i,
    {
        let copy = copy_key(&entries[i].0);
        let ghost before = out.deep_view();
        out.push(copy);
        assert(paths_of(entries_view(entries@))[i as int] == entries@[i as int].0.deep_view());
        assert(out.deep_view() =~= before.push(copy.deep_view()));
        assert(out.deep_view() =~= paths_of(entries_view(entries@)).take(i + 1));
        i += 1;
    }
    assert(paths_of(entries_view(entries@)).take(entries.len() as int) =~= paths_of(
        entries_view(entries@),
    ));
    out
}

/// Whether two key paths have the same labels in the same order.
pub fn same_key(a: &Key, b: &Key) -> (r: bool)
    ensures
        r == (a.deep_view() == b.deep_view()),
{
    if a.len() != b.len() {
        assert(a.deep_view().len() != b.deep_view().len());
        return false;
    }
    let mut i: usize = 0;
    while i < a.len()
        invariant
            a.len() == b.len(),
            i <= a.len(),
            forall|k: int| 0 <= k < i ==> a@[k]@ == b@[k]@,
        decreases a.len() - i,
    {
        if a[i] != b[i] {
            assert(a.deep_view()[i as int] != b.deep_view()[i as int]);
            return false;
        }
        i += 1;
    }
    assert(a.deep_view() =~= b.deep_view());
    true
}

/// The value under `key` in a flattened document: that of the first entry
/// with this key path, or `None` where no entry has it.
pub fn value_of<'a, L>(entries: &'a Vec<(Key, L)>, key: &Key) -> (r: Option<&'a L>)
    ensures
        match r {
            Some(v) => exists|i: int|
                0 <= i < entries@.len() && #[trigger] entries_view(entries@)[i] == (
                    key.deep_view(),
                    *v,
                ),
            None => !paths_of(entries_view(entries@)).contains(key.deep_view()),
        },
{
    let mut i: usize = 0;
    while i < entries.len()
        invariant
            i <= entries.len(),
            forall|k: int|
                0 <= k < i ==> (#[trigger] paths_of(entries_view(entries@))[k]) != key.deep_view(),
        decreases entries.len() - i,
    {
        if same_key(&entries[i].0, key) {
            assert(entries_view(entries@)[i as int] == (key.deep_view(), entries@[i as int].1));
            return Some(&entries[i].1);
        }
        i += 1;
    }
    None
}

} // verus!
