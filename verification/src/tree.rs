//! The reduced syntax tree of a pattern and the two measures the safety
//! heuristics read from it: star height and repetition count.
use vstd::prelude::*;

verus! {

/// The mathematical shape of a parsed pattern.
///
/// Only repetitions and grouping carry meaning for the heuristics; every other
/// atom collapses into `Char`, and sequences and alternatives into lists.
pub enum Tree {
    /// An empty branch, for example the right side of `a|`.
    Empty,
    /// A single consuming or zero-width atom that is neither a group nor a
    /// repetition: literals, escapes, classes, anchors, dots.
    Char,
    /// A sequence of at least two nodes, left to right.
    Concat(Seq<Tree>),
    /// At least two alternatives separated by `|`.
    Alt(Seq<Tree>),
    /// A grouping construct (capturing, non-capturing, named, lookaround).
    Group(Box<Tree>),
    /// A quantified atom.
    Repetition(Box<Tree>),
}

/// Star height: the deepest nesting of repetitions.
pub open spec fn star_height(t: Tree) -> nat
    decreases t,
{
    match t {
        Tree::Empty => 0,
        Tree::Char => 0,
        Tree::Concat(ts) => star_height_all(ts),
        Tree::Alt(ts) => star_height_all(ts),
        Tree::Group(b) => star_height(*b),
        Tree::Repetition(b) => 1 + star_height(*b),
    }
}

/// The largest star height among `ts` (0 for an empty list).
pub open spec fn star_height_all(ts: Seq<Tree>) -> nat
    decreases ts,
{
    if ts.len() == 0 {
        0
    } else {
        let a = star_height_all(ts.subrange(0, ts.len() - 1));
        let b = star_height(ts[ts.len() - 1]);
        if a < b {
            b
        } else {
            a
        }
    }
}

/// Number of repetition nodes anywhere in the tree.
pub open spec fn rep_count(t: Tree) -> nat
    decreases t,
{
    match t {
        Tree::Empty => 0,
        Tree::Char => 0,
        Tree::Concat(ts) => rep_count_all(ts),
        Tree::Alt(ts) => rep_count_all(ts),
        Tree::Group(b) => rep_count(*b),
        Tree::Repetition(b) => 1 + rep_count(*b),
    }
}

/// Total number of repetition nodes in the list `ts`.
pub open spec fn rep_count_all(ts: Seq<Tree>) -> nat
    decreases ts,
{
    if ts.len() == 0 {
        0
    } else {
        rep_count_all(ts.subrange(0, ts.len() - 1)) + rep_count(ts[ts.len() - 1])
    }
}

/// Group nesting depth of a tree.
pub open spec fn group_depth(t: Tree) -> nat
    decreases t,
{
    match t {
        Tree::Empty => 0,
        Tree::Char => 0,
        Tree::Concat(ts) => group_depth_all(ts),
        Tree::Alt(ts) => group_depth_all(ts),
        Tree::Group(b) => 1 + group_depth(*b),
        Tree::Repetition(b) => group_depth(*b),
    }
}

/// The largest group nesting depth among `ts`.
pub open spec fn group_depth_all(ts: Seq<Tree>) -> nat
    decreases ts,
{
    if ts.len() == 0 {
        0
    } else {
        let a = group_depth_all(ts.subrange(0, ts.len() - 1));
        let b = group_depth(ts[ts.len() - 1]);
        if a < b {
            b
        } else {
            a
        }
    }
}

/// Star height never exceeds the number of repetitions.
pub proof fn lemma_height_le_count(t: Tree)
    ensures
        star_height(t) <= rep_count(t),
    decreases t,
{
    match t {
        Tree::Concat(ts) => lemma_height_le_count_all(ts),
        Tree::Alt(ts) => lemma_height_le_count_all(ts),
        Tree::Group(b) => lemma_height_le_count(*b),
        Tree::Repetition(b) => lemma_height_le_count(*b),
        _ => {},
    }
}

/// List form of `lemma_height_le_count`.
pub proof fn lemma_height_le_count_all(ts: Seq<Tree>)
    ensures
        star_height_all(ts) <= rep_count_all(ts),
    decreases ts,
{
    if ts.len() > 0 {
        lemma_height_le_count_all(ts.subrange(0, ts.len() - 1));
        lemma_height_le_count(ts[ts.len() - 1]);
    }
}

/// The executable syntax tree built by the parser.
pub enum Node {
    /// An empty branch.
    Empty,
    /// Any atom that is neither a group nor a repetition.
    Char,
    /// A sequence of nodes, left to right.
    Concat(Vec<Node>),
    /// A set of alternatives separated by `|`.
    Alt(Vec<Node>),
    /// A grouping construct.
    Group(Box<Node>),
    /// A quantified atom, carrying the atom it repeats.
    Repetition(Box<Node>),
}

/// The mathematical tree an executable node stands for.
pub open spec fn tree_of(n: Node) -> Tree
    decreases n,
{
    match n {
        Node::Empty => Tree::Empty,
        Node::Char => Tree::Char,
        Node::Concat(v) => Tree::Concat(trees_of(v@)),
        Node::Alt(v) => Tree::Alt(trees_of(v@)),
        Node::Group(b) => Tree::Group(Box::new(tree_of(*b))),
        Node::Repetition(b) => Tree::Repetition(Box::new(tree_of(*b))),
    }
}

/// The trees of a list of nodes, element by element.
pub open spec fn trees_of(ns: Seq<Node>) -> Seq<Tree>
    decreases ns,
{
    if ns.len() == 0 {
        Seq::empty()
    } else {
        trees_of(ns.subrange(0, ns.len() - 1)).push(tree_of(ns[ns.len() - 1]))
    }
}

/// Appending a node appends its tree.
pub proof fn lemma_trees_of_push(ns: Seq<Node>, n: Node)
    ensures
        trees_of(ns.push(n)) == trees_of(ns).push(tree_of(n)),
{
    assert(ns.push(n).subrange(0, ns.len() as int) =~= ns);
}

/// The trees of a list correspond element by element to its nodes.
pub proof fn lemma_trees_of_index(ns: Seq<Node>)
    ensures
        trees_of(ns).len() == ns.len(),
        forall|i: int| 0 <= i < ns.len() ==> #[trigger] trees_of(ns)[i] == tree_of(ns[i]),
    decreases ns.len(),
{
    if ns.len() > 0 {
        lemma_trees_of_index(ns.subrange(0, ns.len() - 1));
    }
}

/// A prefix of a list holds no more repetitions than the list.
pub proof fn lemma_rep_count_prefix(ts: Seq<Tree>, i: int)
    requires
        0 <= i <= ts.len(),
    ensures
        rep_count_all(ts.subrange(0, i)) <= rep_count_all(ts),
    decreases ts.len(),
{
    if i < ts.len() {
        let init = ts.subrange(0, ts.len() - 1);
        lemma_rep_count_prefix(init, i);
        assert(init.subrange(0, i) =~= ts.subrange(0, i));
    } else {
        assert(ts.subrange(0, i) =~= ts);
    }
}

/// Each element's star height is at most the list's.
pub proof fn lemma_star_height_elem(ts: Seq<Tree>, i: int)
    requires
        0 <= i < ts.len(),
    ensures
        star_height(ts[i]) <= star_height_all(ts),
    decreases ts.len(),
{
    if i < ts.len() - 1 {
        let init = ts.subrange(0, ts.len() - 1);
        lemma_star_height_elem(init, i);
    }
}

/// A non-empty list's star height is that of one of its elements.
pub proof fn lemma_star_height_attained(ts: Seq<Tree>)
    requires
        ts.len() > 0,
    ensures
        exists|i: int| 0 <= i < ts.len() && #[trigger] star_height(ts[i]) == star_height_all(ts),
    decreases ts.len(),
{
    let last = ts.len() - 1;
    let init = ts.subrange(0, last);
    if star_height_all(init) < star_height(ts[last]) || init.len() == 0 {
        assert(star_height(ts[last]) == star_height_all(ts));
    } else {
        lemma_star_height_attained(init);
        let i = choose|i: int| 0 <= i < init.len() && #[trigger] star_height(init[i]) == star_height_all(init);
        assert(init[i] == ts[i]);
        assert(star_height(ts[i]) == star_height_all(ts));
    }
}

/// Extending a list by one element adds its repetitions and raises the height
/// to the element's where it is larger.
pub proof fn lemma_all_push(ts: Seq<Tree>, t: Tree)
    ensures
        rep_count_all(ts.push(t)) == rep_count_all(ts) + rep_count(t),
        star_height_all(ts.push(t)) == (if star_height_all(ts) < star_height(t) {
            star_height(t)
        } else {
            star_height_all(ts)
        }),
{
    assert(ts.push(t).subrange(0, ts.len() as int) =~= ts);
}

/// Extending a list by one element raises its group depth to the element's
/// where that is larger.
pub proof fn lemma_group_depth_push(ts: Seq<Tree>, t: Tree)
    ensures
        group_depth_all(ts.push(t)) == (if group_depth_all(ts) < group_depth(t) {
            group_depth(t)
        } else {
            group_depth_all(ts)
        }),
{
    assert(ts.push(t).subrange(0, ts.len() as int) =~= ts);
}

/// The group depth of a one-element list is that of its element.
pub proof fn lemma_group_depth_single(t: Tree)
    ensures
        group_depth_all(seq![t]) == group_depth(t),
{
    assert(seq![t].subrange(0, 0) =~= Seq::<Tree>::empty());
    assert(group_depth_all(Seq::<Tree>::empty()) == 0);
    assert(seq![t][0] == t);
}

/// A tree has star height 0 exactly when it holds no repetition.
pub proof fn lemma_height_zero_iff_no_repetition(t: Tree)
    ensures
        star_height(t) <= rep_count(t),
        (star_height(t) == 0) == (rep_count(t) == 0),
    decreases t,
{
    lemma_height_le_count(t);
    match t {
        Tree::Concat(ts) => lemma_height_zero_iff_no_repetition_all(ts),
        Tree::Alt(ts) => lemma_height_zero_iff_no_repetition_all(ts),
        Tree::Group(b) => lemma_height_zero_iff_no_repetition(*b),
        Tree::Repetition(b) => lemma_height_zero_iff_no_repetition(*b),
        _ => {},
    }
}

/// List form of `lemma_height_zero_iff_no_repetition`.
pub proof fn lemma_height_zero_iff_no_repetition_all(ts: Seq<Tree>)
    ensures
        (star_height_all(ts) == 0) == (rep_count_all(ts) == 0),
    decreases ts,
{
    if ts.len() > 0 {
        lemma_height_zero_iff_no_repetition_all(ts.subrange(0, ts.len() - 1));
        lemma_height_zero_iff_no_repetition(ts[ts.len() - 1]);
    }
}

} // verus!
