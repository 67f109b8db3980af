//! Static heuristic detector for catastrophic-backtracking (ReDoS) regular
//! expressions written in JavaScript syntax.
//!
//! [`safe_regex`] parses a pattern and applies two syntactic rules; it never
//! runs the pattern. A pattern is unsafe when its star height (the deepest
//! nesting of repetitions, counted through any groups) exceeds 1, when it holds
//! more than `limit` repetitions (default 25), or when it is not a valid
//! regular expression. Everything else is safe. Validity follows JavaScript's
//! `new RegExp(pattern)` without flags, including named-group mode (where
//! `\k<name>` must name a group of the pattern), except that groups nest at
//! most 256 deep and a group name may be used once per pattern.
//!
//! A repetition is any atom followed by `*`, `+`, `?`, `{n}`, `{n,}` or
//! `{n,m}`, greedy or lazy; the bounds do not matter, so `{0}` counts like `*`.
//!
//! Modules: `grammar` states the accepted language and the tree of each
//! accepted pattern; `parser` computes it; `tree` defines the two measures;
//! `ident` holds the group-name rules; `embed` and `laws` prove properties
//! that hold for every pattern.
use vstd::prelude::*;

pub mod embed;
pub mod grammar;
pub mod ident;
pub mod laws;
pub mod parser;
pub mod tree;

use crate::grammar::spec_parse;
use crate::parser::parse;
use crate::tree::{
    lemma_all_push, lemma_height_le_count, lemma_height_zero_iff_no_repetition,
    lemma_rep_count_prefix, lemma_star_height_elem,
    lemma_trees_of_index, rep_count, rep_count_all, star_height, star_height_all, tree_of,
    trees_of, Node, Tree,
};

verus! {

/// Default repetition limit.
pub const DEFAULT_LIMIT: usize = 25;

/// Tuning for the safety check: `limit` bounds the total number of repetition
/// nodes a pattern may hold.
#[derive(Debug, Clone, Copy, PartialEq, Eq, Hash, Structural)]
pub struct Options {
    /// Maximum allowed total repetitions. A pattern with strictly more than
    /// this many repetition nodes is unsafe.
    pub limit: usize,
}

impl Options {
    /// Build options with an explicit repetition limit.
    pub fn new(limit: usize) -> (res: Self)
        ensures
            res.limit == limit,
    {
        Options { limit }
    }
}

impl Default for Options {
    fn default() -> (res: Self)
        ensures
            res.limit == DEFAULT_LIMIT,
    {
        Options { limit: DEFAULT_LIMIT }
    }
}

/// Whether a pattern is safe under `limit`: it is a valid regular expression
/// whose tree has star height at most 1 and at most `limit` repetitions.
pub open spec fn spec_safe_regex(pattern: Seq<char>, limit: nat) -> bool {
    match spec_parse(pattern) {
        Some(t) => star_height(t) <= 1 && rep_count(t) <= limit,
        None => false,
    }
}

/// Report whether a regular expression looks safe from catastrophic
/// backtracking: `true` when the pattern parses, its star height is at most 1,
/// and it holds at most `opts.limit` repetitions.
pub fn safe_regex(re: &str, opts: Options) -> (r: bool)
    ensures
        r == spec_safe_regex(re@, opts.limit as nat),
{
    let ast = match parse(re) {
        Ok(ast) => ast,
        Err(_) => return false,
    };
    proof {
        lemma_height_le_count(tree_of(ast));
    }
    let mut measure = Measure { max_depth: 0, total: 0 };
    measure.walk(&ast, 0);
    if measure.max_depth > 1 {
        return false;
    }
    if measure.total > opts.limit {
        return false;
    }
    true
}

/// `safe_regex` with the default options.
pub fn is_safe(re: &str) -> (r: bool)
    ensures
        r == spec_safe_regex(re@, DEFAULT_LIMIT as nat),
{
    safe_regex(re, Options::default())
}

/// The deepest nesting a walk has seen after visiting, at `depth`, a tree of
/// star height `h`, when it had seen `seen` before.
pub open spec fn reach(seen: nat, depth: nat, h: nat) -> nat {
    if h > 0 && depth + h > seen {
        depth + h
    } else {
        seen
    }
}

/// Accumulator for the single depth-first walk over the tree.
struct Measure {
    /// Deepest observed nesting of repetition nodes (the star height).
    max_depth: usize,
    /// Total count of repetition nodes anywhere in the tree.
    total: usize,
}

impl Measure {
    /// Visit `node` carrying the current repetition nesting `depth`: entering
    /// a repetition raises the depth and the total.
    fn walk(&mut self, node: &Node, depth: usize)
        requires
            old(self).total + rep_count(tree_of(*node)) <= usize::MAX,
            depth + star_height(tree_of(*node)) <= usize::MAX,
        ensures
            final(self).total == old(self).total + rep_count(tree_of(*node)),
            final(self).max_depth == reach(
                old(self).max_depth as nat,
                depth as nat,
                star_height(tree_of(*node)),
            ),
        decreases node,
    {
        match node {
            Node::Empty => {},
            Node::Char => {},
            Node::Concat(parts) | Node::Alt(parts) => {
                let ghost ts = trees_of(parts@);
                assert(*node == Node::Concat(*parts) || *node == Node::Alt(*parts));
                let ghost total0 = self.total as nat;
                let ghost max0 = self.max_depth as nat;
                proof {
                    lemma_trees_of_index(parts@);
                    assert(ts.subrange(0, 0) =~= Seq::<Tree>::empty());
                }
                let mut i: usize = 0;
                while i < parts.len()
                    invariant
                        *node == Node::Concat(*parts) || *node == Node::Alt(*parts),
                        ts == trees_of(parts@),
                        ts.len() == parts.len(),
                        forall|j: int|
                            0 <= j < parts.len() ==> #[trigger] ts[j] == tree_of(parts@[j]),
                        i <= parts.len(),
                        total0 + rep_count_all(ts) <= usize::MAX,
                        depth + star_height_all(ts) <= usize::MAX,
                        self.total == total0 + rep_count_all(ts.subrange(0, i as int)),
                        self.max_depth == reach(
                            max0,
                            depth as nat,
                            star_height_all(ts.subrange(0, i as int)),
                        ),
                    decreases parts.len() - i,
                {
                    proof {
                        lemma_all_push(ts.subrange(0, i as int), ts[i as int]);
                        assert(ts.subrange(0, i as int).push(ts[i as int]) =~= ts.subrange(
                            0,
                            i + 1,
                        ));
                        lemma_rep_count_prefix(ts, i + 1);
                        lemma_star_height_elem(ts, i as int);
                        if *node is Concat {
                            assert(decreases_to!(*node => (*node)->Concat_0));
                        } else {
                            assert(decreases_to!(*node => (*node)->Alt_0));
                        }
                        assert(decreases_to!(*parts => parts@));
                    }
                    self.walk(&parts[i], depth);
                    i = i + 1;
                }
                proof {
                    assert(ts.subrange(0, parts.len() as int) =~= ts);
                }
            },
            Node::Group(inner) => {
                self.walk(inner, depth);
            },
            Node::Repetition(inner) => {
                self.total = self.total + 1;
                let next = depth + 1;
                if next > self.max_depth {
                    self.max_depth = next;
                }
                self.walk(inner, next);
            },
        }
    }
}

/// A walk from a fresh measure over any tree sees a depth no larger than its
/// total, and a depth of 0 exactly when the total is 0.
pub proof fn lemma_fresh_walk_measures(t: Tree)
    ensures
        reach(0, 0, star_height(t)) <= rep_count(t),
        (reach(0, 0, star_height(t)) == 0) == (rep_count(t) == 0),
{
    lemma_height_zero_iff_no_repetition(t);
}

} // verus!
