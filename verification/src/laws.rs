//! Properties of the safety check that hold for every pattern.
use vstd::prelude::*;

use crate::grammar::{
    alt_of, alternative, alternative_rest, atom, concat_of, disjunction, disjunction_rest,
    group, group_body, refs_of, spec_group_names, spec_parse, spec_reading, term,
    MAX_GROUP_NESTING,
};
use crate::embed::{embeds, lemma_char_at, lemma_disjunction, lemma_group_parts, shifted};
use crate::grammar::{
    brace_quant, char_at, class_end, class_escape, decimal, digit_run, is_digit, class_items, control_escape, escape_atom, group_prefix,
    is_octal, name_escape, name_scan, peek_quant, quant_end, ranges_ok, units_of, AtomParsed, ClassAtom, Parsed, Quant,
};
use crate::ident::spec_is_group_name;
use crate::spec_safe_regex;
use crate::tree::{
    group_depth, group_depth_all, lemma_all_push, lemma_group_depth_push, lemma_group_depth_single,
    lemma_star_height_attained, lemma_star_height_elem, rep_count, rep_count_all, star_height,
    star_height_all,
    Tree,
};

verus! {

/// Raising the limit never turns a safe pattern unsafe: the star-height rule
/// does not read the limit, and the count rule only relaxes.
pub proof fn lemma_safe_monotonic_in_limit(pattern: Seq<char>, low: nat, high: nat)
    requires
        low <= high,
        spec_safe_regex(pattern, low),
    ensures
        spec_safe_regex(pattern, high),
{
}

/// Every accepted pattern's groups nest at most `MAX_GROUP_NESTING` deep, so
/// any walk over its tree sees bounded depth.
pub proof fn lemma_accepted_group_depth_bounded(pattern: Seq<char>)
    requires
        spec_parse(pattern) is Some,
    ensures
        group_depth(spec_parse(pattern)->0) <= MAX_GROUP_NESTING,
{
    lemma_depth_disjunction(pattern, 0, 0, refs_of(spec_group_names(pattern)->0), seq![]);
}

proof fn lemma_depth_alt_of(bs: Seq<Tree>)
    requires
        bs.len() >= 1,
    ensures
        group_depth(alt_of(bs)) <= group_depth_all(bs),
{
    if bs.len() == 1 {
        assert(bs =~= seq![bs[0]]);
        lemma_group_depth_single(bs[0]);
    }
}

proof fn lemma_depth_concat_of(ts: Seq<Tree>)
    ensures
        group_depth(concat_of(ts)) <= group_depth_all(ts),
{
    if ts.len() == 1 {
        assert(ts =~= seq![ts[0]]);
        lemma_group_depth_single(ts[0]);
    }
}

proof fn lemma_depth_disjunction(
    s: Seq<char>,
    p: int,
    d: nat,
    refs: Option<Seq<Seq<char>>>,
    names: Seq<Seq<char>>,
)
    requires
        d <= MAX_GROUP_NESTING,
    ensures
        disjunction(s, p, d, refs, names) matches Some(r) ==> group_depth(r.tree) + d
            <= MAX_GROUP_NESTING,
    decreases s.len() - p, 6int,
{
    if 0 <= p <= s.len() {
        lemma_depth_alternative(s, p, d, refs, names);
        if let Some(a) = alternative(s, p, d, refs, names) {
            if p <= a.end <= s.len() {
                lemma_group_depth_single(a.tree);
                lemma_depth_disjunction_rest(s, a.end, d, refs, a.names, seq![a.tree]);
            }
        }
    }
}

proof fn lemma_depth_disjunction_rest(
    s: Seq<char>,
    p: int,
    d: nat,
    refs: Option<Seq<Seq<char>>>,
    names: Seq<Seq<char>>,
    branches: Seq<Tree>,
)
    requires
        d <= MAX_GROUP_NESTING,
        branches.len() >= 1,
        group_depth_all(branches) + d <= MAX_GROUP_NESTING,
    ensures
        disjunction_rest(s, p, d, refs, names, branches) matches Some(r) ==> group_depth(r.tree) + d
            <= MAX_GROUP_NESTING,
    decreases s.len() - p, 5int,
{
    if 0 <= p <= s.len() {
        if s.len() > p && s[p] == '|' {
            lemma_depth_alternative(s, p + 1, d, refs, names);
            if let Some(a) = alternative(s, p + 1, d, refs, names) {
                if p + 1 <= a.end <= s.len() {
                    lemma_group_depth_push(branches, a.tree);
                    lemma_depth_disjunction_rest(s, a.end, d, refs, a.names, branches.push(a.tree));
                }
            }
        } else {
            lemma_depth_alt_of(branches);
        }
    }
}

proof fn lemma_depth_alternative(
    s: Seq<char>,
    p: int,
    d: nat,
    refs: Option<Seq<Seq<char>>>,
    names: Seq<Seq<char>>,
)
    requires
        d <= MAX_GROUP_NESTING,
    ensures
        alternative(s, p, d, refs, names) matches Some(r) ==> group_depth(r.tree) + d
            <= MAX_GROUP_NESTING,
    decreases s.len() - p, 4int,
{
    if 0 <= p <= s.len() {
        lemma_depth_alternative_rest(s, p, d, refs, names, seq![]);
    }
}

proof fn lemma_depth_alternative_rest(
    s: Seq<char>,
    p: int,
    d: nat,
    refs: Option<Seq<Seq<char>>>,
    names: Seq<Seq<char>>,
    terms: Seq<Tree>,
)
    requires
        d <= MAX_GROUP_NESTING,
        group_depth_all(terms) + d <= MAX_GROUP_NESTING,
    ensures
        alternative_rest(s, p, d, refs, names, terms) matches Some(r) ==> group_depth(r.tree) + d
            <= MAX_GROUP_NESTING,
    decreases s.len() - p, 3int,
{
    if 0 <= p <= s.len() {
        if p == s.len() || s[p] == '|' || s[p] == ')' {
            lemma_depth_concat_of(terms);
        } else {
            lemma_depth_term(s, p, d, refs, names);
            if let Some(t) = term(s, p, d, refs, names) {
                if p < t.end <= s.len() {
                    lemma_group_depth_push(terms, t.tree);
                    lemma_depth_alternative_rest(s, t.end, d, refs, t.names, terms.push(t.tree));
                }
            }
        }
    }
}

proof fn lemma_depth_term(
    s: Seq<char>,
    p: int,
    d: nat,
    refs: Option<Seq<Seq<char>>>,
    names: Seq<Seq<char>>,
)
    requires
        d <= MAX_GROUP_NESTING,
    ensures
        term(s, p, d, refs, names) matches Some(r) ==> group_depth(r.tree) + d <= MAX_GROUP_NESTING,
    decreases s.len() - p, 2int,
{
    if 0 <= p <= s.len() {
        lemma_depth_atom(s, p, d, refs, names);
    }
}

proof fn lemma_depth_atom(
    s: Seq<char>,
    p: int,
    d: nat,
    refs: Option<Seq<Seq<char>>>,
    names: Seq<Seq<char>>,
)
    requires
        d <= MAX_GROUP_NESTING,
    ensures
        atom(s, p, d, refs, names) matches Some(r) ==> group_depth(r.tree) + d <= MAX_GROUP_NESTING,
    decreases s.len() - p, 1int,
{
    if 0 <= p < s.len() && s[p] == '(' {
        lemma_depth_group(s, p, d, refs, names);
    }
}

proof fn lemma_depth_group(
    s: Seq<char>,
    p: int,
    d: nat,
    refs: Option<Seq<Seq<char>>>,
    names: Seq<Seq<char>>,
)
    requires
        d <= MAX_GROUP_NESTING,
    ensures
        group(s, p, d, refs, names) matches Some(r) ==> group_depth(r.tree) + d
            <= MAX_GROUP_NESTING,
    decreases s.len() - p, 0int,
{
    if 0 <= p < s.len() && d < MAX_GROUP_NESTING {
        lemma_depth_group_body(s, p + 1, d + 1, refs, names);
    }
}

proof fn lemma_depth_group_body(
    s: Seq<char>,
    q: int,
    d: nat,
    refs: Option<Seq<Seq<char>>>,
    names: Seq<Seq<char>>,
)
    requires
        1 <= d <= MAX_GROUP_NESTING,
    ensures
        group_body(s, q, d, refs, names) matches Some(r) ==> group_depth(r.tree) + d
            <= MAX_GROUP_NESTING + 1,
    decreases s.len() - q, 7int,
{
    if 0 <= q <= s.len() {
        if let Some((b, _, names2)) = crate::grammar::group_prefix(s, q, names) {
            if q <= b <= s.len() {
                lemma_depth_disjunction(s, b, d, refs, names2);
            }
        }
    }
}

/// The pattern `(p)*`: `p` wrapped in a group and starred.
pub open spec fn starred_group(p: Seq<char>) -> Seq<char> {
    seq!['('] + p + seq![')', '*']
}

/// A valid pattern does not start with a quantifier symbol.
proof fn lemma_no_leading_quantifier(s: Seq<char>, refs: Option<Seq<Seq<char>>>)
    requires
        disjunction(s, 0, 0, refs, seq![]) is Some,
        s.len() > 0,
    ensures
        s[0] != '?' && s[0] != '*' && s[0] != '+',
{
    if s[0] == '?' || s[0] == '*' || s[0] == '+' {
        assert(atom(s, 0, 0, refs, seq![]) is None);
        assert(term(s, 0, 0, refs, seq![]) is None);
        assert(alternative_rest(s, 0, 0, refs, seq![], seq![]) is None);
        assert(alternative(s, 0, 0, refs, seq![]) is None);
    }
}

/// The kinds of group, told apart by what follows the `(`.
pub enum GroupKind {
    /// `(`: a capturing group.
    Capturing,
    /// `(?:`: a non-capturing group.
    NonCapturing,
    /// `(?=`: a lookahead.
    Lookahead,
    /// `(?!`: a negative lookahead.
    NegativeLookahead,
    /// `(?<=`: a lookbehind.
    Lookbehind,
    /// `(?<!`: a negative lookbehind.
    NegativeLookbehind,
}

/// The text that opens a group of the given kind.
pub open spec fn group_opener(kind: GroupKind) -> Seq<char> {
    match kind {
        GroupKind::Capturing => seq!['('],
        GroupKind::NonCapturing => seq!['(', '?', ':'],
        GroupKind::Lookahead => seq!['(', '?', '='],
        GroupKind::NegativeLookahead => seq!['(', '?', '!'],
        GroupKind::Lookbehind => seq!['(', '?', '<', '='],
        GroupKind::NegativeLookbehind => seq!['(', '?', '<', '!'],
    }
}

/// A lookbehind of either polarity.
pub open spec fn is_lookbehind(kind: GroupKind) -> bool {
    kind is Lookbehind || kind is NegativeLookbehind
}

/// One of the quantifier symbols `*`, `+`, `?`.
pub open spec fn is_quantifier_symbol(c: char) -> bool {
    c == '*' || c == '+' || c == '?'
}

/// The pattern `p` wrapped in a group of the given kind and followed by the
/// character `c`, such as `(?:p)+` or `(p)|`.
#[verifier::opaque]
pub open spec fn group_then(kind: GroupKind, p: Seq<char>, c: char) -> Seq<char> {
    group_opener(kind) + p + seq![')', c]
}

/// Every opener is a `(` and at most three characters more.
proof fn lemma_opener_len(kind: GroupKind)
    ensures
        1 <= group_opener(kind).len() <= 4,
        group_opener(kind)[0] == '(',
{
}

/// `t` starts with the opener of a group of the given kind.
#[verifier::opaque]
spec fn opened_by(t: Seq<char>, kind: GroupKind) -> bool {
    forall|j: int| 0 <= j < group_opener(kind).len() ==> #[trigger] t[j] == group_opener(kind)[j]
}

/// The prefix of a group opened by `group_opener(kind)` at the start of `t`
/// ends where the opener does; only a lookbehind is unquantifiable.
proof fn lemma_opener_prefix(kind: GroupKind, t: Seq<char>)
    requires
        t.len() > group_opener(kind).len(),
        opened_by(t, kind),
        kind is Capturing ==> t[1] != '?',
    ensures
        group_prefix(t, 1, seq![]) == Some(
            (group_opener(kind).len() as int, !is_lookbehind(kind), Seq::<Seq<char>>::empty()),
        ),
{
    reveal(group_prefix);
    reveal(opened_by);
    let o = group_opener(kind);
    match kind {
        GroupKind::Capturing => {},
        GroupKind::NonCapturing => {
            assert(t[1] == o[1] && t[2] == o[2]);
        },
        GroupKind::Lookahead => {
            assert(t[1] == o[1] && t[2] == o[2]);
        },
        GroupKind::NegativeLookahead => {
            assert(t[1] == o[1] && t[2] == o[2]);
        },
        GroupKind::Lookbehind => {
            assert(t[1] == o[1] && t[2] == o[2] && t[3] == o[3]);
        },
        GroupKind::NegativeLookbehind => {
            assert(t[1] == o[1] && t[2] == o[2] && t[3] == o[3]);
        },
    }
}

/// Where each part of `group_then(kind, p, c)` stands.
proof fn lemma_group_then_chars(kind: GroupKind, p: Seq<char>, qc: char)
    ensures
        group_then(kind, p, qc).len() == group_opener(kind).len() + p.len() + 2,
        opened_by(group_then(kind, p, qc), kind),
        embeds(p, group_then(kind, p, qc), group_opener(kind).len() as int),
        group_then(kind, p, qc)[group_opener(kind).len() + p.len() + 1int] == qc,
{
    reveal(group_then);
    reveal(opened_by);
    let o = group_opener(kind);
    let t = group_then(kind, p, qc);
    let n = p.len() as int;
    let k = o.len() as int;
    assert forall|j: int| 0 <= j < k implies #[trigger] t[j] == o[j] by {
        assert(t[j] == (o + p)[j]);
    }
    assert forall|j: int| 0 <= j < p.len() implies #[trigger] t[j + k] == p[j] by {
        assert(t[j + k] == (o + p)[j + k]);
    }
    assert(t[n + k] == ')');
}

/// The reading of `p` carries over to `t`, where `p` stands at `k` before a
/// `)`, one group deeper.
proof fn lemma_body_shift(p: Seq<char>, t: Seq<char>, k: int, refs: Option<Seq<Seq<char>>>)
    requires
        disjunction(p, 0, 0, refs, seq![]) is Some,
        group_depth(disjunction(p, 0, 0, refs, seq![])->0.tree) < MAX_GROUP_NESTING,
        disjunction(p, 0, 0, refs, seq![])->0.end == p.len(),
        embeds(p, t, k),
    ensures
        disjunction(t, k, 1, refs, seq![]) == Some(
            shifted(disjunction(p, 0, 0, refs, seq![])->0, k),
        ),
        char_at(t, disjunction(p, 0, 0, refs, seq![])->0.end + k) == Some(')'),
{
    lemma_disjunction(p, t, k, 1, 0, 0, refs, seq![]);
    assert(t[p.len() + k] == ')');
}

/// The prefix of a group opened by `group_opener(kind)` before `p` ends where
/// the opener does.
proof fn lemma_opener_before(kind: GroupKind, p: Seq<char>, t: Seq<char>, refs: Option<Seq<Seq<char>>>)
    requires
        disjunction(p, 0, 0, refs, seq![]) is Some,
        opened_by(t, kind),
        embeds(p, t, group_opener(kind).len() as int),
    ensures
        group_prefix(t, 1, seq![]) == Some(
            (group_opener(kind).len() as int, !is_lookbehind(kind), Seq::<Seq<char>>::empty()),
        ),
{
    let k = group_opener(kind).len() as int;
    lemma_char_at(p, t, k, 0);
    if kind is Capturing && p.len() > 0 {
        // The capturing group's body starts right after `(`, with `p`'s
        // first character, which is no `?`.
        lemma_no_leading_quantifier(p, refs);
    }
    lemma_opener_prefix(kind, t);
}

/// A group opened by `group_opener(kind)` at the start of `t`, around `p`,
/// reads as a group around the same reading of `p`, quantifiable unless it is
/// a lookbehind.
proof fn lemma_leading_group_atom(
    kind: GroupKind,
    p: Seq<char>,
    t: Seq<char>,
    refs: Option<Seq<Seq<char>>>,
)
    requires
        disjunction(p, 0, 0, refs, seq![]) is Some,
        group_depth(disjunction(p, 0, 0, refs, seq![])->0.tree) < MAX_GROUP_NESTING,
        opened_by(t, kind),
        disjunction(p, 0, 0, refs, seq![])->0.end == p.len(),
        embeds(p, t, group_opener(kind).len() as int),
    ensures
        atom(t, 0, 0, refs, seq![]) == Some(
            AtomParsed {
                tree: Tree::Group(Box::new(disjunction(p, 0, 0, refs, seq![])->0.tree)),
                quantifiable: !is_lookbehind(kind),
                end: disjunction(p, 0, 0, refs, seq![])->0.end + group_opener(kind).len() + 1,
                names: disjunction(p, 0, 0, refs, seq![])->0.names,
            },
        ),
{
    let k = group_opener(kind).len() as int;
    let r = disjunction(p, 0, 0, refs, seq![])->0;
    lemma_opener_len(kind);
    lemma_body_shift(p, t, k, refs);
    lemma_opener_before(kind, p, t, refs);
    lemma_group_parts(t, 0, 0, refs, seq![], k, !is_lookbehind(kind), seq![], 1, shifted(r, k));
    assert(t[0] == '(') by {
        reveal(opened_by);
    }
    lemma_atom_of_group(t, refs, group(t, 0, 0, refs, seq![])->0);
}

/// At a `(`, the atom is the group there.
proof fn lemma_atom_of_group(t: Seq<char>, refs: Option<Seq<Seq<char>>>, a: AtomParsed)
    requires
        t.len() > 0,
        t[0] == '(',
        group(t, 0, 0, refs, seq![]) == Some(a),
    ensures
        atom(t, 0, 0, refs, seq![]) == Some(a),
{
}

/// A quantified group reads as the repetition of a group around the same
/// reading of `p`, except a lookbehind, which may not be quantified.
proof fn lemma_quantified_reading(
    kind: GroupKind,
    p: Seq<char>,
    qc: char,
    refs: Option<Seq<Seq<char>>>,
)
    requires
        spec_reading(p, refs) is Some,
        group_depth(spec_reading(p, refs)->0.tree) < MAX_GROUP_NESTING,
        is_quantifier_symbol(qc),
    ensures
        spec_reading(group_then(kind, p, qc), refs) == (if is_lookbehind(kind) {
            None
        } else {
            Some(
                Parsed {
                    tree: Tree::Repetition(
                        Box::new(Tree::Group(Box::new(spec_reading(p, refs)->0.tree))),
                    ),
                    end: group_then(kind, p, qc).len() as int,
                    names: spec_reading(p, refs)->0.names,
                },
            )
        }),
{
    let t = group_then(kind, p, qc);
    let n = p.len() as int;
    let k = group_opener(kind).len() as int;
    let r = disjunction(p, 0, 0, refs, seq![])->0;
    lemma_group_then_chars(kind, p, qc);
    lemma_leading_group_atom(kind, p, t, refs);
    let rep = Tree::Repetition(Box::new(Tree::Group(Box::new(r.tree))));
    let e = n + k + 2;
    assert(peek_quant(t, n + k + 1) == Quant::Symbol);
    if !is_lookbehind(kind) {
        assert(quant_end(t, n + k + 1) == Some(e));
        assert(peek_quant(t, e) == Quant::Absent);
        assert(term(t, 0, 0, refs, seq![]) == Some(Parsed { tree: rep, end: e, names: r.names }));
        assert(alternative_rest(t, e, 0, refs, r.names, seq![rep]) == Some(
            Parsed { tree: rep, end: e, names: r.names },
        ));
        assert(alternative_rest(t, 0, 0, refs, seq![], seq![]) == Some(
            Parsed { tree: rep, end: e, names: r.names },
        )) by {
            assert(Seq::<Tree>::empty().push(rep) =~= seq![rep]);
        }
        assert(alternative(t, 0, 0, refs, seq![]) == Some(
            Parsed { tree: rep, end: e, names: r.names },
        ));
        assert(disjunction_rest(t, e, 0, refs, r.names, seq![rep]) == Some(
            Parsed { tree: rep, end: e, names: r.names },
        ));
    } else {
        assert(term(t, 0, 0, refs, seq![]) is None);
        assert(alternative_rest(t, 0, 0, refs, seq![], seq![]) is None);
        assert(alternative(t, 0, 0, refs, seq![]) is None);
    }
}

/// The groups of `p` nest at most one level below `MAX_GROUP_NESTING`, in
/// both readings of `p` (the one that collects group names and the one that
/// gives its tree).
pub open spec fn leaves_spare_nesting(p: Seq<char>) -> bool {
    &&& group_depth(spec_reading(p, None)->0.tree) < MAX_GROUP_NESTING
    &&& group_depth(spec_parse(p)->0) < MAX_GROUP_NESTING
}

/// A group of any kind but a lookbehind may be quantified: for a valid `p`
/// with a spare level of group nesting, `(p)*`, `(?:p)+`, `(?=p)?`, `(?!p)*`
/// and the like read as the repetition of a group around `p`'s tree. A
/// quantified lookbehind, such as `(?<=p)*`, is refused.
pub proof fn lemma_quantified_group(kind: GroupKind, p: Seq<char>, q: char)
    requires
        spec_parse(p) is Some,
        leaves_spare_nesting(p),
        is_quantifier_symbol(q),
    ensures
        spec_parse(group_then(kind, p, q)) == (if is_lookbehind(kind) {
            None
        } else {
            Some(Tree::Repetition(Box::new(Tree::Group(Box::new(spec_parse(p)->0)))))
        }),
{
    lemma_quantified_reading(kind, p, q, None);
    if !is_lookbehind(kind) {
        let all = spec_group_names(p)->0;
        assert(spec_group_names(group_then(kind, p, q)) == Some(all));
        lemma_quantified_reading(kind, p, q, refs_of(all));
    }
}

/// A quantified group other than a lookbehind is safe under `limit` exactly
/// when its body has star height 0 and holds fewer than `limit` repetitions;
/// a quantified lookbehind is never safe, being invalid.
pub proof fn lemma_quantified_group_safe(kind: GroupKind, p: Seq<char>, q: char, limit: nat)
    requires
        spec_parse(p) is Some,
        leaves_spare_nesting(p),
        is_quantifier_symbol(q),
    ensures
        spec_safe_regex(group_then(kind, p, q), limit) <==> (!is_lookbehind(kind)
            && star_height(spec_parse(p)->0) == 0 && rep_count(spec_parse(p)->0) < limit),
{
    lemma_quantified_group(kind, p, q);
    if !is_lookbehind(kind) {
        lemma_repeated_group_measures(spec_parse(p)->0);
    }
}

/// A repeated group is one level of repetition above its body, and holds one
/// repetition more.
proof fn lemma_repeated_group_measures(tree: Tree)
    ensures
        star_height(Tree::Repetition(Box::new(Tree::Group(Box::new(tree))))) == star_height(tree)
            + 1,
        rep_count(Tree::Repetition(Box::new(Tree::Group(Box::new(tree))))) == rep_count(tree) + 1,
{
    let g = Tree::Group(Box::new(tree));
    assert(star_height(g) == star_height(tree));
    assert(rep_count(g) == rep_count(tree));
}

/// The first branch of `(p)|` is the group around the same reading of `p`.
proof fn lemma_group_or_empty_first(p: Seq<char>, refs: Option<Seq<Seq<char>>>)
    requires
        spec_reading(p, refs) is Some,
        group_depth(spec_reading(p, refs)->0.tree) < MAX_GROUP_NESTING,
    ensures
        group_then(GroupKind::Capturing, p, '|').len() == p.len() + 3,
        group_then(GroupKind::Capturing, p, '|')[p.len() + 2int] == '|',
        alternative(group_then(GroupKind::Capturing, p, '|'), 0, 0, refs, seq![]) == Some(
            Parsed {
                tree: Tree::Group(Box::new(spec_reading(p, refs)->0.tree)),
                end: p.len() + 2int,
                names: spec_reading(p, refs)->0.names,
            },
        ),
{
    let kind = GroupKind::Capturing;
    let t = group_then(kind, p, '|');
    let n = p.len() as int;
    let r = disjunction(p, 0, 0, refs, seq![])->0;
    lemma_group_then_chars(kind, p, '|');
    lemma_leading_group_atom(kind, p, t, refs);
    let g = Tree::Group(Box::new(r.tree));
    let a = Parsed { tree: g, end: n + 2, names: r.names };
    assert(peek_quant(t, n + 2) == Quant::Absent);
    assert(term(t, 0, 0, refs, seq![]) == Some(a));
    assert(alternative_rest(t, n + 2, 0, refs, r.names, seq![g]) == Some(a));
    assert(alternative_rest(t, 0, 0, refs, seq![], seq![]) == Some(a)) by {
        assert(Seq::<Tree>::empty().push(g) =~= seq![g]);
    }
}

/// `(p)|` reads as the alternation of a group around the same reading of `p`
/// and an empty branch.
proof fn lemma_group_or_empty_reading(p: Seq<char>, refs: Option<Seq<Seq<char>>>)
    requires
        spec_reading(p, refs) is Some,
        group_depth(spec_reading(p, refs)->0.tree) < MAX_GROUP_NESTING,
    ensures
        spec_reading(group_then(GroupKind::Capturing, p, '|'), refs) == Some(
            Parsed {
                tree: Tree::Alt(
                    seq![Tree::Group(Box::new(spec_reading(p, refs)->0.tree)), Tree::Empty],
                ),
                end: p.len() + 3int,
                names: spec_reading(p, refs)->0.names,
            },
        ),
{
    let t = group_then(GroupKind::Capturing, p, '|');
    let r = disjunction(p, 0, 0, refs, seq![])->0;
    lemma_group_or_empty_first(p, refs);
    lemma_empty_last_branch(t, refs, r.names, Tree::Group(Box::new(r.tree)));
}

/// A `|` as the last character of `t` adds an empty branch.
proof fn lemma_empty_last_branch(
    t: Seq<char>,
    refs: Option<Seq<Seq<char>>>,
    names: Seq<Seq<char>>,
    g: Tree,
)
    requires
        t.len() >= 3,
        t[t.len() - 1] == '|',
    ensures
        disjunction_rest(t, t.len() - 1, 0, refs, names, seq![g]) == Some(
            Parsed { tree: Tree::Alt(seq![g, Tree::Empty]), end: t.len() as int, names },
        ),
{
    let n = t.len() - 3;
    let e = Parsed { tree: Tree::Empty, end: n + 3, names };
    let whole = Parsed { tree: Tree::Alt(seq![g, Tree::Empty]), end: n + 3, names };
    assert(alternative_rest(t, n + 3, 0, refs, names, seq![]) == Some(e));
    assert(alternative(t, n + 3, 0, refs, names) == Some(e));
    assert(seq![g].push(Tree::Empty) =~= seq![g, Tree::Empty]);
    assert(disjunction_rest(t, n + 3, 0, refs, names, seq![g, Tree::Empty]) == Some(whole));
}

/// An alternation counts each branch in full: for a valid `p` with a spare
/// level of group nesting, `(p)|` reads as the alternation of a group around
/// `p`'s tree and an empty branch, with the same star height and repetition
/// count as `p`, so it is safe under any limit exactly when `p` is.
pub proof fn lemma_alternation_keeps_branch(p: Seq<char>, limit: nat)
    requires
        spec_parse(p) is Some,
        leaves_spare_nesting(p),
    ensures
        spec_parse(group_then(GroupKind::Capturing, p, '|')) == Some(
            Tree::Alt(seq![Tree::Group(Box::new(spec_parse(p)->0)), Tree::Empty]),
        ),
        star_height(spec_parse(group_then(GroupKind::Capturing, p, '|'))->0) == star_height(
            spec_parse(p)->0,
        ),
        rep_count(spec_parse(group_then(GroupKind::Capturing, p, '|'))->0) == rep_count(
            spec_parse(p)->0,
        ),
        spec_safe_regex(group_then(GroupKind::Capturing, p, '|'), limit) == spec_safe_regex(
            p,
            limit,
        ),
{
    let t = group_then(GroupKind::Capturing, p, '|');
    lemma_group_or_empty_reading(p, None);
    let all = spec_group_names(p)->0;
    assert(spec_group_names(t) == Some(all));
    lemma_group_or_empty_reading(p, refs_of(all));
    lemma_branch_and_empty_measures(spec_parse(p)->0);
}

/// An alternation of a group around `tree` and an empty branch measures as
/// `tree` does.
proof fn lemma_branch_and_empty_measures(tree: Tree)
    ensures
        star_height(Tree::Alt(seq![Tree::Group(Box::new(tree)), Tree::Empty])) == star_height(
            tree,
        ),
        rep_count(Tree::Alt(seq![Tree::Group(Box::new(tree)), Tree::Empty])) == rep_count(tree),
{
    let g = Tree::Group(Box::new(tree));
    let ts = seq![g, Tree::Empty];
    let none = Seq::<Tree>::empty();
    lemma_all_push(none, g);
    assert(none.push(g) =~= seq![g]);
    lemma_all_push(seq![g], Tree::Empty);
    assert(seq![g].push(Tree::Empty) =~= ts);
    assert(star_height_all(none) == 0 && rep_count_all(none) == 0);
    assert(star_height(g) == star_height(tree));
    assert(rep_count(g) == rep_count(tree));
}

/// Wrapping a valid pattern `p` as `(p)*` gives the tree `Repetition(Group(t))`
/// of `p`'s tree `t`: the star height and the repetition count each rise by
/// exactly one, so a repetition nested through a group raises the height to 2.
/// The wrap needs one spare level of group nesting.
pub proof fn lemma_starred_group(p: Seq<char>)
    requires
        spec_parse(p) is Some,
        leaves_spare_nesting(p),
    ensures
        spec_parse(starred_group(p)) == Some(
            Tree::Repetition(Box::new(Tree::Group(Box::new(spec_parse(p)->0)))),
        ),
        star_height(spec_parse(starred_group(p))->0) == star_height(spec_parse(p)->0) + 1,
        rep_count(spec_parse(starred_group(p))->0) == rep_count(spec_parse(p)->0) + 1,
{
    assert(starred_group(p) =~= group_then(GroupKind::Capturing, p, '*')) by {
        reveal(group_then);
    }
    lemma_quantified_group(GroupKind::Capturing, p, '*');
    lemma_repeated_group_measures(spec_parse(p)->0);
}

/// `(p)*` is safe under `limit` exactly when `p` has star height 0 and holds
/// fewer than `limit` repetitions.
pub proof fn lemma_starred_group_safe(p: Seq<char>, limit: nat)
    requires
        spec_parse(p) is Some,
        leaves_spare_nesting(p),
    ensures
        spec_safe_regex(starred_group(p), limit) <==> (star_height(spec_parse(p)->0) == 0
            && rep_count(spec_parse(p)->0) < limit),
{
    lemma_starred_group(p);
}

/// A character that stands for itself as the end of a class range.
pub open spec fn plain_class_char(c: char) -> bool {
    c != '\\' && c != ']' && c != '-' && c != '^' && (c as nat) < 0x10000
}

/// A one-range class `[a-b]` of plain characters is valid exactly when the
/// range is not reversed, and then reads as a single atom.
pub proof fn lemma_class_range(a: char, b: char)
    requires
        plain_class_char(a),
        plain_class_char(b),
    ensures
        spec_parse(seq!['[', a, '-', b, ']']) == (if a > b {
            None
        } else {
            Some(Tree::Char)
        }),
{
    let s = seq!['[', a, '-', b, ']'];
    let ua = ClassAtom::Unit(a as u32);
    let ub = ClassAtom::Unit(b as u32);
    assert(units_of(a) == seq![ua]);
    assert(units_of(b) == seq![ub]);
    assert(class_items(s, 4, false) == Some((Seq::<ClassAtom>::empty(), 5int)));
    assert(class_items(s, 3, false) == Some((seq![ub], 5int))) by {
        assert(seq![ub] + Seq::<ClassAtom>::empty() =~= seq![ub]);
    }
    assert(class_items(s, 2, false) == Some((seq![ClassAtom::Dash, ub], 5int))) by {
        assert(seq![ClassAtom::Dash] + seq![ub] =~= seq![ClassAtom::Dash, ub]);
    }
    let atoms = seq![ua, ClassAtom::Dash, ub];
    assert(class_items(s, 1, false) == Some((atoms, 5int))) by {
        assert(seq![ua] + seq![ClassAtom::Dash, ub] =~= atoms);
    }
    assert(atoms.subrange(3, 3) =~= Seq::<ClassAtom>::empty());
    assert(ranges_ok(atoms) == !(a > b)) by {
        assert(ranges_ok(Seq::<ClassAtom>::empty()));
        assert((a as u32 > b as u32) == (a > b));
    }
    assert(class_end(s, 0, false) == if a > b {
        None
    } else {
        Some(5int)
    });
    if a <= b {
        assert(atom(s, 0, 0, None, seq![]) == Some(
            crate::grammar::AtomParsed {
                tree: Tree::Char,
                quantifiable: true,
                end: 5,
                names: Seq::<Seq<char>>::empty(),
            },
        ));
        assert(peek_quant(s, 5) == Quant::Absent);
        assert(term(s, 0, 0, None, seq![]) == Some(
            Parsed { tree: Tree::Char, end: 5, names: Seq::<Seq<char>>::empty() },
        ));
        assert(alternative_rest(s, 5, 0, None, seq![], seq![Tree::Char]) == Some(
            Parsed { tree: Tree::Char, end: 5, names: Seq::<Seq<char>>::empty() },
        ));
        assert(alternative_rest(s, 0, 0, None, seq![], seq![]) == Some(
            Parsed { tree: Tree::Char, end: 5, names: Seq::<Seq<char>>::empty() },
        )) by {
            assert(Seq::<Tree>::empty().push(Tree::Char) =~= seq![Tree::Char]);
        }
        assert(disjunction_rest(s, 5, 0, None, seq![], seq![Tree::Char]) == Some(
            Parsed { tree: Tree::Char, end: 5, names: Seq::<Seq<char>>::empty() },
        ));
        assert(spec_group_names(s) == Some(Seq::<Seq<char>>::empty()));
        assert(refs_of(Seq::<Seq<char>>::empty()) is None);
    } else {
        assert(atom(s, 0, 0, None, seq![]) is None);
        assert(term(s, 0, 0, None, seq![]) is None);
        assert(alternative_rest(s, 0, 0, None, seq![], seq![]) is None);
    }
}

/// Every escape outside a class but the word-boundary assertions `\b` and
/// `\B` may be quantified: for any character `c` and quantifier symbol `q`,
/// the pattern `\c q` (such as `\w+`, `\d*`, `\.?`) reads as the repetition
/// of a single atom, while `\b*` and `\B+` are refused.
pub proof fn lemma_quantified_escape(c: char, q: char)
    requires
        is_quantifier_symbol(q),
    ensures
        spec_parse(seq!['\\', c, q]) == (if c == 'b' || c == 'B' {
            None
        } else {
            Some(Tree::Repetition(Box::new(Tree::Char)))
        }),
{
    let s = seq!['\\', c, q];
    let none = Seq::<Seq<char>>::empty();
    let zero_width = c == 'b' || c == 'B';
    assert(escape_atom(s, 0, None) == Some((2int, !zero_width)));
    assert(atom(s, 0, 0, None, none) == Some(
        AtomParsed { tree: Tree::Char, quantifiable: !zero_width, end: 2, names: none },
    ));
    assert(peek_quant(s, 2) == Quant::Symbol);
    if zero_width {
        assert(term(s, 0, 0, None, none) is None);
        assert(alternative_rest(s, 0, 0, None, none, seq![]) is None);
        assert(alternative(s, 0, 0, None, none) is None);
    } else {
        let rep = Tree::Repetition(Box::new(Tree::Char));
        let r = Parsed { tree: rep, end: 3, names: none };
        assert(quant_end(s, 2) == Some(3int));
        assert(peek_quant(s, 3) == Quant::Absent);
        assert(term(s, 0, 0, None, none) == Some(r));
        assert(alternative_rest(s, 3, 0, None, none, seq![rep]) == Some(r));
        assert(alternative_rest(s, 0, 0, None, none, seq![]) == Some(r)) by {
            assert(Seq::<Tree>::empty().push(rep) =~= seq![rep]);
        }
        assert(alternative(s, 0, 0, None, none) == Some(r));
        assert(disjunction_rest(s, 3, 0, None, none, seq![rep]) == Some(r));
        assert(spec_group_names(s) == Some(none));
        assert(refs_of(none) is None);
    }
}

/// In either mode, only `\b` and `\B` are escapes that a quantifier may not
/// follow, a named reference `\k<name>` included. An escape at `p` whose
/// letter is neither `b` nor `B` (nor, in named-group mode, `k`) is a single
/// quantifiable atom, two characters long.
pub proof fn lemma_escape_quantifiable(s: Seq<char>, p: int, refs: Option<Seq<Seq<char>>>)
    requires
        0 <= p,
    ensures
        escape_atom(s, p, refs) matches Some((e, q)) ==> p + 2 <= e && q == !(s[p + 1] == 'b'
            || s[p + 1] == 'B'),
        p + 1 < s.len() && !(s[p + 1] == 'k' && refs is Some) ==> escape_atom(s, p, refs) == Some(
            (p + 2, s[p + 1] != 'b' && s[p + 1] != 'B'),
        ),
{
    if p + 1 < s.len() && s[p + 1] == 'k' && refs is Some && char_at(s, p + 2) == Some('<') {
        lemma_name_scan_ends_after(s, p + 3, seq![]);
    }
}

/// A group name read from `i` ends at a `>` at or after `i`.
proof fn lemma_name_scan_ends_after(s: Seq<char>, i: int, acc: Seq<char>)
    ensures
        name_scan(s, i, acc) matches Some((name, gt)) ==> i <= gt,
    decreases s.len() - i,
{
    if 0 <= i < s.len() && s[i] != '>' {
        if s[i] == '\\' {
            if let Some((c, e)) = name_escape(s, i) {
                if i < e <= s.len() {
                    lemma_name_scan_ends_after(s, e, acc.push(c));
                }
            }
        } else {
            lemma_name_scan_ends_after(s, i + 1, acc.push(s[i]));
        }
    }
}

/// Only a lookbehind is a group that a quantifier may not follow: whatever
/// follows a group's `(`, when it is accepted, the group may be quantified
/// exactly when it does not open with `?<=` or `?<!`. The prefixes `?:`,
/// `?=`, `?!`, `?<=`, `?<!` and none at all are always accepted and leave the
/// names as they were.
pub proof fn lemma_group_prefix_quantifiable(s: Seq<char>, q: int, names: Seq<Seq<char>>)
    ensures
        group_prefix(s, q, names) matches Some((b, qf, ns)) ==> qf == !(char_at(s, q) == Some('?')
            && char_at(s, q + 1) == Some('<') && (char_at(s, q + 2) == Some('=') || char_at(
            s,
            q + 2,
        ) == Some('!'))),
        char_at(s, q) != Some('?') ==> group_prefix(s, q, names) == Some((q, true, names)),
        char_at(s, q) == Some('?') && (char_at(s, q + 1) == Some(':') || char_at(s, q + 1) == Some(
            '=',
        ) || char_at(s, q + 1) == Some('!')) ==> group_prefix(s, q, names) == Some(
            (q + 2, true, names),
        ),
        char_at(s, q) == Some('?') && char_at(s, q + 1) == Some('<') && (char_at(s, q + 2) == Some(
            '=',
        ) || char_at(s, q + 2) == Some('!')) ==> group_prefix(s, q, names) == Some(
            (q + 3, false, names),
        ),
{
    reveal(group_prefix);
}

/// A class escape never stands for the range dash: whatever follows the
/// backslash, it gives code units or a set, so only an unescaped `-` can join
/// two items into a range. In particular `\-` is the single code unit of `-`.
pub proof fn lemma_class_escape_no_dash(s: Seq<char>, i: int, named: bool)
    ensures
        class_escape(s, i, named) matches Some((atoms, e)) ==> !atoms.contains(ClassAtom::Dash),
        char_at(s, i + 1) == Some('-') ==> class_escape(s, i, named) == Some(
            (seq![ClassAtom::Unit(0x2d)], i + 2),
        ),
{
    if let Some((atoms, e)) = class_escape(s, i, named) {
        if atoms.contains(ClassAtom::Dash) {
            let j = choose|j: int| 0 <= j < atoms.len() && atoms[j] == ClassAtom::Dash;
            let c = s[i + 1];
            if c == 'k' && named {
            } else if c == 'b' {
            } else if c == 'd' || c == 'D' || c == 's' || c == 'S' || c == 'w' || c == 'W' {
            } else if control_escape(c) is Some {
            } else if c == 'c' || c == 'x' || c == 'u' || is_octal(c) {
            } else {
                assert(atoms == units_of(c));
            }
        }
    }
}

/// Class items without a range dash always form valid ranges.
pub proof fn lemma_ranges_ok_without_dash(a: Seq<ClassAtom>)
    requires
        !a.contains(ClassAtom::Dash),
    ensures
        ranges_ok(a),
    decreases a.len(),
{
    if a.len() > 0 {
        let rest = a.subrange(1, a.len() as int);
        assert(a.len() < 2 || a[1] != ClassAtom::Dash);
        assert forall|j: int| 0 <= j < rest.len() implies rest[j] != ClassAtom::Dash by {
            assert(rest[j] == a[j + 1]);
        }
        lemma_ranges_ok_without_dash(rest);
    }
}

/// The items of `[a\-b]` form valid ranges.
proof fn lemma_class_escaped_dash_items(a: char, b: char)
    requires
        plain_class_char(a),
        plain_class_char(b),
    ensures
        class_end(seq!['[', a, '\\', '-', b, ']'], 0, false) == Some(6int),
{
    let s = seq!['[', a, '\\', '-', b, ']'];
    let ua = ClassAtom::Unit(a as u32);
    let ub = ClassAtom::Unit(b as u32);
    let ud = ClassAtom::Unit(0x2d);
    assert(units_of(a) == seq![ua]);
    assert(units_of(b) == seq![ub]);
    lemma_class_escape_no_dash(s, 2, false);
    assert(class_items(s, 5, false) == Some((Seq::<ClassAtom>::empty(), 6int)));
    assert(class_items(s, 4, false) == Some((seq![ub], 6int))) by {
        assert(seq![ub] + Seq::<ClassAtom>::empty() =~= seq![ub]);
    }
    assert(class_items(s, 2, false) == Some((seq![ud, ub], 6int))) by {
        assert(seq![ud] + seq![ub] =~= seq![ud, ub]);
    }
    let atoms = seq![ua, ud, ub];
    assert(class_items(s, 1, false) == Some((atoms, 6int))) by {
        assert(seq![ua] + seq![ud, ub] =~= atoms);
    }
    assert(!atoms.contains(ClassAtom::Dash)) by {
        assert forall|j: int| 0 <= j < atoms.len() implies atoms[j] != ClassAtom::Dash by {}
    }
    lemma_ranges_ok_without_dash(atoms);
}

/// `[a\-b]` is a class of three literal items, whatever the order of `a` and
/// `b`: the escaped dash joins no range, so the class is accepted where
/// `[a-b]` with `a > b` is refused.
pub proof fn lemma_class_escaped_dash(a: char, b: char)
    requires
        plain_class_char(a),
        plain_class_char(b),
    ensures
        spec_parse(seq!['[', a, '\\', '-', b, ']']) == Some(Tree::Char),
{
    let s = seq!['[', a, '\\', '-', b, ']'];
    let none = Seq::<Seq<char>>::empty();
    lemma_class_escaped_dash_items(a, b);
    let r = Parsed { tree: Tree::Char, end: 6, names: none };
    assert(atom(s, 0, 0, None, none) == Some(
        AtomParsed { tree: Tree::Char, quantifiable: true, end: 6, names: none },
    ));
    assert(peek_quant(s, 6) == Quant::Absent);
    assert(term(s, 0, 0, None, none) == Some(r));
    assert(alternative_rest(s, 6, 0, None, none, seq![Tree::Char]) == Some(r));
    assert(alternative_rest(s, 0, 0, None, none, seq![]) == Some(r)) by {
        assert(Seq::<Tree>::empty().push(Tree::Char) =~= seq![Tree::Char]);
    }
    assert(disjunction_rest(s, 6, 0, None, none, seq![Tree::Char]) == Some(r));
    assert(spec_group_names(s) == Some(none));
    assert(refs_of(none) is None);
}

/// The nodes directly below a node: the members of a sequence or an
/// alternation, the body of a group or a repetition, none for a leaf.
pub open spec fn children(t: Tree) -> Seq<Tree> {
    match t {
        Tree::Concat(ts) => ts,
        Tree::Alt(ts) => ts,
        Tree::Group(b) => seq![*b],
        Tree::Repetition(b) => seq![*b],
        _ => seq![],
    }
}

/// `h` is the largest star height among `ts`: none of them is higher, one of
/// them reaches it, and it is 0 when there are none.
pub open spec fn is_max_height(h: nat, ts: Seq<Tree>) -> bool {
    &&& forall|i: int| 0 <= i < ts.len() ==> star_height(#[trigger] ts[i]) <= h
    &&& ts.len() == 0 ==> h == 0
    &&& ts.len() > 0 ==> exists|i: int| 0 <= i < ts.len() && star_height(#[trigger] ts[i]) == h
}

/// Star height counts the nesting of repetitions through every kind of node:
/// a repetition is one level above its body, and any other node is exactly as
/// high as its highest child (0 for a leaf). So a sequence or an alternation
/// is as high as its highest member, whichever branch that is.
pub proof fn lemma_star_height_children(t: Tree)
    ensures
        t is Repetition ==> star_height(t) == star_height(children(t)[0]) + 1,
        !(t is Repetition) ==> is_max_height(star_height(t), children(t)),
{
    match t {
        Tree::Concat(ts) => {
            lemma_height_of_list(ts);
        },
        Tree::Alt(ts) => {
            lemma_height_of_list(ts);
        },
        Tree::Group(b) => {
            assert(children(t)[0] == *b);
        },
        _ => {},
    }
}

proof fn lemma_height_of_list(ts: Seq<Tree>)
    ensures
        is_max_height(star_height_all(ts), ts),
{
    assert forall|i: int| 0 <= i < ts.len() implies star_height(#[trigger] ts[i])
        <= star_height_all(ts) by {
        lemma_star_height_elem(ts, i);
    }
    if ts.len() > 0 {
        lemma_star_height_attained(ts);
    }
}

/// Every repetition counts once, wherever it stands: a repetition adds one to
/// its body's count, a group keeps it, leaves count none, and a sequence or an
/// alternation adds up its members' counts (one more member adds its count).
pub proof fn lemma_rep_count_nodes(ts: Seq<Tree>, t: Tree)
    ensures
        rep_count(Tree::Repetition(Box::new(t))) == rep_count(t) + 1,
        rep_count(Tree::Group(Box::new(t))) == rep_count(t),
        rep_count(Tree::Empty) == 0,
        rep_count(Tree::Char) == 0,
        rep_count(Tree::Alt(seq![])) == 0,
        rep_count(Tree::Concat(seq![])) == 0,
        rep_count(Tree::Alt(ts.push(t))) == rep_count(Tree::Alt(ts)) + rep_count(t),
        rep_count(Tree::Concat(ts.push(t))) == rep_count(Tree::Concat(ts)) + rep_count(t),
{
    lemma_all_push(ts, t);
    assert(rep_count_all(Seq::<Tree>::empty()) == 0);
}

/// A pattern is unsafe as soon as any node of its tree directly below the
/// root, such as one branch of a top-level alternation `p|q`, nests a
/// repetition inside another.
pub proof fn lemma_unsafe_child(pattern: Seq<char>, limit: nat, i: int)
    requires
        spec_parse(pattern) is Some,
        0 <= i < children(spec_parse(pattern)->0).len(),
        star_height(children(spec_parse(pattern)->0)[i]) > 1,
    ensures
        !spec_safe_regex(pattern, limit),
{
    let t = spec_parse(pattern)->0;
    lemma_star_height_children(t);
    if t is Repetition {
        assert(children(t).len() == 1);
    }
}

/// A pattern that is one whole term, without group names, parses to that
/// term's tree.
proof fn lemma_single_term(s: Seq<char>, tree: Tree)
    requires
        s.len() > 0,
        s[0] != '|',
        s[0] != ')',
        term(s, 0, 0, None, seq![]) == Some(
            Parsed { tree, end: s.len() as int, names: Seq::<Seq<char>>::empty() },
        ),
    ensures
        spec_parse(s) == Some(tree),
{
    let none = Seq::<Seq<char>>::empty();
    let n = s.len() as int;
    let r = Parsed { tree, end: n, names: none };
    assert(alternative_rest(s, n, 0, None, none, seq![tree]) == Some(r));
    assert(alternative_rest(s, 0, 0, None, none, seq![]) == Some(r)) by {
        assert(Seq::<Tree>::empty().push(tree) =~= seq![tree]);
    }
    assert(alternative(s, 0, 0, None, none) == Some(r));
    assert(disjunction_rest(s, n, 0, None, none, seq![tree]) == Some(r));
    assert(spec_group_names(s) == Some(none));
    assert(refs_of(none) is None);
}

/// A pattern whose first term fails, and which does not open with `|` or
/// `)`, is invalid.
proof fn lemma_first_term_fails(s: Seq<char>)
    requires
        s.len() > 0,
        s[0] != '|',
        s[0] != ')',
        term(s, 0, 0, None, seq![]) is None,
    ensures
        spec_parse(s) is None,
{
    assert(alternative_rest(s, 0, 0, None, seq![], seq![]) is None);
    assert(alternative(s, 0, 0, None, seq![]) is None);
}

/// A character that stands alone as an atom outside a class: anything but
/// the group, class, escape and alternation syntax and the quantifier symbols.
pub open spec fn single_char_atom(c: char) -> bool {
    c != '(' && c != ')' && c != '[' && c != '\\' && c != '|' && !is_quantifier_symbol(c)
}

/// A single character takes one quantifier: `a*`, `.+`, `{?` read as a
/// repetition of one atom, while the anchors `^` and `$` take none.
pub proof fn lemma_quantified_char(c: char, q: char)
    requires
        single_char_atom(c),
        is_quantifier_symbol(q),
    ensures
        spec_parse(seq![c, q]) == (if c == '^' || c == '$' {
            None
        } else {
            Some(Tree::Repetition(Box::new(Tree::Char)))
        }),
{
    let s = seq![c, q];
    let none = Seq::<Seq<char>>::empty();
    let anchor = c == '^' || c == '$';
    assert(c == '{' ==> brace_quant(s, 0) == Quant::Absent) by {
        assert(digit_run(s, 1) == 0);
    }
    assert(atom(s, 0, 0, None, none) == Some(
        AtomParsed { tree: Tree::Char, quantifiable: !anchor, end: 1, names: none },
    ));
    assert(peek_quant(s, 1) == Quant::Symbol);
    if anchor {
        assert(term(s, 0, 0, None, none) is None);
        lemma_first_term_fails(s);
    } else {
        assert(quant_end(s, 1) == Some(2int));
        assert(peek_quant(s, 2) == Quant::Absent);
        lemma_single_term(s, Tree::Repetition(Box::new(Tree::Char)));
    }
}

/// After a quantifier only a `?`, which makes it lazy, may follow: `a*?` and
/// `a+?` read as one repetition, while `a**`, `a+*` and `a?+` are refused.
pub proof fn lemma_second_quantifier(c: char, q: char, r: char)
    requires
        single_char_atom(c),
        c != '^',
        c != '$',
        is_quantifier_symbol(q),
        is_quantifier_symbol(r),
    ensures
        spec_parse(seq![c, q, r]) == (if r == '?' {
            Some(Tree::Repetition(Box::new(Tree::Char)))
        } else {
            None
        }),
{
    let s = seq![c, q, r];
    let none = Seq::<Seq<char>>::empty();
    assert(c == '{' ==> brace_quant(s, 0) == Quant::Absent) by {
        assert(digit_run(s, 1) == 0);
    }
    assert(atom(s, 0, 0, None, none) == Some(
        AtomParsed { tree: Tree::Char, quantifiable: true, end: 1, names: none },
    ));
    assert(peek_quant(s, 1) == Quant::Symbol);
    if r == '?' {
        assert(quant_end(s, 1) == Some(3int));
        assert(peek_quant(s, 3) == Quant::Absent);
        lemma_single_term(s, Tree::Repetition(Box::new(Tree::Char)));
    } else {
        assert(quant_end(s, 1) == Some(2int));
        assert(peek_quant(s, 2) == Quant::Symbol);
        assert(term(s, 0, 0, None, none) is None);
        lemma_first_term_fails(s);
    }
}

/// A brace range `{a,b}` of single digits after a character is a quantifier
/// when `a <= b`, and a syntax error, not a literal, when it is reversed.
pub proof fn lemma_brace_range(c: char, a: char, b: char)
    requires
        single_char_atom(c),
        c != '^',
        c != '$',
        is_digit(a),
        is_digit(b),
    ensures
        spec_parse(seq![c, '{', a, ',', b, '}']) == (if b < a {
            None
        } else {
            Some(Tree::Repetition(Box::new(Tree::Char)))
        }),
{
    let s = seq![c, '{', a, ',', b, '}'];
    let none = Seq::<Seq<char>>::empty();
    assert(c == '{' ==> brace_quant(s, 0) == Quant::Absent) by {
        assert(digit_run(s, 1) == 0);
    }
    assert(atom(s, 0, 0, None, none) == Some(
        AtomParsed { tree: Tree::Char, quantifiable: true, end: 1, names: none },
    ));
    assert(digit_run(s, 3) == 0);
    assert(digit_run(s, 2) == 1);
    assert(digit_run(s, 5) == 0);
    assert(digit_run(s, 4) == 1);
    assert(decimal(s, 2, 1) == a as nat - '0' as nat) by {
        assert(decimal(s, 2, 0) == 0);
    }
    assert(decimal(s, 4, 1) == b as nat - '0' as nat) by {
        assert(decimal(s, 4, 0) == 0);
    }
    assert(brace_quant(s, 1) == if b < a {
        Quant::InvalidRange
    } else {
        Quant::Range(5)
    });
    if b < a {
        assert(term(s, 0, 0, None, none) is None);
        lemma_first_term_fails(s);
    } else {
        assert(quant_end(s, 1) == Some(6int));
        assert(peek_quant(s, 6) == Quant::Absent);
        lemma_single_term(s, Tree::Repetition(Box::new(Tree::Char)));
    }
}

/// Valid group names, no two alike.
pub open spec fn names_ok(names: Seq<Seq<char>>) -> bool {
    &&& forall|i: int| 0 <= i < names.len() ==> spec_is_group_name(#[trigger] names[i])
    &&& forall|i: int, j: int| 0 <= i < j < names.len() ==> names[i] != names[j]
}

/// In an accepted pattern every named group has a valid identifier name and
/// no two named groups share a name.
pub proof fn lemma_accepted_names_distinct(pattern: Seq<char>)
    requires
        spec_parse(pattern) is Some,
    ensures
        names_ok(spec_group_names(pattern)->0),
{
    lemma_names_disjunction(pattern, 0, 0, None, seq![]);
}

proof fn lemma_names_group_prefix(s: Seq<char>, q: int, names: Seq<Seq<char>>)
    requires
        names_ok(names),
    ensures
        group_prefix(s, q, names) matches Some((b, qf, ns)) ==> names_ok(ns),
{
    reveal(group_prefix);
    if let Some((b, qf, ns)) = group_prefix(s, q, names) {
        if ns != names {
            let name = ns[ns.len() - 1];
            assert(ns == names.push(name));
            assert forall|i: int, j: int| 0 <= i < j < ns.len() implies ns[i] != ns[j] by {
                if j == ns.len() - 1 {
                    assert(names[i] == ns[i]);
                }
            }
        }
    }
}

proof fn lemma_names_disjunction(
    s: Seq<char>,
    p: int,
    d: nat,
    refs: Option<Seq<Seq<char>>>,
    names: Seq<Seq<char>>,
)
    requires
        names_ok(names),
    ensures
        disjunction(s, p, d, refs, names) matches Some(r) ==> names_ok(r.names),
    decreases s.len() - p, 6int,
{
    if 0 <= p <= s.len() {
        lemma_names_alternative(s, p, d, refs, names);
        if let Some(a) = alternative(s, p, d, refs, names) {
            if p <= a.end <= s.len() {
                lemma_names_disjunction_rest(s, a.end, d, refs, a.names, seq![a.tree]);
            }
        }
    }
}

proof fn lemma_names_disjunction_rest(
    s: Seq<char>,
    p: int,
    d: nat,
    refs: Option<Seq<Seq<char>>>,
    names: Seq<Seq<char>>,
    branches: Seq<Tree>,
)
    requires
        names_ok(names),
    ensures
        disjunction_rest(s, p, d, refs, names, branches) matches Some(r) ==> names_ok(r.names),
    decreases s.len() - p, 5int,
{
    if 0 <= p < s.len() && s[p] == '|' {
        lemma_names_alternative(s, p + 1, d, refs, names);
        if let Some(a) = alternative(s, p + 1, d, refs, names) {
            if p + 1 <= a.end <= s.len() {
                lemma_names_disjunction_rest(s, a.end, d, refs, a.names, branches.push(a.tree));
            }
        }
    }
}

proof fn lemma_names_alternative(
    s: Seq<char>,
    p: int,
    d: nat,
    refs: Option<Seq<Seq<char>>>,
    names: Seq<Seq<char>>,
)
    requires
        names_ok(names),
    ensures
        alternative(s, p, d, refs, names) matches Some(r) ==> names_ok(r.names),
    decreases s.len() - p, 4int,
{
    if 0 <= p <= s.len() {
        lemma_names_alternative_rest(s, p, d, refs, names, seq![]);
    }
}

proof fn lemma_names_alternative_rest(
    s: Seq<char>,
    p: int,
    d: nat,
    refs: Option<Seq<Seq<char>>>,
    names: Seq<Seq<char>>,
    terms: Seq<Tree>,
)
    requires
        names_ok(names),
    ensures
        alternative_rest(s, p, d, refs, names, terms) matches Some(r) ==> names_ok(r.names),
    decreases s.len() - p, 3int,
{
    if 0 <= p < s.len() && !(s[p] == '|' || s[p] == ')') {
        lemma_names_term(s, p, d, refs, names);
        if let Some(t) = term(s, p, d, refs, names) {
            if p < t.end <= s.len() {
                lemma_names_alternative_rest(s, t.end, d, refs, t.names, terms.push(t.tree));
            }
        }
    }
}

proof fn lemma_names_term(
    s: Seq<char>,
    p: int,
    d: nat,
    refs: Option<Seq<Seq<char>>>,
    names: Seq<Seq<char>>,
)
    requires
        names_ok(names),
    ensures
        term(s, p, d, refs, names) matches Some(r) ==> names_ok(r.names),
    decreases s.len() - p, 2int,
{
    if 0 <= p <= s.len() {
        lemma_names_atom(s, p, d, refs, names);
    }
}

proof fn lemma_names_atom(
    s: Seq<char>,
    p: int,
    d: nat,
    refs: Option<Seq<Seq<char>>>,
    names: Seq<Seq<char>>,
)
    requires
        names_ok(names),
    ensures
        atom(s, p, d, refs, names) matches Some(r) ==> names_ok(r.names),
    decreases s.len() - p, 1int,
{
    if 0 <= p < s.len() && s[p] == '(' {
        lemma_names_group(s, p, d, refs, names);
    }
}

proof fn lemma_names_group(
    s: Seq<char>,
    p: int,
    d: nat,
    refs: Option<Seq<Seq<char>>>,
    names: Seq<Seq<char>>,
)
    requires
        names_ok(names),
    ensures
        group(s, p, d, refs, names) matches Some(r) ==> names_ok(r.names),
    decreases s.len() - p, 0int,
{
    if 0 <= p < s.len() && d < MAX_GROUP_NESTING {
        lemma_names_group_body(s, p + 1, d + 1, refs, names);
    }
}

proof fn lemma_names_group_body(
    s: Seq<char>,
    q: int,
    d: nat,
    refs: Option<Seq<Seq<char>>>,
    names: Seq<Seq<char>>,
)
    requires
        names_ok(names),
    ensures
        group_body(s, q, d, refs, names) matches Some(r) ==> names_ok(r.names),
    decreases s.len() - q, 7int,
{
    if 0 <= q <= s.len() {
        lemma_names_group_prefix(s, q, names);
        if let Some((b, _, names2)) = group_prefix(s, q, names) {
            if q <= b <= s.len() {
                lemma_names_disjunction(s, b, d, refs, names2);
            }
        }
    }
}

/// The tree of a term: a single atom, a group around a well-shaped
/// disjunction, or a repetition of either of those.
pub open spec fn term_shape(t: Tree) -> bool
    decreases t, 0int,
{
    match t {
        Tree::Char => true,
        Tree::Group(b) => disjunction_shape(*b),
        Tree::Repetition(b) => (*b is Char || *b is Group) && term_shape(*b),
        _ => false,
    }
}

/// The tree of an alternative: empty, a single term, or a sequence of at
/// least two terms.
pub open spec fn alternative_shape(t: Tree) -> bool
    decreases t, 1int,
{
    match t {
        Tree::Empty => true,
        Tree::Concat(ts) => ts.len() >= 2 && all_term_shape(ts),
        _ => term_shape(t),
    }
}

/// The tree of a disjunction: an alternative, or at least two alternatives.
pub open spec fn disjunction_shape(t: Tree) -> bool
    decreases t, 2int,
{
    match t {
        Tree::Alt(ts) => ts.len() >= 2 && all_alternative_shape(ts),
        _ => alternative_shape(t),
    }
}

/// Every tree of `ts` is a term's.
pub open spec fn all_term_shape(ts: Seq<Tree>) -> bool
    decreases ts, 3int,
{
    if ts.len() == 0 {
        true
    } else {
        all_term_shape(ts.subrange(0, ts.len() - 1)) && term_shape(ts[ts.len() - 1])
    }
}

/// Every tree of `ts` is an alternative's.
pub open spec fn all_alternative_shape(ts: Seq<Tree>) -> bool
    decreases ts, 3int,
{
    if ts.len() == 0 {
        true
    } else {
        all_alternative_shape(ts.subrange(0, ts.len() - 1)) && alternative_shape(
            ts[ts.len() - 1],
        )
    }
}

/// Every accepted pattern's tree is well shaped: a repetition repeats a
/// single atom or a group (never another repetition), sequences and
/// alternations hold at least two members, and `Empty` stands only for the
/// whole pattern, a group's body, or a branch of an alternation.
pub proof fn lemma_accepted_tree_shape(pattern: Seq<char>)
    requires
        spec_parse(pattern) is Some,
    ensures
        disjunction_shape(spec_parse(pattern)->0),
{
    lemma_shape_disjunction(pattern, 0, 0, refs_of(spec_group_names(pattern)->0), seq![]);
}

proof fn lemma_shape_push_terms(ts: Seq<Tree>, t: Tree)
    ensures
        all_term_shape(ts.push(t)) == (all_term_shape(ts) && term_shape(t)),
{
    assert(ts.push(t).subrange(0, ts.len() as int) =~= ts);
}

proof fn lemma_shape_push_alternatives(ts: Seq<Tree>, t: Tree)
    ensures
        all_alternative_shape(ts.push(t)) == (all_alternative_shape(ts) && alternative_shape(t)),
{
    assert(ts.push(t).subrange(0, ts.len() as int) =~= ts);
}

proof fn lemma_shape_single_term(ts: Seq<Tree>)
    requires
        ts.len() == 1,
        all_term_shape(ts),
    ensures
        term_shape(ts[0]),
{
}

proof fn lemma_shape_single_alternative(ts: Seq<Tree>)
    requires
        ts.len() == 1,
        all_alternative_shape(ts),
    ensures
        alternative_shape(ts[0]),
{
}

proof fn lemma_shape_disjunction(
    s: Seq<char>,
    p: int,
    d: nat,
    refs: Option<Seq<Seq<char>>>,
    names: Seq<Seq<char>>,
)
    ensures
        disjunction(s, p, d, refs, names) matches Some(r) ==> disjunction_shape(r.tree),
    decreases s.len() - p, 6int,
{
    if 0 <= p <= s.len() {
        lemma_shape_alternative(s, p, d, refs, names);
        if let Some(a) = alternative(s, p, d, refs, names) {
            if p <= a.end <= s.len() {
                lemma_shape_push_alternatives(Seq::empty(), a.tree);
                assert(Seq::<Tree>::empty().push(a.tree) =~= seq![a.tree]);
                lemma_shape_disjunction_rest(s, a.end, d, refs, a.names, seq![a.tree]);
            }
        }
    }
}

proof fn lemma_shape_disjunction_rest(
    s: Seq<char>,
    p: int,
    d: nat,
    refs: Option<Seq<Seq<char>>>,
    names: Seq<Seq<char>>,
    branches: Seq<Tree>,
)
    requires
        branches.len() >= 1,
        all_alternative_shape(branches),
    ensures
        disjunction_rest(s, p, d, refs, names, branches) matches Some(r) ==> disjunction_shape(
            r.tree,
        ),
    decreases s.len() - p, 5int,
{
    if 0 <= p <= s.len() {
        if p < s.len() && s[p] == '|' {
            lemma_shape_alternative(s, p + 1, d, refs, names);
            if let Some(a) = alternative(s, p + 1, d, refs, names) {
                if p + 1 <= a.end <= s.len() {
                    lemma_shape_push_alternatives(branches, a.tree);
                    lemma_shape_disjunction_rest(
                        s,
                        a.end,
                        d,
                        refs,
                        a.names,
                        branches.push(a.tree),
                    );
                }
            }
        } else if branches.len() == 1 {
            lemma_shape_single_alternative(branches);
        }
    }
}

proof fn lemma_shape_alternative(
    s: Seq<char>,
    p: int,
    d: nat,
    refs: Option<Seq<Seq<char>>>,
    names: Seq<Seq<char>>,
)
    ensures
        alternative(s, p, d, refs, names) matches Some(r) ==> alternative_shape(r.tree),
    decreases s.len() - p, 4int,
{
    if 0 <= p <= s.len() {
        lemma_shape_alternative_rest(s, p, d, refs, names, seq![]);
    }
}

proof fn lemma_shape_alternative_rest(
    s: Seq<char>,
    p: int,
    d: nat,
    refs: Option<Seq<Seq<char>>>,
    names: Seq<Seq<char>>,
    terms: Seq<Tree>,
)
    requires
        all_term_shape(terms),
    ensures
        alternative_rest(s, p, d, refs, names, terms) matches Some(r) ==> alternative_shape(
            r.tree,
        ),
    decreases s.len() - p, 3int,
{
    if 0 <= p <= s.len() {
        if p == s.len() || s[p] == '|' || s[p] == ')' {
            if terms.len() == 1 {
                lemma_shape_single_term(terms);
            }
        } else {
            lemma_shape_term(s, p, d, refs, names);
            if let Some(t) = term(s, p, d, refs, names) {
                if p < t.end <= s.len() {
                    lemma_shape_push_terms(terms, t.tree);
                    lemma_shape_alternative_rest(
                        s,
                        t.end,
                        d,
                        refs,
                        t.names,
                        terms.push(t.tree),
                    );
                }
            }
        }
    }
}

proof fn lemma_shape_term(
    s: Seq<char>,
    p: int,
    d: nat,
    refs: Option<Seq<Seq<char>>>,
    names: Seq<Seq<char>>,
)
    ensures
        term(s, p, d, refs, names) matches Some(r) ==> term_shape(r.tree),
    decreases s.len() - p, 2int,
{
    if 0 <= p <= s.len() {
        lemma_shape_atom(s, p, d, refs, names);
    }
}

proof fn lemma_shape_atom(
    s: Seq<char>,
    p: int,
    d: nat,
    refs: Option<Seq<Seq<char>>>,
    names: Seq<Seq<char>>,
)
    ensures
        atom(s, p, d, refs, names) matches Some(r) ==> term_shape(r.tree) && (r.tree is Char
            || r.tree is Group),
    decreases s.len() - p, 1int,
{
    if 0 <= p < s.len() && s[p] == '(' {
        lemma_shape_group(s, p, d, refs, names);
    }
}

proof fn lemma_shape_group(
    s: Seq<char>,
    p: int,
    d: nat,
    refs: Option<Seq<Seq<char>>>,
    names: Seq<Seq<char>>,
)
    ensures
        group(s, p, d, refs, names) matches Some(r) ==> term_shape(r.tree) && r.tree is Group,
    decreases s.len() - p, 0int,
{
    if 0 <= p < s.len() && d < MAX_GROUP_NESTING {
        lemma_shape_group_body(s, p + 1, d + 1, refs, names);
    }
}

proof fn lemma_shape_group_body(
    s: Seq<char>,
    q: int,
    d: nat,
    refs: Option<Seq<Seq<char>>>,
    names: Seq<Seq<char>>,
)
    ensures
        group_body(s, q, d, refs, names) matches Some(r) ==> term_shape(r.tree) && r.tree is Group,
    decreases s.len() - q, 7int,
{
    if 0 <= q <= s.len() {
        if let Some((b, _, names2)) = group_prefix(s, q, names) {
            if q <= b <= s.len() {
                lemma_shape_disjunction(s, b, d, refs, names2);
            }
        }
    }
}

} // verus!
