//! Reading a pattern inside a larger text: when a pattern `s` sits at offset
//! `k` in `t` and is followed there by `)`, every piece the grammar reads from
//! `s` reads the same from `t`, shifted by `k`. The `)` reads like the end of
//! the pattern: it continues no digit run, escape, name or quantifier.
use vstd::prelude::*;

use crate::grammar::{
    alt_of, alternative, alternative_rest, atom, bound, brace_quant, char_at, class_end,
    class_escape, class_items, code_point_scan, concat_of, decimal, digit_run, digit_val_at,
    disjunction, disjunction_rest, escape_atom, group, group_prefix, hex_value,
    is_digit, name_escape, name_scan, octal_len, octal_value, peek_quant, quant_end, term,
    trailing_surrogate, AtomParsed, Parsed, Quant, MAX_GROUP_NESTING,
};
use crate::tree::{
    group_depth, group_depth_all, lemma_group_depth_push, lemma_group_depth_single, Tree,
};

verus! {

/// `s` sits in `t` at offset `k`, followed by `)`.
pub open spec fn embeds(s: Seq<char>, t: Seq<char>, k: int) -> bool {
    &&& 0 <= k
    &&& s.len() + k < t.len()
    &&& forall|j: int| 0 <= j < s.len() ==> #[trigger] t[j + k] == s[j]
    &&& t[s.len() + k] == ')'
}

/// What `t` holds at `j + k`: `s`'s character, or `)` just past `s`.
pub proof fn lemma_char_at(s: Seq<char>, t: Seq<char>, k: int, j: int)
    requires
        embeds(s, t, k),
        0 <= j <= s.len(),
    ensures
        char_at(t, j + k) == (if j < s.len() {
            char_at(s, j)
        } else {
            Some(')')
        }),
{
    if j < s.len() {
        assert(t[j + k] == s[j]);
    }
}

proof fn lemma_digit_run_bound(s: Seq<char>, i: int)
    requires
        0 <= i <= s.len(),
    ensures
        i + digit_run(s, i) <= s.len(),
    decreases s.len() - i,
{
    if i < s.len() && is_digit(s[i]) {
        lemma_digit_run_bound(s, i + 1);
    }
}

proof fn lemma_digit_run(s: Seq<char>, t: Seq<char>, k: int, i: int)
    requires
        embeds(s, t, k),
        0 <= i <= s.len(),
    ensures
        digit_run(t, i + k) == digit_run(s, i),
    decreases s.len() - i,
{
    lemma_char_at(s, t, k, i);
    if i < s.len() {
        lemma_digit_run(s, t, k, i + 1);
        assert(i + 1 + k == i + k + 1);
    }
}

proof fn lemma_decimal(s: Seq<char>, t: Seq<char>, k: int, start: int, n: nat)
    requires
        embeds(s, t, k),
        0 <= start,
        start + n <= s.len(),
    ensures
        decimal(t, start + k, n) == decimal(s, start, n),
        bound(t, start + k, n) == bound(s, start, n),
    decreases n,
{
    if n > 0 {
        lemma_decimal(s, t, k, start, (n - 1) as nat);
        lemma_char_at(s, t, k, start + n - 1);
        assert(start + k + n - 1 == start + n - 1 + k);
        assert(digit_val_at(t, start + k + n - 1) == digit_val_at(s, start + n - 1));
    }
}

/// A brace quantifier lies inside the pattern.
pub proof fn lemma_brace_quant_bound(s: Seq<char>, p: int)
    requires
        0 <= p <= s.len(),
    ensures
        brace_quant(s, p) matches Quant::Range(n) ==> 3 <= n && p + n <= s.len(),
{
    if p < s.len() {
        lemma_digit_run_bound(s, p + 1);
        let first = digit_run(s, p + 1);
        if p + 1 + first < s.len() {
            lemma_digit_run_bound(s, p + 1 + first + 1);
        }
    }
}

proof fn lemma_brace_quant(s: Seq<char>, t: Seq<char>, k: int, p: int)
    requires
        embeds(s, t, k),
        0 <= p <= s.len(),
    ensures
        brace_quant(t, p + k) == brace_quant(s, p),
{
    lemma_char_at(s, t, k, p);
    if p < s.len() && s[p] == '{' {
        lemma_digit_run_bound(s, p + 1);
        lemma_digit_run(s, t, k, p + 1);
        assert(p + k + 1 == p + 1 + k);
        let first = digit_run(s, p + 1);
        if first > 0 {
            lemma_decimal(s, t, k, p + 1, first);
            let i = 1 + first;
            lemma_char_at(s, t, k, p + i);
            assert(p + k + i == p + i + k);
            if p + i < s.len() && s[p + i] == ',' {
                lemma_digit_run_bound(s, p + i + 1);
                lemma_digit_run(s, t, k, p + i + 1);
                assert(p + k + i + 1 == p + i + 1 + k);
                let second = digit_run(s, p + i + 1);
                lemma_decimal(s, t, k, p + i + 1, second);
                lemma_char_at(s, t, k, p + i + 1 + second);
                assert(p + k + (i + 1 + second) == p + i + 1 + second + k);
            }
        }
    }
}

proof fn lemma_peek_quant(s: Seq<char>, t: Seq<char>, k: int, p: int)
    requires
        embeds(s, t, k),
        0 <= p <= s.len(),
    ensures
        peek_quant(t, p + k) == peek_quant(s, p),
{
    lemma_char_at(s, t, k, p);
    lemma_brace_quant(s, t, k, p);
}

proof fn lemma_quant_end(s: Seq<char>, t: Seq<char>, k: int, p: int)
    requires
        embeds(s, t, k),
        0 <= p <= s.len(),
    ensures
        quant_end(t, p + k) == (match quant_end(s, p) {
            Some(e) => Some(e + k),
            None => None,
        }),
        quant_end(s, p) matches Some(e) ==> p < e <= s.len(),
{
    lemma_peek_quant(s, t, k, p);
    lemma_char_at(s, t, k, p);
    lemma_brace_quant_bound(s, p);
    match peek_quant(s, p) {
        Quant::Symbol => {
            lemma_char_at(s, t, k, p + 1);
            assert(p + k + 1 == p + 1 + k);
            if p + 1 < s.len() {
                lemma_char_at(s, t, k, p + 2);
            }
        },
        Quant::Range(n) => {
            if char_at(s, p) == Some('{') {
                lemma_char_at(s, t, k, p + n);
                assert(p + k + n == p + n + k);
                if p + n < s.len() {
                    lemma_char_at(s, t, k, p + n + 1);
                }
            }
        },
        _ => {},
    }
}

proof fn lemma_hex_value_in(s: Seq<char>, i: int, n: nat)
    requires
        0 <= i <= s.len(),
        hex_value(s, i, n) is Some,
    ensures
        i + n <= s.len(),
    decreases n,
{
    if n > 0 {
        lemma_hex_value_in(s, i, (n - 1) as nat);
    }
}

proof fn lemma_hex_value(s: Seq<char>, t: Seq<char>, k: int, i: int, n: nat)
    requires
        embeds(s, t, k),
        0 <= i <= s.len(),
    ensures
        hex_value(t, i + k, n) == hex_value(s, i, n),
    decreases n,
{
    if n > 0 {
        lemma_hex_value(s, t, k, i, (n - 1) as nat);
        if hex_value(s, i, (n - 1) as nat) is Some {
            lemma_hex_value_in(s, i, (n - 1) as nat);
            lemma_char_at(s, t, k, i + n - 1);
            assert(i + k + n - 1 == i + n - 1 + k);
        }
    }
}

proof fn lemma_escape_atom(s: Seq<char>, t: Seq<char>, k: int, p: int, refs: Option<Seq<Seq<char>>>)
    requires
        embeds(s, t, k),
        0 <= p < s.len(),
        escape_atom(s, p, refs) is Some,
    ensures
        escape_atom(t, p + k, refs) == (match escape_atom(s, p, refs) {
            Some((e, q)) => Some((e + k, q)),
            None => None,
        }),
        escape_atom(s, p, refs) matches Some((e, q)) ==> p < e <= s.len(),
{
    lemma_char_at(s, t, k, p + 1);
    assert(p + k + 1 == p + 1 + k);
    if s[p + 1] == 'k' && refs is Some {
        lemma_char_at(s, t, k, p + 2);
        assert(p + k + 2 == p + 2 + k);
        lemma_name_scan(s, t, k, p + 3, seq![]);
        assert(p + k + 3 == p + 3 + k);
    }
}

proof fn lemma_octal(s: Seq<char>, t: Seq<char>, k: int, j: int)
    requires
        embeds(s, t, k),
        0 <= j < s.len(),
    ensures
        octal_len(t, j + k) == octal_len(s, j),
        j + octal_len(s, j) <= s.len(),
        octal_value(t, j + k, octal_len(s, j)) == octal_value(s, j, octal_len(s, j)),
{
    lemma_char_at(s, t, k, j);
    lemma_char_at(s, t, k, j + 1);
    assert(j + k + 1 == j + 1 + k);
    if j + 1 < s.len() {
        lemma_char_at(s, t, k, j + 2);
        assert(j + k + 2 == j + 2 + k);
    }
    let n = octal_len(s, j);
    lemma_octal_value(s, t, k, j, n);
}

proof fn lemma_octal_value(s: Seq<char>, t: Seq<char>, k: int, start: int, n: nat)
    requires
        embeds(s, t, k),
        0 <= start,
        start + n <= s.len() + 1,
    ensures
        octal_value(t, start + k, n) == octal_value(s, start, n),
    decreases n,
{
    if n > 0 {
        lemma_octal_value(s, t, k, start, (n - 1) as nat);
        lemma_char_at(s, t, k, start + n - 1);
        assert(start + k + n - 1 == start + n - 1 + k);
        assert(digit_val_at(t, start + k + n - 1) == digit_val_at(s, start + n - 1));
    }
}

proof fn lemma_class_escape(s: Seq<char>, t: Seq<char>, k: int, i: int, named: bool)
    requires
        embeds(s, t, k),
        0 <= i < s.len(),
        class_escape(s, i, named) is Some,
    ensures
        class_escape(t, i + k, named) == (match class_escape(s, i, named) {
            Some((a, e)) => Some((a, e + k)),
            None => None,
        }),
        class_escape(s, i, named) matches Some((a, e)) ==> i < e <= s.len(),
{
    lemma_char_at(s, t, k, i + 1);
    assert(i + k + 1 == i + 1 + k);
    let c = s[i + 1];
    if i + 1 < s.len() {
        lemma_char_at(s, t, k, i + 2);
        assert(i + k + 2 == i + 2 + k);
        lemma_hex_value(s, t, k, i + 2, 2);
        lemma_hex_value(s, t, k, i + 2, 4);
        if hex_value(s, i + 2, 2) is Some {
            lemma_hex_value_in(s, i + 2, 2);
        }
        if hex_value(s, i + 2, 4) is Some {
            lemma_hex_value_in(s, i + 2, 4);
        }
        lemma_octal(s, t, k, i + 1);
    }
}

proof fn lemma_class_items(s: Seq<char>, t: Seq<char>, k: int, i: int, named: bool)
    requires
        embeds(s, t, k),
        0 <= i <= s.len(),
        class_items(s, i, named) is Some,
    ensures
        class_items(t, i + k, named) == (match class_items(s, i, named) {
            Some((a, e)) => Some((a, e + k)),
            None => None,
        }),
        class_items(s, i, named) matches Some((a, e)) ==> i < e <= s.len(),
    decreases s.len() - i,
{
    lemma_char_at(s, t, k, i);
    if i < s.len() && s[i] != ']' {
        let here = if s[i] == '\\' {
            class_escape(s, i, named)
        } else if s[i] == '-' {
            Some((seq![crate::grammar::ClassAtom::Dash], i + 1))
        } else {
            Some((crate::grammar::units_of(s[i]), i + 1))
        };
        if s[i] == '\\' {
            lemma_class_escape(s, t, k, i, named);
        }
        if let Some((atoms, e)) = here {
            if i < e <= s.len() {
                lemma_class_items(s, t, k, e, named);
            }
        }
    }
}

proof fn lemma_class_end(s: Seq<char>, t: Seq<char>, k: int, p: int, named: bool)
    requires
        embeds(s, t, k),
        0 <= p < s.len(),
        class_end(s, p, named) is Some,
    ensures
        class_end(t, p + k, named) == Some(class_end(s, p, named)->0 + k),
        p < class_end(s, p, named)->0 <= s.len(),
{
    lemma_char_at(s, t, k, p + 1);
    assert(p + k + 1 == p + 1 + k);
    let start = if char_at(s, p + 1) == Some('^') {
        p + 2
    } else {
        p + 1
    };
    lemma_class_items(s, t, k, start, named);
    assert(start + k == if char_at(t, p + k + 1) == Some('^') {
        p + k + 2
    } else {
        p + k + 1
    });
}

proof fn lemma_code_point_scan(
    s: Seq<char>,
    t: Seq<char>,
    k: int,
    i: int,
    value: nat,
    digits: nat,
)
    requires
        embeds(s, t, k),
        0 <= i <= s.len(),
        code_point_scan(s, i, value, digits) is Some,
    ensures
        code_point_scan(t, i + k, value, digits) == (match code_point_scan(s, i, value, digits) {
            Some((v, e)) => Some((v, e + k)),
            None => None,
        }),
        code_point_scan(s, i, value, digits) matches Some((v, e)) ==> i < e <= s.len(),
    decreases s.len() - i,
{
    lemma_char_at(s, t, k, i);
    if i < s.len() && !(s[i] == '}' && digits > 0) {
        let v = value * 16 + crate::grammar::hex_val(s[i]);
        lemma_code_point_scan(s, t, k, i + 1, v, digits + 1);
        assert(i + k + 1 == i + 1 + k);
    }
}

proof fn lemma_trailing_surrogate(s: Seq<char>, t: Seq<char>, k: int, j: int, lead: nat)
    requires
        embeds(s, t, k),
        0 <= j <= s.len(),
        trailing_surrogate(s, j, lead) is Some,
    ensures
        trailing_surrogate(t, j + k, lead) == (match trailing_surrogate(s, j, lead) {
            Some((c, e)) => Some((c, e + k)),
            None => None,
        }),
        trailing_surrogate(s, j, lead) matches Some((c, e)) ==> j < e <= s.len(),
{
    lemma_char_at(s, t, k, j);
    lemma_char_at(s, t, k, j + 1);
    assert(j + k + 1 == j + 1 + k);
    lemma_hex_value(s, t, k, j + 2, 4);
    assert(j + k + 2 == j + 2 + k);
    lemma_hex_value_in(s, j + 2, 4);
}

proof fn lemma_name_escape(s: Seq<char>, t: Seq<char>, k: int, i: int)
    requires
        embeds(s, t, k),
        0 <= i <= s.len(),
        name_escape(s, i) is Some,
    ensures
        name_escape(t, i + k) == (match name_escape(s, i) {
            Some((c, e)) => Some((c, e + k)),
            None => None,
        }),
        name_escape(s, i) matches Some((c, e)) ==> i < e <= s.len(),
{
    lemma_char_at(s, t, k, i);
    lemma_char_at(s, t, k, i + 1);
    assert(i + k + 1 == i + 1 + k);
    lemma_char_at(s, t, k, i + 2);
    assert(i + k + 2 == i + 2 + k);
    if char_at(s, i + 2) == Some('{') {
        lemma_code_point_scan(s, t, k, i + 3, 0, 0);
        assert(i + k + 3 == i + 3 + k);
    } else {
        lemma_hex_value(s, t, k, i + 2, 4);
        lemma_hex_value_in(s, i + 2, 4);
        let v = hex_value(s, i + 2, 4)->0;
        if 0xd800 <= v <= 0xdbff {
            lemma_trailing_surrogate(s, t, k, i + 6, v);
            assert(i + k + 6 == i + 6 + k);
        }
    }
}

proof fn lemma_name_scan(s: Seq<char>, t: Seq<char>, k: int, i: int, acc: Seq<char>)
    requires
        embeds(s, t, k),
        0 <= i <= s.len(),
        name_scan(s, i, acc) is Some,
    ensures
        name_scan(t, i + k, acc) == (match name_scan(s, i, acc) {
            Some((name, e)) => Some((name, e + k)),
            None => None,
        }),
        name_scan(s, i, acc) matches Some((name, e)) ==> i <= e < s.len(),
    decreases s.len() - i,
{
    lemma_char_at(s, t, k, i);
    if i < s.len() && s[i] != '>' {
        if s[i] == '\\' {
            lemma_name_escape(s, t, k, i);
            let (c, e) = name_escape(s, i)->0;
            lemma_name_scan(s, t, k, e, acc.push(c));
        } else {
            lemma_name_scan(s, t, k, i + 1, acc.push(s[i]));
            assert(i + k + 1 == i + 1 + k);
        }
    }
}

proof fn lemma_group_prefix(s: Seq<char>, t: Seq<char>, k: int, q: int, names: Seq<Seq<char>>)
    requires
        embeds(s, t, k),
        0 <= q <= s.len(),
        group_prefix(s, q, names) is Some,
    ensures
        group_prefix(t, q + k, names) == (match group_prefix(s, q, names) {
            Some((b, qf, ns)) => Some((b + k, qf, ns)),
            None => None,
        }),
        group_prefix(s, q, names) matches Some((b, qf, ns)) ==> q <= b <= s.len(),
{
    reveal(group_prefix);
    lemma_char_at(s, t, k, q);
    if q < s.len() && s[q] == '?' {
        lemma_char_at(s, t, k, q + 1);
        assert(q + k + 1 == q + 1 + k);
        if q + 1 < s.len() {
            lemma_char_at(s, t, k, q + 2);
            assert(q + k + 2 == q + 2 + k);
            if s[q + 1] == '<' && !(char_at(s, q + 2) == Some('=') || char_at(s, q + 2) == Some(
                '!',
            )) {
                lemma_name_scan(s, t, k, q + 2, seq![]);
            }
        }
    }
}

/// A parsed piece moved `k` positions on.
pub open spec fn shifted(r: Parsed, k: int) -> Parsed {
    Parsed { tree: r.tree, end: r.end + k, names: r.names }
}

/// A parsed atom moved `k` positions on.
pub open spec fn shifted_atom(r: AtomParsed, k: int) -> AtomParsed {
    AtomParsed { tree: r.tree, quantifiable: r.quantifiable, end: r.end + k, names: r.names }
}

proof fn lemma_depth_alt_of_eq(bs: Seq<Tree>)
    requires
        bs.len() >= 1,
    ensures
        group_depth(alt_of(bs)) == group_depth_all(bs),
{
    if bs.len() == 1 {
        assert(bs =~= seq![bs[0]]);
        lemma_group_depth_single(bs[0]);
    }
}

proof fn lemma_depth_concat_of_eq(ts: Seq<Tree>)
    ensures
        group_depth(concat_of(ts)) == group_depth_all(ts),
{
    if ts.len() == 1 {
        assert(ts =~= seq![ts[0]]);
        lemma_group_depth_single(ts[0]);
    }
}

/// The branches read so far nest no deeper than the whole disjunction.
proof fn lemma_disjunction_rest_depth(
    s: Seq<char>,
    p: int,
    d: nat,
    refs: Option<Seq<Seq<char>>>,
    names: Seq<Seq<char>>,
    branches: Seq<Tree>,
)
    requires
        branches.len() >= 1,
        disjunction_rest(s, p, d, refs, names, branches) is Some,
    ensures
        group_depth_all(branches) <= group_depth(
            disjunction_rest(s, p, d, refs, names, branches)->0.tree,
        ),
    decreases s.len() - p,
{
    if 0 <= p < s.len() && s[p] == '|' {
        let a = alternative(s, p + 1, d, refs, names)->0;
        lemma_group_depth_push(branches, a.tree);
        lemma_disjunction_rest_depth(s, a.end, d, refs, a.names, branches.push(a.tree));
    } else {
        lemma_depth_alt_of_eq(branches);
    }
}

/// The terms read so far nest no deeper than the whole alternative.
proof fn lemma_alternative_rest_depth(
    s: Seq<char>,
    p: int,
    d: nat,
    refs: Option<Seq<Seq<char>>>,
    names: Seq<Seq<char>>,
    terms: Seq<Tree>,
)
    requires
        alternative_rest(s, p, d, refs, names, terms) is Some,
    ensures
        group_depth_all(terms) <= group_depth(
            alternative_rest(s, p, d, refs, names, terms)->0.tree,
        ),
    decreases s.len() - p,
{
    if p == s.len() || s[p] == '|' || s[p] == ')' {
        lemma_depth_concat_of_eq(terms);
    } else {
        let t = term(s, p, d, refs, names)->0;
        lemma_group_depth_push(terms, t.tree);
        lemma_alternative_rest_depth(s, t.end, d, refs, t.names, terms.push(t.tree));
    }
}

/// A disjunction of `s` reads the same inside `t`, `dd` groups deeper, as
/// long as that extra depth stays within the nesting limit.
#[verifier::spinoff_prover]
#[verifier::rlimit(80)]
pub proof fn lemma_disjunction(
    s: Seq<char>,
    t: Seq<char>,
    k: int,
    dd: nat,
    p: int,
    d: nat,
    refs: Option<Seq<Seq<char>>>,
    names: Seq<Seq<char>>,
)
    requires
        embeds(s, t, k),
        0 <= p <= s.len(),
        disjunction(s, p, d, refs, names) is Some,
        group_depth(disjunction(s, p, d, refs, names)->0.tree) + d + dd <= MAX_GROUP_NESTING,
    ensures
        disjunction(t, p + k, d + dd, refs, names) == Some(
            shifted(disjunction(s, p, d, refs, names)->0, k),
        ),
        p <= disjunction(s, p, d, refs, names)->0.end <= s.len(),
    decreases s.len() - p, 6int,
{
    let a = alternative(s, p, d, refs, names)->0;
    let r = disjunction(s, p, d, refs, names)->0;
    lemma_disjunction_rest_depth(s, a.end, d, refs, a.names, seq![a.tree]);
    lemma_group_depth_single(a.tree);
    lemma_alternative(s, t, k, dd, p, d, refs, names);
    lemma_disjunction_rest(s, t, k, dd, a.end, d, refs, a.names, seq![a.tree]);
}

proof fn lemma_disjunction_rest(
    s: Seq<char>,
    t: Seq<char>,
    k: int,
    dd: nat,
    p: int,
    d: nat,
    refs: Option<Seq<Seq<char>>>,
    names: Seq<Seq<char>>,
    branches: Seq<Tree>,
)
    requires
        embeds(s, t, k),
        0 <= p <= s.len(),
        branches.len() >= 1,
        disjunction_rest(s, p, d, refs, names, branches) is Some,
        group_depth(disjunction_rest(s, p, d, refs, names, branches)->0.tree) + d + dd
            <= MAX_GROUP_NESTING,
    ensures
        disjunction_rest(t, p + k, d + dd, refs, names, branches) == Some(
            shifted(disjunction_rest(s, p, d, refs, names, branches)->0, k),
        ),
        p <= disjunction_rest(s, p, d, refs, names, branches)->0.end <= s.len(),
    decreases s.len() - p, 5int,
{
    lemma_char_at(s, t, k, p);
    if p < s.len() && s[p] == '|' {
        let a = alternative(s, p + 1, d, refs, names)->0;
        lemma_disjunction_rest_depth(s, a.end, d, refs, a.names, branches.push(a.tree));
        lemma_group_depth_push(branches, a.tree);
        lemma_alternative(s, t, k, dd, p + 1, d, refs, names);
        assert(p + k + 1 == p + 1 + k);
        lemma_disjunction_rest(s, t, k, dd, a.end, d, refs, a.names, branches.push(a.tree));
    }
}

proof fn lemma_alternative(
    s: Seq<char>,
    t: Seq<char>,
    k: int,
    dd: nat,
    p: int,
    d: nat,
    refs: Option<Seq<Seq<char>>>,
    names: Seq<Seq<char>>,
)
    requires
        embeds(s, t, k),
        0 <= p <= s.len(),
        alternative(s, p, d, refs, names) is Some,
        group_depth(alternative(s, p, d, refs, names)->0.tree) + d + dd <= MAX_GROUP_NESTING,
    ensures
        alternative(t, p + k, d + dd, refs, names) == Some(
            shifted(alternative(s, p, d, refs, names)->0, k),
        ),
        p <= alternative(s, p, d, refs, names)->0.end <= s.len(),
    decreases s.len() - p, 4int,
{
    lemma_alternative_rest(s, t, k, dd, p, d, refs, names, seq![]);
}

proof fn lemma_alternative_rest(
    s: Seq<char>,
    t: Seq<char>,
    k: int,
    dd: nat,
    p: int,
    d: nat,
    refs: Option<Seq<Seq<char>>>,
    names: Seq<Seq<char>>,
    terms: Seq<Tree>,
)
    requires
        embeds(s, t, k),
        0 <= p <= s.len(),
        alternative_rest(s, p, d, refs, names, terms) is Some,
        group_depth(alternative_rest(s, p, d, refs, names, terms)->0.tree) + d + dd
            <= MAX_GROUP_NESTING,
    ensures
        alternative_rest(t, p + k, d + dd, refs, names, terms) == Some(
            shifted(alternative_rest(s, p, d, refs, names, terms)->0, k),
        ),
        p <= alternative_rest(s, p, d, refs, names, terms)->0.end <= s.len(),
    decreases s.len() - p, 3int,
{
    lemma_char_at(s, t, k, p);
    if !(p == s.len() || s[p] == '|' || s[p] == ')') {
        let tm = term(s, p, d, refs, names)->0;
        lemma_alternative_rest_depth(s, tm.end, d, refs, tm.names, terms.push(tm.tree));
        lemma_group_depth_push(terms, tm.tree);
        lemma_term(s, t, k, dd, p, d, refs, names);
        lemma_alternative_rest(s, t, k, dd, tm.end, d, refs, tm.names, terms.push(tm.tree));
    }
}

proof fn lemma_term(
    s: Seq<char>,
    t: Seq<char>,
    k: int,
    dd: nat,
    p: int,
    d: nat,
    refs: Option<Seq<Seq<char>>>,
    names: Seq<Seq<char>>,
)
    requires
        embeds(s, t, k),
        0 <= p <= s.len(),
        term(s, p, d, refs, names) is Some,
        group_depth(term(s, p, d, refs, names)->0.tree) + d + dd <= MAX_GROUP_NESTING,
    ensures
        term(t, p + k, d + dd, refs, names) == Some(shifted(term(s, p, d, refs, names)->0, k)),
        p < term(s, p, d, refs, names)->0.end <= s.len(),
    decreases s.len() - p, 2int,
{
    let a = atom(s, p, d, refs, names)->0;
    assert(group_depth(a.tree) == group_depth(term(s, p, d, refs, names)->0.tree));
    lemma_atom(s, t, k, dd, p, d, refs, names);
    lemma_peek_quant(s, t, k, a.end);
    lemma_quant_end(s, t, k, a.end);
    if let Some(e) = quant_end(s, a.end) {
        lemma_peek_quant(s, t, k, e);
    }
}

#[verifier::spinoff_prover]
#[verifier::rlimit(80)]
proof fn lemma_atom(
    s: Seq<char>,
    t: Seq<char>,
    k: int,
    dd: nat,
    p: int,
    d: nat,
    refs: Option<Seq<Seq<char>>>,
    names: Seq<Seq<char>>,
)
    requires
        embeds(s, t, k),
        0 <= p <= s.len(),
        atom(s, p, d, refs, names) is Some,
        group_depth(atom(s, p, d, refs, names)->0.tree) + d + dd <= MAX_GROUP_NESTING,
    ensures
        atom(t, p + k, d + dd, refs, names) == Some(shifted_atom(atom(s, p, d, refs, names)->0, k)),
        p < atom(s, p, d, refs, names)->0.end <= s.len(),
    decreases s.len() - p, 1int,
{
    lemma_char_at(s, t, k, p);
    let c = s[p];
    if c == '(' {
        lemma_group(s, t, k, dd, p, d, refs, names);
    } else if c == '[' {
        lemma_class_end(s, t, k, p, refs is Some);
    } else if c == '\\' {
        lemma_escape_atom(s, t, k, p, refs);
    } else if c == '{' {
        lemma_brace_quant(s, t, k, p);
    }
}

#[verifier::spinoff_prover]
#[verifier::rlimit(100)]
proof fn lemma_group(
    s: Seq<char>,
    t: Seq<char>,
    k: int,
    dd: nat,
    p: int,
    d: nat,
    refs: Option<Seq<Seq<char>>>,
    names: Seq<Seq<char>>,
)
    requires
        embeds(s, t, k),
        0 <= p < s.len(),
        group(s, p, d, refs, names) is Some,
        group_depth(group(s, p, d, refs, names)->0.tree) + d + dd <= MAX_GROUP_NESTING,
    ensures
        group(t, p + k, d + dd, refs, names) == Some(
            shifted_atom(group(s, p, d, refs, names)->0, k),
        ),
        p < group(s, p, d, refs, names)->0.end <= s.len(),
    decreases s.len() - p, 0int,
{
    let (b, quantifiable, names2, r) = lemma_group_inv(s, p, d, refs, names);
    lemma_group_body_shift(s, t, k, dd, p + 1, d + 1, refs, names, b, quantifiable, names2, r);
    assert(p + k + 1 == p + 1 + k);
    lemma_group_parts(
        t,
        p + k,
        d + dd,
        refs,
        names,
        b + k,
        quantifiable,
        names2,
        d + 1 + dd,
        shifted(r, k),
    );
    let ga = AtomParsed {
        tree: Tree::Group(Box::new(r.tree)),
        quantifiable,
        end: r.end + 1,
        names: r.names,
    };
    let gt = AtomParsed {
        tree: Tree::Group(Box::new(r.tree)),
        quantifiable,
        end: r.end + k + 1,
        names: r.names,
    };
    assert(shifted(r, k).tree == r.tree && shifted(r, k).names == r.names);
    assert(group(t, p + k, d + dd, refs, names) == Some(gt));
    assert(group(s, p, d, refs, names) == Some(ga));
    assert(shifted_atom(ga, k) == gt);
}

/// The prefix, body and closing `)` of a group read the same inside `t`.
proof fn lemma_group_body_shift(
    s: Seq<char>,
    t: Seq<char>,
    k: int,
    dd: nat,
    q: int,
    d: nat,
    refs: Option<Seq<Seq<char>>>,
    names: Seq<Seq<char>>,
    b: int,
    quantifiable: bool,
    names2: Seq<Seq<char>>,
    r: Parsed,
)
    requires
        embeds(s, t, k),
        0 <= q <= b <= s.len(),
        group_prefix(s, q, names) == Some((b, quantifiable, names2)),
        disjunction(s, b, d, refs, names2) == Some(r),
        char_at(s, r.end) == Some(')'),
        group_depth(r.tree) + d + dd <= MAX_GROUP_NESTING,
    ensures
        group_prefix(t, q + k, names) == Some((b + k, quantifiable, names2)),
        disjunction(t, b + k, d + dd, refs, names2) == Some(shifted(r, k)),
        char_at(t, r.end + k) == Some(')'),
        b <= r.end < s.len(),
    decreases s.len() - b, 7int,
{
    lemma_group_prefix(s, t, k, q, names);
    lemma_disjunction(s, t, k, dd, b, d, refs, names2);
    lemma_char_at(s, t, k, r.end);
}

/// The parts of an accepted group.
proof fn lemma_group_inv(
    s: Seq<char>,
    p: int,
    d: nat,
    refs: Option<Seq<Seq<char>>>,
    names: Seq<Seq<char>>,
) -> (parts: (
    int,
    bool,
    Seq<Seq<char>>,
    Parsed,
))
    requires
        group(s, p, d, refs, names) is Some,
    ensures
        d < MAX_GROUP_NESTING,
        0 <= p < p + 1 <= parts.0 <= s.len(),
        group_prefix(s, p + 1, names) == Some((parts.0, parts.1, parts.2)),
        disjunction(s, parts.0, d + 1, refs, parts.2) == Some(parts.3),
        char_at(s, parts.3.end) == Some(')'),
        group(s, p, d, refs, names) == Some(
            AtomParsed {
                tree: Tree::Group(Box::new(parts.3.tree)),
                quantifiable: parts.1,
                end: parts.3.end + 1,
                names: parts.3.names,
            },
        ),
        group_depth(Tree::Group(Box::new(parts.3.tree))) == 1 + group_depth(parts.3.tree),
{
    let (b, quantifiable, names2) = group_prefix(s, p + 1, names)->0;
    (b, quantifiable, names2, disjunction(s, b, d + 1, refs, names2)->0)
}

/// A group from its parts: the prefix, the body, and the closing `)`.
pub proof fn lemma_group_parts(
    s: Seq<char>,
    p: int,
    d: nat,
    refs: Option<Seq<Seq<char>>>,
    names: Seq<Seq<char>>,
    b: int,
    quantifiable: bool,
    names2: Seq<Seq<char>>,
    d2: nat,
    r: Parsed,
)
    requires
        0 <= p < p + 1 <= b <= s.len(),
        d < MAX_GROUP_NESTING,
        d2 == d + 1,
        group_prefix(s, p + 1, names) == Some((b, quantifiable, names2)),
        disjunction(s, b, d2, refs, names2) == Some(r),
        char_at(s, r.end) == Some(')'),
    ensures
        group(s, p, d, refs, names) == Some(
            AtomParsed {
                tree: Tree::Group(Box::new(r.tree)),
                quantifiable,
                end: r.end + 1,
                names: r.names,
            },
        ),
{
}

} // verus!
