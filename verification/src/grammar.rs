//! The accepted language of JavaScript-syntax regular expressions (without
//! flags, as `new RegExp(pattern)` reads them) and the reduced tree of each
//! accepted pattern, stated as pure functions over the pattern's characters.
//!
//! Every function reads the pattern `s` from position `p` and answers with the
//! position after what it read, or `None` when the text there is not valid.
//! Named capture groups thread the list of names seen so far, since a name may
//! be used once per pattern. A pattern with a named group is read a second
//! time in named-group mode (`refs` holds all its group names), where `\k`
//! must be a reference `\k<name>` to one of them and `\k` in a class is
//! refused. Groups nest at most `MAX_GROUP_NESTING` deep.
use vstd::prelude::*;

use crate::ident::{spec_char_from_u32, spec_is_group_name};
use crate::tree::Tree;

verus! {

/// Deepest group nesting the parser accepts.
pub const MAX_GROUP_NESTING: usize = 256;

/// The character at index `i`, if there is one.
pub open spec fn char_at(s: Seq<char>, i: int) -> Option<char> {
    if 0 <= i < s.len() {
        Some(s[i])
    } else {
        None
    }
}

/// An ASCII decimal digit.
pub open spec fn is_digit(c: char) -> bool {
    '0' <= c <= '9'
}

/// An ASCII hexadecimal digit.
pub open spec fn is_hex(c: char) -> bool {
    ||| '0' <= c <= '9'
    ||| 'a' <= c <= 'f'
    ||| 'A' <= c <= 'F'
}

/// The value of a hexadecimal digit.
pub open spec fn hex_val(c: char) -> nat {
    if '0' <= c <= '9' {
        (c as nat - '0' as nat) as nat
    } else if 'a' <= c <= 'f' {
        (c as nat - 'a' as nat + 10) as nat
    } else {
        (c as nat - 'A' as nat + 10) as nat
    }
}

/// An ASCII octal digit.
pub open spec fn is_octal(c: char) -> bool {
    '0' <= c <= '7'
}

/// What sits at a position in quantifier place.
pub enum Quant {
    /// No quantifier. A brace here is a literal.
    Absent,
    /// A `*`, `+`, or `?` quantifier.
    Symbol,
    /// A well-formed brace quantifier, with its length in characters.
    Range(nat),
    /// A brace range `{n,m}` with `n > m`: a syntax error, not a literal.
    InvalidRange,
}

/// Length of the run of ASCII digits starting at `i`.
pub open spec fn digit_run(s: Seq<char>, i: int) -> nat
    decreases s.len() - i,
{
    if 0 <= i < s.len() && is_digit(s[i]) {
        1 + digit_run(s, i + 1)
    } else {
        0
    }
}

/// The value of the digit at `i`, 0 where there is none.
pub open spec fn digit_val_at(s: Seq<char>, i: int) -> nat {
    match char_at(s, i) {
        Some(c) => if is_digit(c) {
            (c as nat - '0' as nat) as nat
        } else {
            0
        },
        None => 0,
    }
}

/// The decimal number written by the `k` characters from `start`.
pub open spec fn decimal(s: Seq<char>, start: int, k: nat) -> nat
    decreases k,
{
    if k == 0 {
        0
    } else {
        decimal(s, start, (k - 1) as nat) * 10 + digit_val_at(s, start + k - 1)
    }
}

/// A brace bound: the decimal value, capped at `u64::MAX`.
pub open spec fn bound(s: Seq<char>, start: int, k: nat) -> nat {
    let v = decimal(s, start, k);
    if v > u64::MAX {
        u64::MAX as nat
    } else {
        v
    }
}

/// Classify a brace at `p`: `{n}`, `{n,}`, `{n,m}` with digit-run bounds are
/// quantifiers (reversed `{n,m}` is an error); anything else is a literal.
pub open spec fn brace_quant(s: Seq<char>, p: int) -> Quant {
    if char_at(s, p) != Some('{') {
        Quant::Absent
    } else {
        let first = digit_run(s, p + 1);
        if first == 0 {
            Quant::Absent
        } else {
            let lower = bound(s, p + 1, first);
            let i = 1 + first;
            if char_at(s, p + i) == Some('}') {
                Quant::Range((i + 1) as nat)
            } else if char_at(s, p + i) == Some(',') {
                let second = digit_run(s, p + i + 1);
                let upper = bound(s, p + i + 1, second);
                let k = i + 1 + second;
                if char_at(s, p + k) != Some('}') {
                    Quant::Absent
                } else if second > 0 && upper < lower {
                    Quant::InvalidRange
                } else {
                    Quant::Range((k + 1) as nat)
                }
            } else {
                Quant::Absent
            }
        }
    }
}

/// Classify what sits at `p` in quantifier place.
pub open spec fn peek_quant(s: Seq<char>, p: int) -> Quant {
    match char_at(s, p) {
        Some(c) => if c == '*' || c == '+' || c == '?' {
            Quant::Symbol
        } else if c == '{' {
            brace_quant(s, p)
        } else {
            Quant::Absent
        },
        None => Quant::Absent,
    }
}

/// The position after the quantifier at `p`, including a lazy `?`.
pub open spec fn quant_end(s: Seq<char>, p: int) -> Option<int> {
    let e = match peek_quant(s, p) {
        Quant::Symbol => Some(p + 1),
        Quant::Range(n) => if char_at(s, p) == Some('{') {
            Some(p + n)
        } else {
            None
        },
        _ => None,
    };
    match e {
        Some(e) => if char_at(s, e) == Some('?') {
            Some(e + 1)
        } else {
            Some(e)
        },
        None => None,
    }
}

/// The value of the `n` hexadecimal digits from `i`, if all `n` are there.
pub open spec fn hex_value(s: Seq<char>, i: int, n: nat) -> Option<nat>
    decreases n,
{
    if n == 0 {
        Some(0)
    } else {
        match hex_value(s, i, (n - 1) as nat) {
            None => None,
            Some(v) => match char_at(s, i + n - 1) {
                Some(c) => if is_hex(c) {
                    Some(v * 16 + hex_val(c))
                } else {
                    None
                },
                None => None,
            },
        }
    }
}

/// An escape `\X` outside a class at `p`: the position after it and whether a
/// quantifier may follow (`\b` and `\B` are zero-width). In named-group mode
/// (`refs` holds the pattern's group names) `\k` must be a reference
/// `\k<name>` to one of them.
pub open spec fn escape_atom(s: Seq<char>, p: int, refs: Option<Seq<Seq<char>>>) -> Option<
    (int, bool),
> {
    match char_at(s, p + 1) {
        None => None,
        Some(c) => if c == 'k' && refs is Some {
            if char_at(s, p + 2) != Some('<') {
                None
            } else {
                match name_scan(s, p + 3, seq![]) {
                    None => None,
                    Some((name, gt)) => if refs->0.contains(name) {
                        Some((gt + 1, true))
                    } else {
                        None
                    },
                }
            }
        } else {
            Some((p + 2, !(c == 'b' || c == 'B')))
        },
    }
}

// ---------------------------------------------------------------------------
// Character classes
// ---------------------------------------------------------------------------

/// One item of a character class, by UTF-16 code unit.
#[derive(PartialEq, Eq, Structural, Clone, Copy)]
pub enum ClassAtom {
    /// An unescaped `-`, which may join two items into a range.
    Dash,
    /// A single code unit.
    Unit(u32),
    /// A class escape that stands for a set (`\d`, `\D`, `\s`, `\S`, `\w`, `\W`).
    SetEscape,
}

/// The code unit a class item stands for in a range, if any.
pub open spec fn atom_unit(a: ClassAtom) -> Option<u32> {
    match a {
        ClassAtom::Dash => Some(0x2d),
        ClassAtom::Unit(u) => Some(u),
        ClassAtom::SetEscape => None,
    }
}

/// A range `a-b` is reversed when both ends are code units and `a > b`.
pub open spec fn reversed(a: ClassAtom, b: ClassAtom) -> bool {
    match (atom_unit(a), atom_unit(b)) {
        (Some(x), Some(y)) => x > y,
        _ => false,
    }
}

/// Whether the class items form valid ranges: read left to right, an item
/// followed by a dash and a third item is a range, which must not be reversed.
pub open spec fn ranges_ok(a: Seq<ClassAtom>) -> bool
    decreases a.len(),
{
    if a.len() == 0 {
        true
    } else if a.len() >= 3 && a[1] == ClassAtom::Dash {
        !reversed(a[0], a[2]) && ranges_ok(a.subrange(3, a.len() as int))
    } else {
        ranges_ok(a.subrange(1, a.len() as int))
    }
}

/// The UTF-16 code units of a character.
pub open spec fn units_of(c: char) -> Seq<ClassAtom> {
    let v = c as nat;
    if v < 0x10000 {
        seq![ClassAtom::Unit(v as u32)]
    } else {
        seq![
            ClassAtom::Unit((0xd800 + (v - 0x10000) / 0x400) as u32),
            ClassAtom::Unit((0xdc00 + (v - 0x10000) % 0x400) as u32),
        ]
    }
}

/// The character `\c` may take inside a class.
pub open spec fn is_class_control(c: char) -> bool {
    ||| 'a' <= c <= 'z'
    ||| 'A' <= c <= 'Z'
    ||| '0' <= c <= '9'
    ||| c == '_'
}

/// The value of the control escapes `\f`, `\n`, `\r`, `\t`, `\v`.
pub open spec fn control_escape(c: char) -> Option<u32> {
    if c == 'f' {
        Some(0x0c)
    } else if c == 'n' {
        Some(0x0a)
    } else if c == 'r' {
        Some(0x0d)
    } else if c == 't' {
        Some(0x09)
    } else if c == 'v' {
        Some(0x0b)
    } else {
        None
    }
}

/// Number of digits of a legacy octal escape whose first digit is at `j`: up
/// to three when it starts with 0 to 3, up to two otherwise.
pub open spec fn octal_len(s: Seq<char>, j: int) -> nat {
    let second = match char_at(s, j + 1) {
        Some(c) => is_octal(c),
        None => false,
    };
    let third = match char_at(s, j + 2) {
        Some(c) => is_octal(c),
        None => false,
    };
    let low = match char_at(s, j) {
        Some(c) => c <= '3',
        None => false,
    };
    if !second {
        1
    } else if low && third {
        3
    } else {
        2
    }
}

/// The octal number written by the `k` characters from `start`.
pub open spec fn octal_value(s: Seq<char>, start: int, k: nat) -> nat
    decreases k,
{
    if k == 0 {
        0
    } else {
        octal_value(s, start, (k - 1) as nat) * 8 + digit_val_at(s, start + k - 1)
    }
}

/// A class escape at `i` (which holds `\`): the items it stands for and the
/// position after it. `\c` without a control letter leaves the backslash
/// alone as a literal. In named-group mode (`named`) `\k` is an error.
pub open spec fn class_escape(s: Seq<char>, i: int, named: bool) -> Option<(Seq<ClassAtom>, int)> {
    match char_at(s, i + 1) {
        None => None,
        Some(c) => if c == 'k' && named {
            None
        } else if c == 'b' {
            Some((seq![ClassAtom::Unit(8)], i + 2))
        } else if c == 'd' || c == 'D' || c == 's' || c == 'S' || c == 'w' || c == 'W' {
            Some((seq![ClassAtom::SetEscape], i + 2))
        } else if control_escape(c) is Some {
            Some((seq![ClassAtom::Unit(control_escape(c)->0)], i + 2))
        } else if c == 'c' {
            match char_at(s, i + 2) {
                Some(x) => if is_class_control(x) {
                    Some((seq![ClassAtom::Unit(((x as nat) % 32) as u32)], i + 3))
                } else {
                    Some((seq![ClassAtom::Unit(0x5c)], i + 1))
                },
                None => Some((seq![ClassAtom::Unit(0x5c)], i + 1)),
            }
        } else if c == 'x' {
            match hex_value(s, i + 2, 2) {
                Some(v) => Some((seq![ClassAtom::Unit(v as u32)], i + 4)),
                None => Some((seq![ClassAtom::Unit(0x78)], i + 2)),
            }
        } else if c == 'u' {
            match hex_value(s, i + 2, 4) {
                Some(v) => Some((seq![ClassAtom::Unit(v as u32)], i + 6)),
                None => Some((seq![ClassAtom::Unit(0x75)], i + 2)),
            }
        } else if is_octal(c) {
            let n = octal_len(s, i + 1);
            Some((seq![ClassAtom::Unit(octal_value(s, i + 1, n) as u32)], i + 1 + n))
        } else {
            Some((units_of(c), i + 2))
        },
    }
}

/// The items of a class from `i` up to its closing `]`, and the position after
/// that bracket.
pub open spec fn class_items(s: Seq<char>, i: int, named: bool) -> Option<(Seq<ClassAtom>, int)>
    decreases s.len() - i,
{
    if !(0 <= i < s.len()) {
        None
    } else if s[i] == ']' {
        Some((seq![], i + 1))
    } else {
        let here = if s[i] == '\\' {
            class_escape(s, i, named)
        } else if s[i] == '-' {
            Some((seq![ClassAtom::Dash], i + 1))
        } else {
            Some((units_of(s[i]), i + 1))
        };
        match here {
            None => None,
            Some((atoms, e)) => if !(i < e <= s.len()) {
                None
            } else {
                match class_items(s, e, named) {
                    None => None,
                    Some((rest, end)) => Some((atoms + rest, end)),
                }
            },
        }
    }
}

/// A class starting at `p` (which holds `[`): the position after it, when its
/// items are all there and form valid ranges.
pub open spec fn class_end(s: Seq<char>, p: int, named: bool) -> Option<int> {
    let start = if char_at(s, p + 1) == Some('^') {
        p + 2
    } else {
        p + 1
    };
    match class_items(s, start, named) {
        None => None,
        Some((atoms, end)) => if ranges_ok(atoms) {
            Some(end)
        } else {
            None
        },
    }
}

// ---------------------------------------------------------------------------
// Group names
// ---------------------------------------------------------------------------

/// Digits of a `\u{...}` escape from `i`: at least one hex digit, the value
/// never above 0x10FFFF, closed by `}`. Answers the value and the position
/// after `}`.
pub open spec fn code_point_scan(s: Seq<char>, i: int, value: nat, digits: nat) -> Option<
    (nat, int),
>
    decreases s.len() - i,
{
    if !(0 <= i < s.len()) {
        None
    } else if s[i] == '}' && digits > 0 {
        Some((value, i + 1))
    } else if is_hex(s[i]) {
        let v = value * 16 + hex_val(s[i]);
        if v > 0x10ffff {
            None
        } else {
            code_point_scan(s, i + 1, v, digits + 1)
        }
    } else {
        None
    }
}

/// The second half `\uDC00`-`\uDFFF` of a surrogate pair at `j`, joined with
/// the lead half.
pub open spec fn trailing_surrogate(s: Seq<char>, j: int, lead: nat) -> Option<(char, int)> {
    if char_at(s, j) != Some('\\') || char_at(s, j + 1) != Some('u') {
        None
    } else {
        match hex_value(s, j + 2, 4) {
            None => None,
            Some(trail) => if !(0xdc00 <= trail <= 0xdfff) {
                None
            } else {
                match spec_char_from_u32(
                    (0x10000 + (lead - 0xd800) * 0x400 + (trail - 0xdc00)) as u32,
                ) {
                    Some(c) => Some((c, j + 6)),
                    None => None,
                }
            },
        }
    }
}

/// A `\u` escape inside a group name at `i`: the character and the position
/// after the escape.
pub open spec fn name_escape(s: Seq<char>, i: int) -> Option<(char, int)> {
    if char_at(s, i) != Some('\\') || char_at(s, i + 1) != Some('u') {
        None
    } else if char_at(s, i + 2) == Some('{') {
        match code_point_scan(s, i + 3, 0, 0) {
            None => None,
            Some((v, e)) => match spec_char_from_u32(v as u32) {
                Some(c) => Some((c, e)),
                None => None,
            },
        }
    } else {
        match hex_value(s, i + 2, 4) {
            None => None,
            Some(v) => if 0xd800 <= v <= 0xdbff {
                trailing_surrogate(s, i + 6, v)
            } else if 0xdc00 <= v <= 0xdfff {
                None
            } else {
                match spec_char_from_u32(v as u32) {
                    Some(c) => Some((c, i + 6)),
                    None => None,
                }
            },
        }
    }
}

/// The characters of a group name from `i` up to its `>`, with the position of
/// that `>`. `acc` holds the name read so far.
pub open spec fn name_scan(s: Seq<char>, i: int, acc: Seq<char>) -> Option<(Seq<char>, int)>
    decreases s.len() - i,
{
    if !(0 <= i < s.len()) {
        None
    } else if s[i] == '>' {
        Some((acc, i))
    } else if s[i] == '\\' {
        match name_escape(s, i) {
            None => None,
            Some((c, e)) => if !(i < e <= s.len()) {
                None
            } else {
                name_scan(s, e, acc.push(c))
            },
        }
    } else {
        name_scan(s, i + 1, acc.push(s[i]))
    }
}

/// What follows `(` at `q`: the position where the group's body starts,
/// whether the group may be quantified (a lookbehind may not), and the names
/// seen so far, with a new group name added. Fails on an unknown `(?`
/// prefix, an invalid name, or a name used before.
#[verifier::opaque]
pub open spec fn group_prefix(s: Seq<char>, q: int, names: Seq<Seq<char>>) -> Option<
    (int, bool, Seq<Seq<char>>),
> {
    if char_at(s, q) != Some('?') {
        Some((q, true, names))
    } else {
        match char_at(s, q + 1) {
            None => None,
            Some(c) => if c == ':' || c == '=' || c == '!' {
                Some((q + 2, true, names))
            } else if c == '<' {
                if char_at(s, q + 2) == Some('=') || char_at(s, q + 2) == Some('!') {
                    Some((q + 3, false, names))
                } else {
                    match name_scan(s, q + 2, seq![]) {
                        None => None,
                        Some((name, gt)) => if !spec_is_group_name(name) || names.contains(
                            name,
                        ) {
                            None
                        } else {
                            Some((gt + 1, true, names.push(name)))
                        },
                    }
                }
            } else {
                None
            },
        }
    }
}

// ---------------------------------------------------------------------------
// The recursive structure
// ---------------------------------------------------------------------------

/// A parsed piece: its tree, the position after it, the names seen so far.
pub struct Parsed {
    /// The tree of what was read.
    pub tree: Tree,
    /// The position after what was read.
    pub end: int,
    /// The group names seen so far, in order.
    pub names: Seq<Seq<char>>,
}

/// A parsed atom, with whether a quantifier may follow it.
pub struct AtomParsed {
    /// The tree of the atom.
    pub tree: Tree,
    /// Whether a quantifier may follow it.
    pub quantifiable: bool,
    /// The position after the atom.
    pub end: int,
    /// The group names seen so far, in order.
    pub names: Seq<Seq<char>>,
}

/// The tree of a list of alternatives: the only one, or their `Alt`.
pub open spec fn alt_of(branches: Seq<Tree>) -> Tree {
    if branches.len() == 1 {
        branches[0]
    } else {
        Tree::Alt(branches)
    }
}

/// The tree of a list of terms: `Empty`, the only one, or their `Concat`.
pub open spec fn concat_of(terms: Seq<Tree>) -> Tree {
    if terms.len() == 0 {
        Tree::Empty
    } else if terms.len() == 1 {
        terms[0]
    } else {
        Tree::Concat(terms)
    }
}

/// `Disjunction :: Alternative ( '|' Alternative )*` at `p`, inside `depth`
/// enclosing groups.
pub open spec fn disjunction(
    s: Seq<char>,
    p: int,
    depth: nat,
    refs: Option<Seq<Seq<char>>>,
    names: Seq<Seq<char>>,
) -> Option<
    Parsed,
>
    decreases s.len() - p, 6int,
{
    if !(0 <= p <= s.len()) {
        None
    } else {
        match alternative(s, p, depth, refs, names) {
            None => None,
            Some(a) => if !(p <= a.end <= s.len()) {
                None
            } else {
                disjunction_rest(s, a.end, depth, refs, a.names, seq![a.tree])
            },
        }
    }
}

/// The `( '|' Alternative )*` part of a disjunction at `p`, after `branches`.
pub open spec fn disjunction_rest(
    s: Seq<char>,
    p: int,
    depth: nat,
    refs: Option<Seq<Seq<char>>>,
    names: Seq<Seq<char>>,
    branches: Seq<Tree>,
) -> Option<Parsed>
    decreases s.len() - p, 5int,
{
    if !(0 <= p <= s.len()) {
        None
    } else if char_at(s, p) == Some('|') {
        match alternative(s, p + 1, depth, refs, names) {
            None => None,
            Some(a) => if !(p + 1 <= a.end <= s.len()) {
                None
            } else {
                disjunction_rest(s, a.end, depth, refs, a.names, branches.push(a.tree))
            },
        }
    } else {
        Some(Parsed { tree: alt_of(branches), end: p, names })
    }
}

/// `Alternative :: Term*` at `p`, stopping at `|`, `)` or the end.
pub open spec fn alternative(
    s: Seq<char>,
    p: int,
    depth: nat,
    refs: Option<Seq<Seq<char>>>,
    names: Seq<Seq<char>>,
) -> Option<
    Parsed,
>
    decreases s.len() - p, 4int,
{
    if !(0 <= p <= s.len()) {
        None
    } else {
        alternative_rest(s, p, depth, refs, names, seq![])
    }
}

/// The terms of an alternative from `p`, after `terms`.
pub open spec fn alternative_rest(
    s: Seq<char>,
    p: int,
    depth: nat,
    refs: Option<Seq<Seq<char>>>,
    names: Seq<Seq<char>>,
    terms: Seq<Tree>,
) -> Option<Parsed>
    decreases s.len() - p, 3int,
{
    if !(0 <= p <= s.len()) {
        None
    } else if p == s.len() || s[p] == '|' || s[p] == ')' {
        Some(Parsed { tree: concat_of(terms), end: p, names })
    } else {
        match term(s, p, depth, refs, names) {
            None => None,
            Some(t) => if !(p < t.end <= s.len()) {
                None
            } else {
                alternative_rest(s, t.end, depth, refs, t.names, terms.push(t.tree))
            },
        }
    }
}

/// `Term :: Atom Quantifier?` at `p`. A quantifier may not follow a
/// zero-width assertion, a reversed brace range is an error, and a second
/// quantifier may not follow the first.
pub open spec fn term(
    s: Seq<char>,
    p: int,
    depth: nat,
    refs: Option<Seq<Seq<char>>>,
    names: Seq<Seq<char>>,
) -> Option<Parsed>
    decreases s.len() - p, 2int,
{
    if !(0 <= p <= s.len()) {
        None
    } else {
        match atom(s, p, depth, refs, names) {
            None => None,
            Some(a) => {
                let q = peek_quant(s, a.end);
                if q == Quant::Absent {
                    Some(Parsed { tree: a.tree, end: a.end, names: a.names })
                } else if !a.quantifiable || q == Quant::InvalidRange {
                    None
                } else {
                    match quant_end(s, a.end) {
                        None => None,
                        Some(e) => if peek_quant(s, e) != Quant::Absent {
                            None
                        } else {
                            Some(
                                Parsed {
                                    tree: Tree::Repetition(Box::new(a.tree)),
                                    end: e,
                                    names: a.names,
                                },
                            )
                        },
                    }
                }
            },
        }
    }
}

/// One atom at `p`: a group, a class, an escape, an anchor, or a single
/// character. A quantifier with nothing to bind to is an error.
pub open spec fn atom(
    s: Seq<char>,
    p: int,
    depth: nat,
    refs: Option<Seq<Seq<char>>>,
    names: Seq<Seq<char>>,
) -> Option<
    AtomParsed,
>
    decreases s.len() - p, 1int,
{
    if !(0 <= p < s.len()) {
        None
    } else {
        let c = s[p];
        if c == '(' {
            group(s, p, depth, refs, names)
        } else if c == '[' {
            match class_end(s, p, refs is Some) {
                None => None,
                Some(e) => Some(AtomParsed { tree: Tree::Char, quantifiable: true, end: e, names }),
            }
        } else if c == '\\' {
            match escape_atom(s, p, refs) {
                None => None,
                Some((e, q)) => Some(
                    AtomParsed { tree: Tree::Char, quantifiable: q, end: e, names },
                ),
            }
        } else if c == '*' || c == '+' || c == '?' || c == ')' {
            None
        } else if c == '{' && brace_quant(s, p) != Quant::Absent {
            None
        } else if c == '^' || c == '$' {
            Some(AtomParsed { tree: Tree::Char, quantifiable: false, end: p + 1, names })
        } else {
            Some(AtomParsed { tree: Tree::Char, quantifiable: true, end: p + 1, names })
        }
    }
}

/// A group at `p` (which holds `(`), inside `depth` enclosing groups. Nesting
/// deeper than `MAX_GROUP_NESTING` is refused.
pub open spec fn group(
    s: Seq<char>,
    p: int,
    depth: nat,
    refs: Option<Seq<Seq<char>>>,
    names: Seq<Seq<char>>,
) -> Option<
    AtomParsed,
>
    decreases s.len() - p, 0int,
{
    if !(0 <= p < s.len()) || depth >= MAX_GROUP_NESTING {
        None
    } else {
        group_body(s, p + 1, depth + 1, refs, names)
    }
}

/// What follows the `(` of a group at `q`: its prefix, its body, and the
/// closing `)`. `depth` counts this group.
pub open spec fn group_body(
    s: Seq<char>,
    q: int,
    depth: nat,
    refs: Option<Seq<Seq<char>>>,
    names: Seq<Seq<char>>,
) -> Option<
    AtomParsed,
>
    decreases s.len() - q, 7int,
{
    if !(0 <= q <= s.len()) {
        None
    } else {
        match group_prefix(s, q, names) {
            None => None,
            Some((b, quantifiable, names2)) => if !(q <= b <= s.len()) {
                None
            } else {
                match disjunction(s, b, depth, refs, names2) {
                    None => None,
                    Some(r) => if char_at(s, r.end) == Some(')') {
                        Some(
                            AtomParsed {
                                tree: Tree::Group(Box::new(r.tree)),
                                quantifiable,
                                end: r.end + 1,
                                names: r.names,
                            },
                        )
                    } else {
                        None
                    },
                }
            },
        }
    }
}

/// A whole reading of a pattern, with `refs` the group names `\k` may refer
/// to (`None` outside named-group mode): the parsed pattern, when it reads to
/// its end.
pub open spec fn spec_reading(s: Seq<char>, refs: Option<Seq<Seq<char>>>) -> Option<Parsed> {
    match disjunction(s, 0, 0, refs, seq![]) {
        Some(r) => if r.end == s.len() {
            Some(r)
        } else {
            None
        },
        None => None,
    }
}

/// The names of a pattern's named groups, in order, from a reading that
/// treats `\k` as a plain escape.
pub open spec fn spec_group_names(s: Seq<char>) -> Option<Seq<Seq<char>>> {
    match spec_reading(s, None) {
        Some(r) => Some(r.names),
        None => None,
    }
}

/// The group names `\k` may refer to: `None` when the pattern has no named
/// group (then `\k` is a plain escape), else all its group names.
pub open spec fn refs_of(all: Seq<Seq<char>>) -> Option<Seq<Seq<char>>> {
    if all.len() == 0 {
        None
    } else {
        Some(all)
    }
}

/// The tree of a whole pattern, when the pattern is valid. A pattern with a
/// named group is read in named-group mode, where `\k` must name one of its
/// groups, wherever that group stands.
pub open spec fn spec_parse(s: Seq<char>) -> Option<Tree> {
    match spec_group_names(s) {
        None => None,
        Some(all) => match spec_reading(s, refs_of(all)) {
            Some(r) => Some(r.tree),
            None => None,
        },
    }
}

} // verus!
