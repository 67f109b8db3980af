//! A recursive-descent parser for JavaScript-syntax regular expressions that
//! builds the reduced tree and validates the pattern, proved to compute what
//! `grammar` states.
use vstd::prelude::*;

use crate::grammar::{
    alternative, alternative_rest, atom, bound, brace_quant, char_at, class_end, class_escape,
    class_items, code_point_scan, concat_of, decimal, digit_run, digit_val_at, disjunction,
    disjunction_rest, escape_atom, group, group_body, group_prefix, hex_val, hex_value,
    is_class_control, is_digit, is_hex, is_octal, name_escape, name_scan, octal_len,
    octal_value, peek_quant, quant_end, ranges_ok, reversed, spec_parse, term,
    trailing_surrogate, units_of, AtomParsed, ClassAtom, Parsed, Quant, MAX_GROUP_NESTING,
};
use crate::ident::{char_from_u32, is_group_name};
use crate::tree::{rep_count, tree_of, trees_of, Node, Tree};

verus! {

/// A parse failure: the pattern is not a valid regular expression.
pub(crate) struct Error;

/// What sits at the cursor in quantifier place.
#[derive(PartialEq, Eq, Structural, Clone, Copy)]
enum QuantAt {
    /// No quantifier. A brace here is a literal.
    Absent,
    /// A `*`, `+`, or `?` quantifier.
    Symbol,
    /// A well-formed brace quantifier, with its length in characters.
    Range(usize),
    /// A brace range `{n,m}` with `n > m`: a syntax error, not a literal.
    InvalidRange,
}

/// The grammar's reading of an executable quantifier classification.
spec fn quant_view(q: QuantAt) -> Quant {
    match q {
        QuantAt::Absent => Quant::Absent,
        QuantAt::Symbol => Quant::Symbol,
        QuantAt::Range(n) => Quant::Range(n as nat),
        QuantAt::InvalidRange => Quant::InvalidRange,
    }
}

/// Whether a quantifier may attach to an atom.
#[derive(PartialEq, Eq, Structural, Clone, Copy)]
enum Quantifiable {
    Yes,
    No,
}

/// The parser's state over one pattern.
struct Parser {
    /// The pattern's characters.
    chars: Vec<char>,
    /// The cursor: the index of the next character to read.
    pos: usize,
    /// The number of groups enclosing the cursor.
    group_depth: usize,
    /// The names of the named groups read so far.
    group_names: Vec<Vec<char>>,
    /// Whether the pattern is read in named-group mode, where `\k` must
    /// refer to one of `known`.
    named: bool,
    /// All group names of the pattern, for named-group mode.
    known: Vec<Vec<char>>,
}

/// The character sequences of a list of names.
spec fn names_view(v: Seq<Vec<char>>) -> Seq<Seq<char>> {
    v.map_values(|n: Vec<char>| n@)
}

/// An ASCII decimal digit.
fn is_ascii_digit(c: char) -> (r: bool)
    ensures
        r == is_digit(c),
{
    '0' <= c && c <= '9'
}

/// The value of a digit character, 0 for anything else.
fn digit_value(c: char) -> (r: u64)
    ensures
        r == (if is_digit(c) {
            (c as nat - '0' as nat) as nat
        } else {
            0nat
        }),
{
    if is_ascii_digit(c) {
        (c as u32 - '0' as u32) as u64
    } else {
        0
    }
}

/// Sixteen to the power `k`.
spec fn pow16(k: nat) -> nat
    decreases k,
{
    if k == 0 {
        1
    } else {
        16 * pow16((k - 1) as nat)
    }
}

/// Eight hexadecimal digits fit in a `u32`.
proof fn lemma_pow16_le(k: nat)
    requires
        k <= 8,
    ensures
        pow16(k) <= 0x1_0000_0000,
{
    reveal_with_fuel(pow16, 9);
    lemma_pow16_mono(k, 8);
}

/// Powers of sixteen grow with the exponent.
proof fn lemma_pow16_mono(a: nat, b: nat)
    requires
        a <= b,
    ensures
        pow16(a) <= pow16(b),
    decreases b,
{
    if a < b {
        lemma_pow16_mono(a, (b - 1) as nat);
    }
}

/// An ASCII hexadecimal digit.
fn is_ascii_hexdigit(c: char) -> (r: bool)
    ensures
        r == is_hex(c),
{
    ('0' <= c && c <= '9') || ('a' <= c && c <= 'f') || ('A' <= c && c <= 'F')
}

/// The value of a hexadecimal digit.
fn hex_digit_value(c: char) -> (r: u32)
    requires
        is_hex(c),
    ensures
        r == hex_val(c),
        r < 16,
{
    if '0' <= c && c <= '9' {
        c as u32 - '0' as u32
    } else if 'a' <= c && c <= 'f' {
        c as u32 - 'a' as u32 + 10
    } else {
        c as u32 - 'A' as u32 + 10
    }
}

/// An ASCII octal digit.
fn is_octal_digit(c: char) -> (r: bool)
    ensures
        r == is_octal(c),
{
    '0' <= c && c <= '7'
}

/// A character `\c` may take inside a class.
fn is_class_control_letter(c: char) -> (r: bool)
    ensures
        r == is_class_control(c),
{
    ('a' <= c && c <= 'z') || ('A' <= c && c <= 'Z') || ('0' <= c && c <= '9') || c == '_'
}

/// The value of the control escapes `\f`, `\n`, `\r`, `\t`, `\v`.
fn control_escape_value(c: char) -> (r: Option<u32>)
    ensures
        r == crate::grammar::control_escape(c),
{
    if c == 'f' {
        Some(0x0c)
    } else if c == 'n' {
        Some(0x0a)
    } else if c == 'r' {
        Some(0x0d)
    } else if c == 't' {
        Some(0x09)
    } else if c == 'v' {
        Some(0x0b)
    } else {
        None
    }
}

/// Append the UTF-16 code units of `c` to `atoms`.
fn push_units(atoms: &mut Vec<ClassAtom>, c: char)
    ensures
        final(atoms)@ == old(atoms)@ + units_of(c),
{
    let v = c as u32;
    if v < 0x10000 {
        atoms.push(ClassAtom::Unit(v));
    } else {
        atoms.push(ClassAtom::Unit(0xd800 + (v - 0x10000) / 0x400));
        atoms.push(ClassAtom::Unit(0xdc00 + (v - 0x10000) % 0x400));
    }
    assert(final(atoms)@ =~= old(atoms)@ + units_of(c));
}

/// Whether the range `a-b` is reversed.
fn is_reversed(a: ClassAtom, b: ClassAtom) -> (r: bool)
    ensures
        r == reversed(a, b),
{
    let x = match a {
        ClassAtom::Dash => 0x2d,
        ClassAtom::Unit(u) => u,
        ClassAtom::SetEscape => return false,
    };
    let y = match b {
        ClassAtom::Dash => 0x2d,
        ClassAtom::Unit(u) => u,
        ClassAtom::SetEscape => return false,
    };
    x > y
}

/// Whether the items of a class form valid ranges.
fn class_ranges_ok(atoms: &Vec<ClassAtom>) -> (r: bool)
    ensures
        r == ranges_ok(atoms@),
{
    let mut k: usize = 0;
    assert(atoms@.subrange(0, atoms@.len() as int) =~= atoms@);
    while k < atoms.len()
        invariant
            k <= atoms.len(),
            ranges_ok(atoms@) == ranges_ok(atoms@.subrange(k as int, atoms@.len() as int)),
        decreases atoms.len() - k,
    {
        let ghost rest = atoms@.subrange(k as int, atoms@.len() as int);
        if atoms.len() - k >= 3 && atoms[k + 1] == ClassAtom::Dash {
            assert(rest[1] == ClassAtom::Dash);
            assert(rest.subrange(3, rest.len() as int) =~= atoms@.subrange(
                k + 3,
                atoms@.len() as int,
            ));
            if is_reversed(atoms[k], atoms[k + 2]) {
                return false;
            }
            k = k + 3;
        } else {
            assert(rest.subrange(1, rest.len() as int) =~= atoms@.subrange(
                k + 1,
                atoms@.len() as int,
            ));
            k = k + 1;
        }
    }
    true
}

/// Whether two names hold the same characters.
fn same_name(a: &Vec<char>, b: &Vec<char>) -> (r: bool)
    ensures
        r == (a@ == b@),
{
    if a.len() != b.len() {
        return false;
    }
    let mut i: usize = 0;
    while i < a.len()
        invariant
            a.len() == b.len(),
            i <= a.len(),
            forall|j: int| 0 <= j < i ==> a@[j] == b@[j],
        decreases a.len() - i,
    {
        if a[i] != b[i] {
            return false;
        }
        i = i + 1;
    }
    assert(a@ =~= b@);
    true
}

/// Whether `name` is among `names`.
fn contains_name(names: &Vec<Vec<char>>, name: &Vec<char>) -> (r: bool)
    ensures
        r == names_view(names@).contains(name@),
{
    let mut i: usize = 0;
    while i < names.len()
        invariant
            i <= names.len(),
            forall|j: int| 0 <= j < i ==> names@[j]@ != name@,
        decreases names.len() - i,
    {
        if same_name(&names[i], name) {
            assert(names_view(names@)[i as int] == name@);
            return true;
        }
        i = i + 1;
    }
    assert forall|j: int| 0 <= j < names_view(names@).len() implies names_view(names@)[j]
        != name@ by {
        assert(names_view(names@)[j] == names@[j]@);
    }
    false
}

/// `res` and the parser state `p` after the call are what `r` describes.
spec fn parsed_as(r: Option<Parsed>, res: Result<Node, Error>, p: Parser) -> bool {
    match r {
        Some(x) => match res {
            Ok(n) => tree_of(n) == x.tree && p.pos == x.end && p.names() == x.names,
            Err(_) => false,
        },
        None => res is Err,
    }
}

/// `res` and the parser state `p` after the call are what `r` describes.
spec fn atom_parsed_as(
    r: Option<AtomParsed>,
    res: Result<(Node, Quantifiable), Error>,
    p: Parser,
) -> bool {
    match r {
        Some(x) => match res {
            Ok((n, q)) => {
                &&& tree_of(n) == x.tree
                &&& (q == Quantifiable::Yes) == x.quantifiable
                &&& p.pos == x.end
                &&& p.names() == x.names
            },
            Err(_) => false,
        },
        None => res is Err,
    }
}

/// The node in a successful atom result.
spec fn atom_node(res: Result<(Node, Quantifiable), Error>) -> Node {
    match res {
        Ok((n, _)) => n,
        Err(_) => Node::Empty,
    }
}

impl Parser {
    /// The pattern.
    spec fn s(&self) -> Seq<char> {
        self.chars@
    }

    /// The group names read so far.
    spec fn names(&self) -> Seq<Seq<char>> {
        names_view(self.group_names@)
    }

    /// The group names `\k` may refer to, in named-group mode.
    spec fn refs(&self) -> Option<Seq<Seq<char>>> {
        if self.named {
            Some(names_view(self.known@))
        } else {
            None
        }
    }

    /// The cursor lies within the pattern and the nesting within its limit.
    spec fn wf(&self) -> bool {
        &&& self.pos <= self.chars.len()
        &&& self.group_depth <= MAX_GROUP_NESTING
    }

    /// The character at the cursor.
    fn peek(&self) -> (r: Option<char>)
        requires
            self.wf(),
        ensures
            r == char_at(self.s(), self.pos as int),
    {
        if self.pos < self.chars.len() {
            Some(self.chars[self.pos])
        } else {
            None
        }
    }

    /// The character `offset` places after the cursor.
    fn peek_at(&self, offset: usize) -> (r: Option<char>)
        requires
            self.wf(),
        ensures
            r == char_at(self.s(), self.pos + offset),
    {
        if offset < self.chars.len() - self.pos {
            Some(self.chars[self.pos + offset])
        } else {
            None
        }
    }

    /// Read the character at the cursor and move past it.
    fn bump(&mut self) -> (r: Option<char>)
        requires
            old(self).wf(),
        ensures
            final(self).wf(),
            r == char_at(old(self).s(), old(self).pos as int),
            final(self).pos == (if r is Some {
                old(self).pos + 1
            } else {
                old(self).pos as int
            }),
            final(self).chars == old(self).chars,
            final(self).named == old(self).named,
            final(self).known == old(self).known,
            final(self).group_depth == old(self).group_depth,
            final(self).group_names == old(self).group_names,
    {
        let c = self.peek();
        if c.is_some() {
            self.pos = self.pos + 1;
        }
        c
    }

    /// Count consecutive ASCII digits starting at `offset` from the cursor.
    fn digit_run(&self, offset: usize) -> (n: usize)
        requires
            self.wf(),
        ensures
            n == digit_run(self.s(), self.pos + offset),
            n > 0 ==> self.pos + offset + n <= self.s().len(),
    {
        let mut n: usize = 0;
        loop
            invariant
                self.wf(),
                n > 0 ==> self.pos + offset + n <= self.s().len(),
                digit_run(self.s(), self.pos + offset) == n + digit_run(
                    self.s(),
                    self.pos + offset + n,
                ),
            decreases self.s().len() - n,
        {
            let c = if n == 0 {
                self.peek_at(offset)
            } else {
                self.peek_at(offset + n)
            };
            match c {
                Some(c) => {
                    if !is_ascii_digit(c) {
                        return n;
                    }
                },
                None => {
                    return n;
                },
            }
            n = n + 1;
        }
    }

    /// Read a digit run of `len` characters at `offset` from the cursor as a
    /// number, saturating at `u64::MAX`.
    fn parse_bound(&self, offset: usize, len: usize) -> (v: u64)
        requires
            self.wf(),
            offset + len <= usize::MAX,
        ensures
            v == bound(self.s(), self.pos + offset, len as nat),
    {
        let mut value: u64 = 0;
        let mut k: usize = 0;
        while k < len
            invariant
                self.wf(),
                k <= len,
                offset + len <= usize::MAX,
                value == bound(self.s(), self.pos + offset, k as nat),
            decreases len - k,
        {
            let digit = match self.peek_at(offset + k) {
                Some(c) => digit_value(c),
                None => 0,
            };
            let ghost old_dec = decimal(self.s(), self.pos + offset, k as nat);
            let ghost new_dec = decimal(self.s(), self.pos + offset, (k + 1) as nat);
            assert(digit == digit_val_at(self.s(), self.pos + offset + k));
            assert(new_dec == old_dec * 10 + digit);
            assert(digit <= 9);
            let m: u64 = if value > u64::MAX / 10 {
                assert(old_dec * 10 > u64::MAX) by (nonlinear_arith)
                    requires
                        value > u64::MAX / 10,
                        value == old_dec || old_dec > u64::MAX,
                ;
                u64::MAX
            } else {
                assert(value * 10 <= u64::MAX) by (nonlinear_arith)
                    requires
                        value <= u64::MAX / 10,
                ;
                value * 10
            };
            value = m.saturating_add(digit);
            k = k + 1;
        }
        value
    }

    /// Classify a brace starting at the cursor.
    fn brace_quantifier(&self) -> (q: QuantAt)
        requires
            self.wf(),
        ensures
            quant_view(q) == brace_quant(self.s(), self.pos as int),
            q matches QuantAt::Range(n) ==> 3 <= n && self.pos + n <= self.s().len(),
    {
        if self.peek() != Some('{') {
            return QuantAt::Absent;
        }
        let mut i: usize = 1;
        let first_len = self.digit_run(i);
        if first_len == 0 {
            return QuantAt::Absent;
        }
        let lower = self.parse_bound(i, first_len);
        i = i + first_len;
        match self.peek_at(i) {
            Some('}') => QuantAt::Range(i + 1),
            Some(',') => {
                i = i + 1;
                let second_len = self.digit_run(i);
                let upper = self.parse_bound(i, second_len);
                i = i + second_len;
                if self.peek_at(i) != Some('}') {
                    return QuantAt::Absent;
                }
                if second_len > 0 && upper < lower {
                    return QuantAt::InvalidRange;
                }
                QuantAt::Range(i + 1)
            },
            _ => QuantAt::Absent,
        }
    }

    /// Consume the quantifier the cursor sits on, including an optional lazy
    /// `?`.
    fn consume_quantifier(&mut self) -> (res: Result<(), Error>)
        requires
            old(self).wf(),
        ensures
            final(self).wf(),
            final(self).chars == old(self).chars,
            final(self).named == old(self).named,
            final(self).known == old(self).known,
            final(self).group_depth == old(self).group_depth,
            final(self).group_names == old(self).group_names,
            match quant_end(old(self).s(), old(self).pos as int) {
                Some(e) => res is Ok && final(self).pos == e,
                None => res is Err,
            },
    {
        match self.peek() {
            Some('*') | Some('+') | Some('?') => {
                self.bump();
            },
            Some('{') => {
                let len = match self.brace_quantifier() {
                    QuantAt::Range(len) => len,
                    _ => return Err(Error),
                };
                let ghost start = self.pos;
                let mut k: usize = 0;
                while k < len
                    invariant
                        self.wf(),
                        k <= len,
                        self.pos == start + k,
                        start + len <= self.s().len(),
                        self.chars == old(self).chars,
                        self.named == old(self).named,
                        self.known == old(self).known,
                        self.group_depth == old(self).group_depth,
                        self.group_names == old(self).group_names,
                    decreases len - k,
                {
                    self.bump();
                    k = k + 1;
                }
            },
            _ => return Err(Error),
        }
        if self.peek() == Some('?') {
            self.bump();
        }
        Ok(())
    }

    /// The value of the `n` hexadecimal digits at `offset` from the cursor, if
    /// all `n` are there. Reads without moving.
    fn hex_at(&self, offset: usize, n: usize) -> (r: Option<u32>)
        requires
            self.wf(),
            n <= 8,
            offset + n <= usize::MAX,
        ensures
            match hex_value(self.s(), self.pos + offset, n as nat) {
                Some(v) => r == Some(v as u32) && v < pow16(n as nat),
                None => r is None,
            },
    {
        let mut value: u32 = 0;
        let mut k: usize = 0;
        while k < n
            invariant
                self.wf(),
                k <= n <= 8,
                offset + n <= usize::MAX,
                hex_value(self.s(), self.pos + offset, k as nat) == Some(value as nat),
                value < pow16(k as nat),
            decreases n - k,
        {
            let c = match self.peek_at(offset + k) {
                Some(c) => c,
                None => {
                    proof {
                        Self::lemma_hex_value_none(
                            self.s(),
                            self.pos + offset,
                            (k + 1) as nat,
                            n as nat,
                        );
                    }
                    return None;
                },
            };
            if !is_ascii_hexdigit(c) {
                proof {
                    Self::lemma_hex_value_none(
                        self.s(),
                        self.pos + offset,
                        (k + 1) as nat,
                        n as nat,
                    );
                }
                return None;
            }
            let d = hex_digit_value(c);
            proof {
                lemma_pow16_le((k + 1) as nat);
                assert(value * 16 + d < pow16((k + 1) as nat)) by (nonlinear_arith)
                    requires
                        value < pow16(k as nat),
                        d < 16,
                        pow16((k + 1) as nat) == 16 * pow16(k as nat),
                ;
            }
            value = value * 16 + d;
            k = k + 1;
        }
        Some(value)
    }

    /// Consume `len` hexadecimal digits and answer their value; consume
    /// nothing when they are not all there.
    fn consume_fixed_hex_value(&mut self, len: usize) -> (r: Option<u32>)
        requires
            old(self).wf(),
            len <= 8,
        ensures
            final(self).wf(),
            final(self).chars == old(self).chars,
            final(self).named == old(self).named,
            final(self).known == old(self).known,
            final(self).group_depth == old(self).group_depth,
            final(self).group_names == old(self).group_names,
            match hex_value(old(self).s(), old(self).pos as int, len as nat) {
                Some(v) => {
                    &&& r == Some(v as u32)
                    &&& v < pow16(len as nat)
                    &&& final(self).pos == old(self).pos + len
                },
                None => r is None,
            },
            r is None ==> final(self).pos == old(self).pos,
    {
        let value = match self.hex_at(0, len) {
            Some(v) => v,
            None => return None,
        };
        proof {
            self.lemma_hex_value_in_bounds(self.pos as int, len as nat);
        }
        let ghost start = self.pos;
        let mut k: usize = 0;
        while k < len
            invariant
                self.wf(),
                k <= len,
                self.pos == start + k,
                start + len <= self.s().len(),
                self.chars == old(self).chars,
                self.named == old(self).named,
                self.known == old(self).known,
                self.group_depth == old(self).group_depth,
                self.group_names == old(self).group_names,
            decreases len - k,
        {
            self.bump();
            k = k + 1;
        }
        Some(value)
    }

    /// All `n` digits of a hexadecimal value lie inside the pattern.
    proof fn lemma_hex_value_in_bounds(&self, i: int, n: nat)
        requires
            0 <= i,
            hex_value(self.s(), i, n) is Some,
        ensures
            n > 0 ==> i + n <= self.s().len(),
        decreases n,
    {
        if n > 0 {
            self.lemma_hex_value_in_bounds(i, (n - 1) as nat);
            assert(char_at(self.s(), i + n - 1) is Some);
        }
    }

    /// Once `k` digits fail to read as hexadecimal, so do `n >= k`.
    proof fn lemma_hex_value_none(s: Seq<char>, i: int, k: nat, n: nat)
        requires
            k <= n,
            hex_value(s, i, k) is None,
        ensures
            hex_value(s, i, n) is None,
        decreases n,
    {
        if k < n {
            Self::lemma_hex_value_none(s, i, k, (n - 1) as nat);
        }
    }

    /// Consume a class escape at the cursor (which holds `\`), appending the
    /// items it stands for.
    fn consume_class_escape(&mut self, atoms: &mut Vec<ClassAtom>) -> (res: Result<(), Error>)
        requires
            old(self).wf(),
            char_at(old(self).s(), old(self).pos as int) == Some('\\'),
        ensures
            final(self).wf(),
            final(self).chars == old(self).chars,
            final(self).named == old(self).named,
            final(self).known == old(self).known,
            final(self).group_depth == old(self).group_depth,
            final(self).group_names == old(self).group_names,
            match class_escape(old(self).s(), old(self).pos as int, old(self).named) {
                Some((a, e)) => {
                    &&& res is Ok
                    &&& final(atoms)@ == old(atoms)@ + a
                    &&& final(self).pos == e
                },
                None => res is Err,
            },
    {
        let c = match self.peek_at(1) {
            Some(c) => c,
            None => return Err(Error),
        };
        let ghost s = self.s();
        let ghost i = self.pos as int;
        if c == 'k' && self.named {
            return Err(Error);
        } else if c == 'b' {
            atoms.push(ClassAtom::Unit(8));
            self.pos = self.pos + 2;
        } else if c == 'd' || c == 'D' || c == 's' || c == 'S' || c == 'w' || c == 'W' {
            atoms.push(ClassAtom::SetEscape);
            self.pos = self.pos + 2;
        } else if let Some(v) = control_escape_value(c) {
            atoms.push(ClassAtom::Unit(v));
            self.pos = self.pos + 2;
        } else if c == 'c' {
            match self.peek_at(2) {
                Some(x) => {
                    if is_class_control_letter(x) {
                        atoms.push(ClassAtom::Unit((x as u32) % 32));
                        self.pos = self.pos + 3;
                    } else {
                        atoms.push(ClassAtom::Unit(0x5c));
                        self.pos = self.pos + 1;
                    }
                },
                None => {
                    atoms.push(ClassAtom::Unit(0x5c));
                    self.pos = self.pos + 1;
                },
            }
        } else if c == 'x' {
            match self.hex_at(2, 2) {
                Some(v) => {
                    proof {
                        self.lemma_hex_value_in_bounds(i + 2, 2);
                    }
                    atoms.push(ClassAtom::Unit(v));
                    self.pos = self.pos + 4;
                },
                None => {
                    atoms.push(ClassAtom::Unit(0x78));
                    self.pos = self.pos + 2;
                },
            }
        } else if c == 'u' {
            match self.hex_at(2, 4) {
                Some(v) => {
                    proof {
                        self.lemma_hex_value_in_bounds(i + 2, 4);
                    }
                    atoms.push(ClassAtom::Unit(v));
                    self.pos = self.pos + 6;
                },
                None => {
                    atoms.push(ClassAtom::Unit(0x75));
                    self.pos = self.pos + 2;
                },
            }
        } else if is_octal_digit(c) {
            let second = match self.peek_at(2) {
                Some(x) => is_octal_digit(x),
                None => false,
            };
            let third = match self.peek_at(3) {
                Some(x) => is_octal_digit(x),
                None => false,
            };
            let n: usize = if !second {
                1
            } else if c <= '3' && third {
                3
            } else {
                2
            };
            assert(n == octal_len(s, i + 1));
            let mut value: u32 = 0;
            let mut k: usize = 0;
            while k < n
                invariant
                    self.wf(),
                    self.s() == s,
                    self.pos == i,
                    k <= n <= 3,
                    i + 1 + n <= s.len(),
                    forall|j: int| i + 1 <= j <= i + n ==> is_octal(#[trigger] s[j]),
                    value == octal_value(s, i + 1, k as nat),
                    k == 0 ==> value == 0,
                    k == 1 ==> value < 8,
                    k == 2 ==> value < 64,
                    value < 512,
                decreases n - k,
            {
                let x = self.chars[self.pos + 1 + k];
                assert(is_octal(s[i + 1 + k]));
                let d = digit_value(x);
                assert(d == digit_val_at(s, i + 1 + k));
                assert(d < 8);
                assert(value * 8 + d < 512 && (k == 0 ==> value * 8 + d < 8) && (k == 1
                    ==> value * 8 + d < 64)) by (nonlinear_arith)
                    requires
                        d < 8,
                        k < 3,
                        k == 0 ==> value == 0,
                        k == 1 ==> value < 8,
                        k == 2 ==> value < 64,
                ;
                value = value * 8 + (d as u32);
                k = k + 1;
            }
            atoms.push(ClassAtom::Unit(value));
            self.pos = self.pos + 1 + n;
        } else {
            self.pos = self.pos + 2;
            push_units(atoms, c);
        }
        proof {
            let (a, e) = class_escape(s, i, old(self).named).unwrap();
            assert(final(atoms)@ =~= old(atoms)@ + a);
        }
        Ok(())
    }

    /// Parse a character class `[...]`, including a leading `^` and ranges.
    /// `]` right after `[` or `[^` closes the class, so `[]` and `[^]` are
    /// valid; a reversed range such as `[z-a]` is an error.
    fn parse_class(&mut self) -> (res: Result<Node, Error>)
        requires
            old(self).wf(),
            char_at(old(self).s(), old(self).pos as int) == Some('['),
        ensures
            final(self).wf(),
            final(self).chars == old(self).chars,
            final(self).named == old(self).named,
            final(self).known == old(self).known,
            final(self).group_depth == old(self).group_depth,
            final(self).group_names == old(self).group_names,
            match class_end(old(self).s(), old(self).pos as int, old(self).named) {
                Some(e) => res is Ok && tree_of(res->Ok_0) == Tree::Char && final(self).pos == e,
                None => res is Err,
            },
            res is Ok ==> final(self).pos > old(self).pos,
    {
        self.bump();
        if self.peek() == Some('^') {
            self.bump();
        }
        let ghost s = self.s();
        let ghost start = self.pos as int;
        let ghost named = old(self).named;
        let mut atoms: Vec<ClassAtom> = Vec::new();
        assert(atoms@ + seq![] =~= atoms@);
        assert(class_end(old(self).s(), old(self).pos as int, named) == match class_items(
            s,
            start,
            named,
        ) {
            None => None,
            Some((a, end)) => if ranges_ok(a) {
                Some(end)
            } else {
                None
            },
        });
        loop
            invariant_except_break
                named == old(self).named,
                start > old(self).pos,
                self.pos >= start,
                class_end(old(self).s(), old(self).pos as int, named) == match class_items(
                    s,
                    start,
                    named,
                ) {
                    None => None,
                    Some((a, end)) => if ranges_ok(a) {
                        Some(end)
                    } else {
                        None
                    },
                },
                self.wf(),
                self.s() == s,
                self.chars == old(self).chars,
                self.named == old(self).named,
                self.known == old(self).known,
                self.group_depth == old(self).group_depth,
                self.group_names == old(self).group_names,
                class_items(s, start, named) == match class_items(s, self.pos as int, named) {
                    Some((rest, end)) => Some((atoms@ + rest, end)),
                    None => None,
                },
            ensures
                named == old(self).named,
                start > old(self).pos,
                self.pos >= start,
                class_end(old(self).s(), old(self).pos as int, named) == match class_items(
                    s,
                    start,
                    named,
                ) {
                    None => None,
                    Some((a, end)) => if ranges_ok(a) {
                        Some(end)
                    } else {
                        None
                    },
                },
                self.wf(),
                self.chars == old(self).chars,
                self.named == old(self).named,
                self.known == old(self).known,
                self.group_depth == old(self).group_depth,
                self.group_names == old(self).group_names,
                class_items(s, start, named) == Some((atoms@, self.pos as int)),
            decreases s.len() - self.pos,
        {
            let ghost i = self.pos as int;
            match self.peek() {
                None => {
                    return Err(Error);
                },
                Some(']') => {
                    self.bump();
                    assert(atoms@ + seq![] =~= atoms@);
                    break ;
                },
                Some('\\') => {
                    let ghost before = atoms@;
                    self.consume_class_escape(&mut atoms)?;
                    proof {
                        let (a, e) = class_escape(s, i, named).unwrap();
                        if let Some((rest, end)) = class_items(s, e, named) {
                            assert(before + (a + rest) =~= atoms@ + rest);
                        }
                    }
                },
                Some('-') => {
                    self.bump();
                    let ghost before = atoms@;
                    atoms.push(ClassAtom::Dash);
                    proof {
                        if let Some((rest, end)) = class_items(s, i + 1, named) {
                            assert(before + (seq![ClassAtom::Dash] + rest) =~= atoms@ + rest);
                        }
                    }
                },
                Some(c) => {
                    self.bump();
                    let ghost before = atoms@;
                    push_units(&mut atoms, c);
                    proof {
                        if let Some((rest, end)) = class_items(s, i + 1, named) {
                            assert(before + (units_of(c) + rest) =~= atoms@ + rest);
                        }
                    }
                },
            }
        }
        if !class_ranges_ok(&atoms) {
            return Err(Error);
        }
        Ok(Node::Char)
    }

    /// Consume the digits of a `\u{...}` escape after its `{`, including the
    /// closing `}`, and answer the value.
    fn consume_code_point_escape(&mut self) -> (res: Result<u32, Error>)
        requires
            old(self).wf(),
        ensures
            final(self).wf(),
            final(self).chars == old(self).chars,
            final(self).named == old(self).named,
            final(self).known == old(self).known,
            final(self).group_depth == old(self).group_depth,
            final(self).group_names == old(self).group_names,
            match code_point_scan(old(self).s(), old(self).pos as int, 0, 0) {
                Some((v, e)) => {
                    &&& res == Ok::<u32, Error>(v as u32)
                    &&& v <= 0x10ffff
                    &&& final(self).pos == e
                    &&& e > old(self).pos
                },
                None => res is Err,
            },
    {
        let ghost s = self.s();
        let ghost start = self.pos as int;
        let mut value: u32 = 0;
        let mut digits: usize = 0;
        loop
            invariant
                start == old(self).pos,
                s == old(self).s(),
                self.pos >= start + digits,
                self.wf(),
                self.s() == s,
                self.chars == old(self).chars,
                self.named == old(self).named,
                self.known == old(self).known,
                self.group_depth == old(self).group_depth,
                self.group_names == old(self).group_names,
                value <= 0x10ffff,
                code_point_scan(s, start, 0, 0) == code_point_scan(
                    s,
                    self.pos as int,
                    value as nat,
                    digits as nat,
                ),
                digits <= self.pos,
            decreases s.len() - self.pos,
        {
            match self.peek() {
                Some('}') if digits > 0 => {
                    self.bump();
                    return Ok(value);
                },
                Some(c) => {
                    if !is_ascii_hexdigit(c) {
                        return Err(Error);
                    }
                    let v = value * 16 + hex_digit_value(c);
                    if v > 0x10ffff {
                        return Err(Error);
                    }
                    value = v;
                    digits = digits + 1;
                    self.bump();
                },
                None => {
                    return Err(Error);
                },
            }
        }
    }

    /// Consume the `\uDC00`-`\uDFFF` half of a surrogate pair and join it with
    /// `lead`.
    fn consume_trailing_surrogate_escape(&mut self, lead: u32) -> (res: Result<char, Error>)
        requires
            old(self).wf(),
            0xd800 <= lead <= 0xdbff,
        ensures
            final(self).wf(),
            final(self).chars == old(self).chars,
            final(self).named == old(self).named,
            final(self).known == old(self).known,
            final(self).group_depth == old(self).group_depth,
            final(self).group_names == old(self).group_names,
            match trailing_surrogate(old(self).s(), old(self).pos as int, lead as nat) {
                Some((c, e)) => res == Ok::<char, Error>(c) && final(self).pos == e && e > old(
                    self,
                ).pos,
                None => res is Err,
            },
    {
        if self.bump() != Some('\\') || self.bump() != Some('u') {
            return Err(Error);
        }
        let trail = match self.consume_fixed_hex_value(4) {
            Some(t) => t,
            None => return Err(Error),
        };
        assert(pow16(4) == 0x10000) by {
            reveal_with_fuel(pow16, 5);
        }
        if !(0xdc00 <= trail && trail <= 0xdfff) {
            return Err(Error);
        }
        let code_point = 0x10000 + (lead - 0xd800) * 0x400 + (trail - 0xdc00);
        match char_from_u32(code_point) {
            Some(c) => Ok(c),
            None => Err(Error),
        }
    }

    /// Consume a `\u` escape inside a group name and answer its character.
    fn consume_group_name_escape(&mut self) -> (res: Result<char, Error>)
        requires
            old(self).wf(),
        ensures
            final(self).wf(),
            final(self).chars == old(self).chars,
            final(self).named == old(self).named,
            final(self).known == old(self).known,
            final(self).group_depth == old(self).group_depth,
            final(self).group_names == old(self).group_names,
            match name_escape(old(self).s(), old(self).pos as int) {
                Some((c, e)) => res == Ok::<char, Error>(c) && final(self).pos == e && e > old(
                    self,
                ).pos,
                None => res is Err,
            },
    {
        if self.bump() != Some('\\') || self.bump() != Some('u') {
            return Err(Error);
        }
        assert(pow16(4) == 0x10000) by {
            reveal_with_fuel(pow16, 5);
        }
        if self.peek() == Some('{') {
            self.bump();
            let v = self.consume_code_point_escape()?;
            match char_from_u32(v) {
                Some(c) => Ok(c),
                None => Err(Error),
            }
        } else {
            let value = match self.consume_fixed_hex_value(4) {
                Some(v) => v,
                None => return Err(Error),
            };
            if 0xd800 <= value && value <= 0xdbff {
                self.consume_trailing_surrogate_escape(value)
            } else if 0xdc00 <= value && value <= 0xdfff {
                Err(Error)
            } else {
                match char_from_u32(value) {
                    Some(c) => Ok(c),
                    None => Err(Error),
                }
            }
        }
    }

    /// Read a group name up to and including the closing `>`, decoding its
    /// `\u` escapes.
    fn read_group_name(&mut self) -> (res: Result<Vec<char>, Error>)
        requires
            old(self).wf(),
        ensures
            final(self).wf(),
            final(self).chars == old(self).chars,
            final(self).named == old(self).named,
            final(self).known == old(self).known,
            final(self).group_depth == old(self).group_depth,
            final(self).group_names == old(self).group_names,
            match name_scan(old(self).s(), old(self).pos as int, seq![]) {
                Some((name, gt)) => match res {
                    Ok(v) => v@ == name && final(self).pos == gt + 1,
                    Err(_) => false,
                },
                None => res is Err,
            },
            res is Ok ==> final(self).pos > old(self).pos,
    {
        let ghost s = self.s();
        let ghost start = self.pos as int;
        let mut name: Vec<char> = Vec::new();
        loop
            invariant_except_break
                start == old(self).pos,
                s == old(self).s(),
                self.pos >= start,
                self.wf(),
                self.s() == s,
                self.chars == old(self).chars,
                self.named == old(self).named,
                self.known == old(self).known,
                self.group_depth == old(self).group_depth,
                self.group_names == old(self).group_names,
                name_scan(s, start, seq![]) == name_scan(s, self.pos as int, name@),
            ensures
                start == old(self).pos,
                s == old(self).s(),
                self.pos >= start,
                self.wf(),
                self.s() == s,
                self.chars == old(self).chars,
                self.named == old(self).named,
                self.known == old(self).known,
                self.group_depth == old(self).group_depth,
                self.group_names == old(self).group_names,
                name_scan(s, start, seq![]) == Some((name@, self.pos as int)),
                char_at(s, self.pos as int) == Some('>'),
            decreases s.len() - self.pos,
        {
            match self.peek() {
                Some('>') => break ,
                Some('\\') => {
                    let c = self.consume_group_name_escape()?;
                    name.push(c);
                },
                Some(c) => {
                    self.bump();
                    name.push(c);
                },
                None => return Err(Error),
            }
        }
        self.bump();
        Ok(name)
    }

    /// Consume a group name up to and including the closing `>`. The name
    /// must be a valid identifier name not used before; it is recorded. A
    /// refused name is not recorded.
    fn consume_group_name(&mut self) -> (res: Result<(), Error>)
        requires
            old(self).wf(),
        ensures
            final(self).wf(),
            final(self).chars == old(self).chars,
            final(self).named == old(self).named,
            final(self).known == old(self).known,
            final(self).group_depth == old(self).group_depth,
            match name_scan(old(self).s(), old(self).pos as int, seq![]) {
                Some((name, gt)) => if !crate::ident::spec_is_group_name(name) || old(
                    self,
                ).names().contains(name) {
                    res is Err
                } else {
                    &&& res is Ok
                    &&& final(self).pos == gt + 1
                    &&& final(self).names() == old(self).names().push(name)
                },
                None => res is Err,
            },
            res is Ok ==> final(self).pos > old(self).pos,
            res is Err ==> final(self).group_names == old(self).group_names,
    {
        let name = self.read_group_name()?;
        if !is_group_name(&name) || contains_name(&self.group_names, &name) {
            return Err(Error);
        }
        let ghost before = self.group_names@;
        self.group_names.push(name);
        assert(self.names() =~= old(self).names().push(name@)) by {
            assert(names_view(before.push(name)) =~= names_view(before).push(name@));
        }
        Ok(())
    }

    /// Parse an escape sequence at the cursor (which holds `\`): a backslash
    /// and one following character form one atom; `\b` and `\B` are zero-width
    /// and may not be quantified. In named-group mode `\k<name>` is one atom,
    /// a reference to a group of the pattern.
    fn parse_escape(&mut self) -> (res: Result<(Node, Quantifiable), Error>)
        requires
            old(self).wf(),
            char_at(old(self).s(), old(self).pos as int) == Some('\\'),
        ensures
            final(self).wf(),
            final(self).chars == old(self).chars,
            final(self).named == old(self).named,
            final(self).known == old(self).known,
            final(self).group_depth == old(self).group_depth,
            final(self).group_names == old(self).group_names,
            match escape_atom(old(self).s(), old(self).pos as int, old(self).refs()) {
                Some((e, q)) => match res {
                    Ok((n, quant)) => tree_of(n) == Tree::Char && (quant == Quantifiable::Yes) == q
                        && final(self).pos == e,
                    Err(_) => false,
                },
                None => res is Err,
            },
            res is Ok ==> final(self).pos > old(self).pos,
    {
        self.bump();
        let c = match self.bump() {
            None => return Err(Error),
            Some(c) => c,
        };
        if c == 'b' || c == 'B' {
            Ok((Node::Char, Quantifiable::No))
        } else if c == 'k' && self.named {
            if self.bump() != Some('<') {
                return Err(Error);
            }
            let name = self.read_group_name()?;
            if !contains_name(&self.known, &name) {
                return Err(Error);
            }
            Ok((Node::Char, Quantifiable::Yes))
        } else {
            Ok((Node::Char, Quantifiable::Yes))
        }
    }

    /// Parse one atom and report whether a quantifier may follow it.
    fn parse_atom(&mut self) -> (res: Result<(Node, Quantifiable), Error>)
        requires
            old(self).wf(),
        ensures
            final(self).wf(),
            final(self).chars == old(self).chars,
            final(self).named == old(self).named,
            final(self).known == old(self).known,
            final(self).group_depth == old(self).group_depth,
            atom_parsed_as(
                atom(
                    old(self).s(),
                    old(self).pos as int,
                    old(self).group_depth as nat, old(self).refs(),
                    old(self).names(),
                ),
                res,
                *final(self),
            ),
            res is Ok ==> final(self).pos > old(self).pos && rep_count(tree_of(atom_node(res)))
                <= final(self).pos - old(self).pos,
        decreases old(self).s().len() - old(self).pos, 1int,
    {
        match self.peek() {
            Some('(') => self.parse_group(),
            Some('[') => {
                let n = self.parse_class()?;
                Ok((n, Quantifiable::Yes))
            },
            Some('\\') => self.parse_escape(),
            Some('*') | Some('+') | Some('?') => Err(Error),
            Some('{') => {
                if self.brace_quantifier() != QuantAt::Absent {
                    return Err(Error);
                }
                self.bump();
                Ok((Node::Char, Quantifiable::Yes))
            },
            Some(')') => Err(Error),
            Some('^') | Some('$') => {
                self.bump();
                Ok((Node::Char, Quantifiable::No))
            },
            Some(_) => {
                self.bump();
                Ok((Node::Char, Quantifiable::Yes))
            },
            None => Err(Error),
        }
    }

    /// Parse a group starting at `(`, refusing nesting deeper than
    /// `MAX_GROUP_NESTING`.
    fn parse_group(&mut self) -> (res: Result<(Node, Quantifiable), Error>)
        requires
            old(self).wf(),
            char_at(old(self).s(), old(self).pos as int) == Some('('),
        ensures
            final(self).wf(),
            final(self).chars == old(self).chars,
            final(self).named == old(self).named,
            final(self).known == old(self).known,
            final(self).group_depth == old(self).group_depth,
            atom_parsed_as(
                group(
                    old(self).s(),
                    old(self).pos as int,
                    old(self).group_depth as nat, old(self).refs(),
                    old(self).names(),
                ),
                res,
                *final(self),
            ),
            res is Ok ==> final(self).pos > old(self).pos && rep_count(tree_of(atom_node(res)))
                <= final(self).pos - old(self).pos,
        decreases old(self).s().len() - old(self).pos, 0int,
    {
        self.bump();
        if self.group_depth >= MAX_GROUP_NESTING {
            return Err(Error);
        }
        self.group_depth = self.group_depth + 1;
        let group = self.parse_group_body();
        self.group_depth = self.group_depth - 1;
        group
    }

    /// Parse what follows the `(` of a group: an optional `?:`, `?=`, `?!`,
    /// `?<=`, `?<!` or `?<name>` prefix, the body, and the closing `)`.
    #[verifier::spinoff_prover]
    #[verifier::rlimit(60)]
    fn parse_group_body(&mut self) -> (res: Result<(Node, Quantifiable), Error>)
        requires
            old(self).wf(),
        ensures
            final(self).wf(),
            final(self).chars == old(self).chars,
            final(self).named == old(self).named,
            final(self).known == old(self).known,
            final(self).group_depth == old(self).group_depth,
            atom_parsed_as(
                group_body(
                    old(self).s(),
                    old(self).pos as int,
                    old(self).group_depth as nat, old(self).refs(),
                    old(self).names(),
                ),
                res,
                *final(self),
            ),
            res is Ok ==> final(self).pos > old(self).pos && rep_count(tree_of(atom_node(res)))
                <= final(self).pos - old(self).pos,
        decreases old(self).s().len() - old(self).pos, 7int,
    {
        let quant = self.consume_group_prefix()?;
        let body = self.parse_disjunction()?;
        if self.bump() != Some(')') {
            return Err(Error);
        }
        Ok((Node::Group(Box::new(body)), quant))
    }

    /// Consume the `?:`, `?=`, `?!`, `?<=`, `?<!` or `?<name>` prefix of a
    /// group, if any, and report whether the group may be quantified.
    fn consume_group_prefix(&mut self) -> (res: Result<Quantifiable, Error>)
        requires
            old(self).wf(),
        ensures
            final(self).wf(),
            final(self).chars == old(self).chars,
            final(self).named == old(self).named,
            final(self).known == old(self).known,
            final(self).group_depth == old(self).group_depth,
            match group_prefix(old(self).s(), old(self).pos as int, old(self).names()) {
                Some((b, q, names)) => match res {
                    Ok(quant) => {
                        &&& (quant == Quantifiable::Yes) == q
                        &&& final(self).pos == b
                        &&& final(self).names() == names
                    },
                    Err(_) => false,
                },
                None => res is Err,
            },
            res is Ok ==> final(self).pos >= old(self).pos,
    {
        reveal(group_prefix);
        let mut quant = Quantifiable::Yes;
        if self.peek() == Some('?') {
            self.bump();
            match self.peek() {
                Some(':') | Some('=') | Some('!') => {
                    self.bump();
                },
                Some('<') => {
                    self.bump();
                    match self.peek() {
                        Some('=') | Some('!') => {
                            self.bump();
                            quant = Quantifiable::No;
                        },
                        _ => self.consume_group_name()?,
                    }
                },
                _ => return Err(Error),
            }
        }
        Ok(quant)
    }

    /// `Term :: Atom Quantifier?`
    fn parse_term(&mut self) -> (res: Result<Node, Error>)
        requires
            old(self).wf(),
        ensures
            final(self).wf(),
            final(self).chars == old(self).chars,
            final(self).named == old(self).named,
            final(self).known == old(self).known,
            final(self).group_depth == old(self).group_depth,
            parsed_as(
                term(
                    old(self).s(),
                    old(self).pos as int,
                    old(self).group_depth as nat, old(self).refs(),
                    old(self).names(),
                ),
                res,
                *final(self),
            ),
            res is Ok ==> final(self).pos > old(self).pos && rep_count(tree_of(res->Ok_0))
                <= final(self).pos - old(self).pos,
        decreases old(self).s().len() - old(self).pos, 2int,
    {
        let (atom, quant) = self.parse_atom()?;
        let q = self.peek_quantifier();
        if q == QuantAt::Absent {
            return Ok(atom);
        }
        if quant == Quantifiable::No || q == QuantAt::InvalidRange {
            return Err(Error);
        }
        self.consume_quantifier()?;
        if self.peek_quantifier() != QuantAt::Absent {
            return Err(Error);
        }
        Ok(Node::Repetition(Box::new(atom)))
    }

    /// `Alternative :: Term*`, stopping at `|` or `)` or the end.
    fn parse_alternative(&mut self) -> (res: Result<Node, Error>)
        requires
            old(self).wf(),
        ensures
            final(self).wf(),
            final(self).chars == old(self).chars,
            final(self).named == old(self).named,
            final(self).known == old(self).known,
            final(self).group_depth == old(self).group_depth,
            parsed_as(
                alternative(
                    old(self).s(),
                    old(self).pos as int,
                    old(self).group_depth as nat, old(self).refs(),
                    old(self).names(),
                ),
                res,
                *final(self),
            ),
            res is Ok ==> final(self).pos >= old(self).pos && rep_count(tree_of(res->Ok_0))
                <= final(self).pos - old(self).pos,
        decreases old(self).s().len() - old(self).pos, 4int,
    {
        let ghost s = self.s();
        let ghost p0 = self.pos as int;
        let ghost d = self.group_depth as nat;
        let mut terms: Vec<Node> = Vec::new();
        loop
            invariant_except_break
                self.wf(),
                self.s() == s,
                s == old(self).s(),
                self.chars == old(self).chars,
                self.named == old(self).named,
                self.known == old(self).known,
                self.group_depth == old(self).group_depth,
                d == old(self).group_depth,
                p0 == old(self).pos,
                p0 <= self.pos,
                alternative(s, p0, d, old(self).refs(), old(self).names()) == alternative_rest(
                    s,
                    self.pos as int,
                    d, old(self).refs(),
                    self.names(),
                    trees_of(terms@),
                ),
                crate::tree::rep_count_all(trees_of(terms@)) <= self.pos - p0,
            ensures
                self.wf(),
                self.s() == s,
                s == old(self).s(),
                self.chars == old(self).chars,
                self.named == old(self).named,
                self.known == old(self).known,
                self.group_depth == old(self).group_depth,
                p0 <= self.pos,
                alternative(s, p0, d, old(self).refs(), old(self).names()) == Some(
                    Parsed {
                        tree: concat_of(trees_of(terms@)),
                        end: self.pos as int,
                        names: self.names(),
                    },
                ),
                crate::tree::rep_count_all(trees_of(terms@)) <= self.pos - p0,
            decreases s.len() - self.pos,
        {
            match self.peek() {
                None | Some('|') | Some(')') => break ,
                _ => {
                    let ghost before = terms@;
                    let t = self.parse_term()?;
                    terms.push(t);
                    proof {
                        crate::tree::lemma_trees_of_push(before, t);
                        let ts = trees_of(terms@);
                        assert(ts.subrange(0, ts.len() - 1) =~= trees_of(before));
                    }
                },
            }
        }
        proof {
            crate::tree::lemma_trees_of_index(terms@);
        }
        match terms.len() {
            0 => Ok(Node::Empty),
            1 => {
                let ghost ts = trees_of(terms@);
                let t = terms.pop().unwrap();
                proof {
                    assert(ts.subrange(0, 0) =~= Seq::<Tree>::empty());
                }
                Ok(t)
            },
            _ => Ok(Node::Concat(terms)),
        }
    }

    /// `Disjunction :: Alternative ( '|' Alternative )*`
    fn parse_disjunction(&mut self) -> (res: Result<Node, Error>)
        requires
            old(self).wf(),
        ensures
            final(self).wf(),
            final(self).chars == old(self).chars,
            final(self).named == old(self).named,
            final(self).known == old(self).known,
            final(self).group_depth == old(self).group_depth,
            parsed_as(
                disjunction(
                    old(self).s(),
                    old(self).pos as int,
                    old(self).group_depth as nat, old(self).refs(),
                    old(self).names(),
                ),
                res,
                *final(self),
            ),
            res is Ok ==> final(self).pos >= old(self).pos && rep_count(tree_of(res->Ok_0))
                <= final(self).pos - old(self).pos,
        decreases old(self).s().len() - old(self).pos, 6int,
    {
        let ghost s = self.s();
        let ghost p0 = self.pos as int;
        let ghost d = self.group_depth as nat;
        let first = self.parse_alternative()?;
        let mut branches: Vec<Node> = Vec::new();
        branches.push(first);
        proof {
            crate::tree::lemma_trees_of_push(Seq::empty(), first);
            assert(Seq::<Node>::empty().push(first) =~= branches@);
            assert(Seq::<Tree>::empty().push(tree_of(first)) =~= seq![tree_of(first)]);
            let ts = trees_of(branches@);
            assert(trees_of(Seq::<Node>::empty()) =~= Seq::<Tree>::empty());
            assert(ts =~= seq![tree_of(first)]);
            assert(ts.subrange(0, 0) =~= Seq::<Tree>::empty());
            assert(crate::tree::rep_count_all(Seq::<Tree>::empty()) == 0);
            assert(crate::tree::rep_count_all(ts) == rep_count(tree_of(first)));
        }
        while self.peek() == Some('|')
            invariant
                self.wf(),
                self.s() == s,
                s == old(self).s(),
                self.chars == old(self).chars,
                self.named == old(self).named,
                self.known == old(self).known,
                self.group_depth == old(self).group_depth,
                d == old(self).group_depth,
                p0 == old(self).pos,
                p0 <= self.pos,
                branches.len() >= 1,
                disjunction(s, p0, d, old(self).refs(), old(self).names()) == disjunction_rest(
                    s,
                    self.pos as int,
                    d, old(self).refs(),
                    self.names(),
                    trees_of(branches@),
                ),
                crate::tree::rep_count_all(trees_of(branches@)) <= self.pos - p0,
            decreases s.len() - self.pos,
        {
            self.bump();
            let ghost before = branches@;
            let b = self.parse_alternative()?;
            branches.push(b);
            proof {
                crate::tree::lemma_trees_of_push(before, b);
                let ts = trees_of(branches@);
                assert(ts.subrange(0, ts.len() - 1) =~= trees_of(before));
            }
        }
        proof {
            crate::tree::lemma_trees_of_index(branches@);
        }
        if branches.len() == 1 {
            let ghost ts = trees_of(branches@);
            let b = branches.pop().unwrap();
            proof {
                assert(ts.subrange(0, 0) =~= Seq::<Tree>::empty());
            }
            Ok(b)
        } else {
            Ok(Node::Alt(branches))
        }
    }

    /// Classify what sits at the cursor as a quantifier.
    fn peek_quantifier(&self) -> (q: QuantAt)
        requires
            self.wf(),
        ensures
            quant_view(q) == peek_quant(self.s(), self.pos as int),
            q matches QuantAt::Range(n) ==> 3 <= n && self.pos + n <= self.s().len(),
    {
        match self.peek() {
            Some('*') | Some('+') | Some('?') => QuantAt::Symbol,
            Some('{') => self.brace_quantifier(),
            _ => QuantAt::Absent,
        }
    }
}


/// The characters of `pattern`, in order.
fn pattern_chars(pattern: &str) -> (chars: Vec<char>)
    ensures
        chars@ == pattern@,
{
    let mut chars: Vec<char> = Vec::new();
    broadcast use vstd::string::axiom_spec_iter;

    for c in it: pattern.chars()
        invariant
            it.seq() == pattern@,
            chars@ == it.seq().take(it.index() as int),
    {
        chars.push(c);
    }
    chars
}

/// Parse `pattern` into a tree, or fail when it is not a valid regular
/// expression.
pub(crate) fn parse(pattern: &str) -> (res: Result<Node, Error>)
    ensures
        match spec_parse(pattern@) {
            Some(t) => res matches Ok(n) && tree_of(n) == t,
            None => res is Err,
        },
        res matches Ok(n) ==> rep_count(tree_of(n)) <= pattern@.len(),
        pattern@.len() <= usize::MAX,
{
    let chars = pattern_chars(pattern);
    // A first reading collects the group names; `\k` reads as a plain escape.
    let mut first = Parser {
        chars,
        pos: 0,
        group_depth: 0,
        group_names: Vec::new(),
        named: false,
        known: Vec::new(),
    };
    assert(first.names() =~= Seq::<Seq<char>>::empty());
    let node = first.parse_disjunction()?;
    if first.pos != first.chars.len() {
        return Err(Error);
    }
    if first.group_names.len() == 0 {
        return Ok(node);
    }
    // With named groups, the pattern is read again in named-group mode.
    let mut second = Parser {
        chars: first.chars,
        pos: 0,
        group_depth: 0,
        group_names: Vec::new(),
        named: true,
        known: first.group_names,
    };
    assert(second.names() =~= Seq::<Seq<char>>::empty());
    let node = second.parse_disjunction()?;
    if second.pos != second.chars.len() {
        return Err(Error);
    }
    Ok(node)
}

} // verus!
