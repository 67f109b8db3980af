# safe_regex_rs

Static heuristic detector for catastrophic-backtracking (ReDoS) regular
expressions in JavaScript syntax, verified with Verus.

`safe_regex(pattern, options)` answers `true` exactly when the pattern is a
valid regular expression, its star height is at most 1, and it holds at most
`options.limit` repetitions (25 by default). The check never runs the
pattern.

"Valid" follows `new RegExp(pattern)` without flags, with two deliberate
departures: groups may nest at most 256 deep, and a group name may be used
only once in the whole pattern, even in different alternatives
(`(?<a>x)|(?<a>y)` is refused, as older engines refuse it). A pattern with a
named group is read in named-group mode: there `\k` must be a reference
`\k<name>` to a group of the pattern (before or after it), and `\k` inside a
class is refused.

Layout of `src/`:

- `grammar.rs` states the accepted language and the reduced tree of each
  accepted pattern as pure functions over the pattern's characters.
- `parser.rs` is the executable recursive-descent parser, proved to compute
  exactly what `grammar.rs` states.
- `tree.rs` defines the tree, its star height and repetition count.
- `ident.rs` holds the rules for group names, on top of the Unicode
  `ID_Start`/`ID_Continue` tables of the `unicode-id-start` crate.
- `lib.rs` holds the public API and the walk that measures a tree.
- `laws.rs` and `embed.rs` prove properties that hold for every pattern:
  monotonicity in the limit, bounded group nesting, distinct valid group
  names, the shape of accepted trees, reversed class ranges, and that
  wrapping a pattern as `(p)*` adds exactly one level of star height.
