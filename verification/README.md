# eqn

Algebraic structures (monoids, groups, semirings, rings, fields, modules,
quotients), expression trees over them, and rewriters that bring an
expression to a normal form, verified with Verus.

Layout of `src/`:

- `integer`, `rational`: unbounded integers (arithmetic by `num-bigint`) and
  rational numbers in lowest terms.
- `op`, `monoid`, `group`, `ring`, `structure`, `quotient`, `coset`,
  `dihedral`, `gf2`, `operator_impl`: operators with their laws as proof
  obligations, substructures, and quotients by normal subgroups and ideals.
- `monoid`, `group`, `semiring_expr`, `ring_expr`, `elementary`,
  `elementary_rewriter`, `forms`: expression trees, their normal forms, and
  rewriters whose results equal those normal forms.
- `monoid_laws`, `group_laws`, `semiring_laws`, `ring_laws`: normalizing
  keeps the value of an expression; monoid normal forms are fixed points.
- `lexer`, `grammar`, `parser`, `ast`, `syntax`, `*_parse`, `monoid_parser`:
  reading expressions from text.
