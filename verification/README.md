# pcgroup

Finite polycyclic groups given by power-commutator (PC) presentations, written in Verus:
every executable function of the library carries a `requires` / `ensures` contract that the
verifier proves.

Layout of `src/`:

- `word`, `presentation`, `builder`: normal form words, PC presentations and their validated
  construction; `text` holds the textual forms.
- `collection`, `collector`, `element`: collection to normal form (the semantics is the spec
  function `run` of `collection`), and group elements with products, powers and inverses.
- `consistency`: the consistency test of a presentation.
- `generating_sequence`, `series`: subgroups in echelon form, commutator subgroups, the lower
  central series, nilpotency, chief series and supersolvability.
- `extension`: split and central extensions.
- `baum_clausen`: irreducible monomial representations of supersolvable groups.
- `util`: number theory, finite fields `F_{p^r}`, monomial matrices over roots of unity, matrices
  and subspaces over `F_p` (`linalg::kernel` states what row reduction keeps).
- `zoo`: cyclic, abelian, dihedral, quaternion, affine, unipotent and Borel groups, and a few
  small groups (`S_3`, `S_4`, `A_4`, `SL(2, 3)`).

`tests/` exercises the library on concrete groups.
