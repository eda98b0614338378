# jsoncompat

Conservative facts about JSON Schema documents: the building blocks a
check of whether every value one schema accepts is also accepted by another
(a *subset* check) relies on, and the pieces of an explanation when a
constraint is not preserved. The library does not itself hold the recursive
subset check. Every fact the library answers with `true` is sound: a
verified contract states what it guarantees about the values the schemas
accept.

## Model

- `src/json.rs` holds JSON instance values as plain data; numbers are
  non-negative integers, negative integers, or the bits of an `f64`.
- `src/schema.rs` holds a typed schema tree: one node kind per JSON type
  (gathering that type's keywords) and the applicators `allOf`, `anyOf`,
  `oneOf`, `not` and `if`/`then`/`else`.
- `src/semantics.rs` defines, as a spec function, which values a schema
  accepts. Regular-expression matching is a parameter, so the facts hold for
  any regex dialect. Doubles are compared exactly, through their bits
  (`src/floats.rs`).

## Facts

- JSON types a schema may accept or accepts wholesale (`types.rs`, `bits.rs`).
- Length, count, number and integer ranges read off a schema's shape, with
  their disjointness, emptiness and containment facts (`intervals.rs`,
  `lengths.rs`, `numeric.rs`, `lattice.rs`).
- Constraint-by-constraint subset checks for strings, numbers and integers
  (`scalar.rs`), and syntactic equivalence (`equivalence.rs`).
- Unions that accept every value (`covers.rs`, `partitions.rs`,
  `number_covers.rs`, `anyof_partitions.rs`, `object_partitions.rs`), the
  complement of a union (`complements.rs`), and two-arm `oneOf` partitions
  (`oneof_partitions.rs`).
- Property names an object must carry, also through `dependentRequired`
  (`names.rs`, `properties.rs`), and Hall's condition for arrays of distinct
  values (`hall.rs`).
- Finite candidate sets: the explicit enumeration of a typed node
  (`enumeration.rs`) and the integers of a split `allOf` integer range
  (`candidates.rs`).
- Facts that consult a pattern engine or a schema evaluator take it as a
  function argument, and hold for every regex semantics and evaluator its
  answers are sound for: strings a schema rejects outright (`literals.rs`),
  locally empty schemas and the `oneOf`s they reduce (`emptiness.rs`),
  member names a schema forbids (`forbidden.rs`), schemas that require a
  name the other forbids (`conflicts.rs`), finite string domains of
  `propertyNames` (`name_domains.rs`), object member-count intervals
  (`counts.rs`), and the integer values a number schema pins down
  (`integer_values.rs`, with value copies from `copies.rs`).
- Failure explanations with schema locations (`explanation.rs`,
  `explainers.rs`, `pointer.rs`).

Public proof functions state the laws that relate these facts to the
semantics.

## Layout

- `src/`: the verified library (Verus).
- `tests/`: tests of the library on concrete values.
- `app/`: conversion between `serde_json` values and the library's values,
  and the diagnostics that spell `f64` values.
