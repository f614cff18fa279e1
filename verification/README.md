# Additive NTT

Additive number-theoretic transforms over binary fields, with their behaviour stated as contracts
and proved by Verus.

- `field`, `tower`: binary fields, and the tower of quadratic extensions over the field of two
  elements.
- `packed`: vectors of scalars of one field.
- `subspace`: subspaces over the field of two elements, and the polynomials that vanish on them.
- `twiddle`, `additive_twiddle`: access to the twiddle factors of the rounds.
- `model`: what the transforms compute, on sequences of scalars.
- `butterfly`, `interleave`, `lane_round`, `progress`: the butterflies, the rounds within vectors,
  and what is left to do of a round.
- `single_threaded`: the transforms.
- `laws`, `padding`, `evaluation`: what holds of the transforms. The inverse transform undoes the
  forward transform; both are linear and independent of how the data is packed and batched; padded
  data gives repeated values; transforms that skip rounds, and transforms of extended data, consist
  of transforms on cosets; and the forward transform evaluates polynomials.

`app/` holds a program that transforms random data.
