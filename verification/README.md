# DebordoStat

Monte Carlo estimate of the death probability ("débordement") of a
MyHordes town for a range of defense values.

- `src/` is the verified library: the rules of the attack model
  (`rules`), the attack strength distributions with exact integer weights
  (`distribution`), the allocation of an attack to the targets
  (`simulator`) and the bookkeeping of the runs (`montecarlo`).
- `app/` is the program around it: reading `SimConfig.toml`, the
  floating-point steps (random weights of the targets, defense values,
  probabilities), the parallel loop over defense values, the output file,
  and the debugging tools (`debug`, `detailed-debug`, `simulate-debug`,
  `test` as first argument).
- `tests/` exercises the library.
