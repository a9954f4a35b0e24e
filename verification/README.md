# tswn

A verified library for mining names of the name arena game.

- `perm`, `sort`, `median`, `text`, `decimal`: the byte permutations and key
  schedule, ascending order of a few bytes, the median of three, splitting text
  and writing numbers.
- `name`, `name_laws`: teams and names, their permutations, base values,
  attributes and skills, and what holds of every name.
- `cacluate`, `command`: the names of the ids, the screen, the shared work
  status and the dispatch of batches among threads.
- `classic`: the first version of the name computation.
- `rc4`, `player`, `engine`: the battle stream cipher and the players of a battle.
- `app/`: the command line program around the library (threads, channels,
  files, logging and the figures that need floating point).

The program in `app/` screens names by their attributes only. The score
models of the evaluation step are not part of this project, so the score
threshold (`--qp-expected`) has no effect: every name that passes the screen
is recorded, with its score columns left empty. Batches are always sized by
the threads' speeds (the report interval); the fixed-size dispatcher is part
of the library but not used by the program.
