# wordle

An exact Wordle solver whose rules and search are verified with Verus.

The secret is one of the possible answers; a guess is any legal word, and a word that cannot be
the answer may still split the candidates better. For the candidates that are left the solver
finds the guess with the least expected number of guesses, by full expectimax; beyond the current
guess it looks ahead to candidates only. The first guess is always ALERT. Answers of the last 500
games are left out, and older ones recover their weight with time.

- `src/` is the library. Costs are whole numbers: the sum over the candidates of weight times
  guesses. `board` says what optimal play is, `solver` computes it, `memory` says what it
  remembers, `expectation` what a cost means, and `optimal`, `admissible`, `ceiling`, `bounds` and
  `parts` hold the proofs. `words`, `text`, `input`, `lists`, `letters` and `prior` read words,
  lines and the contents of files; `play`, `selftest`, `openers` and `analysis` put the solver to
  use; `sort`, `memo`, `index`, `natural` and `information` are what it needs.
- `app/` is the program: files, the terminal, and the division of costs by weights.
- `tests/` holds the tests.

The program reads `wordle-answers-alphabetical.txt`, and `wordle-guessable.txt` and
`wordle-history.csv` where they exist. Without an argument it plays at the terminal; `analyze`,
`selftest`, `bestopen` and `letters` print reports.
