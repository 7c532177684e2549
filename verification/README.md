# oremine

Decision logic of a miner for the ORE board game on Solana, verified with
Verus. Each round a square out of 25 wins; the miner predicts a set of
squares, deploys SOL on them with several miner keys, and claims winnings
after winning streaks.

## Layout

- `src/` — the verified library:
  - `predictor.rs`: the frequency predictor (win counts, hit record) and its
    picks: basic, hybrid, three-way and two-alternative;
  - `subset.rs`: the steps of the genetic search over 18-square subsets
    (random candidates, crossover, mutation, tournament selection, elitist
    generations) on integer fitness keys;
  - `frequency.rs`: the table of the most frequent winning squares;
  - `markov.rs`: the transitions a second-order Markov model learns;
  - `rounds.rs`, `deploy_rounds.rs`: per-round bookkeeping of the mining
    loops (new round, amount, deploy plan, wins, streaks, claims);
  - `accounts.rs`: the board, round and miner accounts read from their
    bytes through `ore-api`, the round's random number and winning square,
    and the deploy / claim decisions taken from a miner account;
  - `chain.rs`: deploy transactions, claim decision and refined-ORE accrual
    in `steel`'s fixed-point numbers;
  - `rng.rs`: the random draws, through `rand`;
  - `seqs.rs`: sequence helpers and lemmas.
- `tests/` — tests of the library on concrete values.
- `app/` — the program around it: RPC reads and transactions, the
  websocket server, and the floating-point models (probabilities, expected
  value, hidden Markov model), which are not verified.
