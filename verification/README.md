# competeai_simulation

A verified model of restaurants that compete for customers in a virtual town. Managers and
customers are asked questions in words; a language model, or a script, answers for them.

- `src/` is the library. Every function in it has a contract, and Verus proves it.
  - The town: `config`, `world`, `simulation`, and the phases of a day in `mechanisms`, `choice`,
    `apportionment`, `patronage`, `reward` and `reflection`. `day` states what a whole day keeps,
    `course` what holds of all days of a run, and `replies` that what a language model says to
    each question decides the run.
  - Questions and answers: `prompts` and `reproduce_mock`. `readback` and `reading` state what
    scripted managers and customers read of a question: customers, salary, budget, preference
    and offers as they were told. `popularity` states who does not go by reputations.
  - Measures and records: `metrics`, `record`, `experiments`, `hashing`. `inequality` states what
    holds of the Gini coefficient, rounding included.
  - Numbers and text: `binary64` and what it rests on (`rounding`, `magnitude`, `quotient`,
    `digits`), `bounds` and `accuracy` on the order of numbers and their rounding, `numerals`,
    `writing`, `shortest`, `text`.
- `tests/` runs the library, with numbers held against those of the machine.
- `app/` is the command line: it talks to the language model, draws random numbers, drives the
  simulation engine and writes results.

Two things are believed without proof: that `String::push` puts a character at the end, and that
what `serde_json` reads from a text depends on the text alone.
