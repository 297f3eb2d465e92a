# fuzzy-rank

Typo-tolerant matching and ranking, verified with Verus. The library in `src/`
holds one edit-distance engine, one set of ranking keys, one set of text helpers
and one token matcher, and four adapters on top of them: filesystem paths, shell
commands, messages, and records of several fields.

## Layout

| Module        | What it holds                                                      |
|---------------|--------------------------------------------------------------------|
| `distance`    | edit distance with a profile of its edits, and its bounded search  |
| `token_match` | best part of a token, best run of tokens, best cut of a token      |
| `substring`   | where a text holds a query up to edits                             |
| `text`        | lower case, tokens, variants, signals, the order of texts          |
| `ranking`     | sort keys and their orders                                         |
| `score`       | scores and ratios, held exactly                                    |
| `order`       | strict weak orders and the best of a list of offers                |
| `sort`        | a stable sort of ranked items                                      |
| `path`        | keywords that a path holds as they are, and mistyped queries       |
| `command`     | mistyped queries against commands                                  |
| `message`     | words that a query and a message share                             |
| `metadata`    | queries against records: as they are, scattered, or up to edits    |
| `unicode`     | what is taken from `std` about characters and text                 |

Texts are sequences of characters. Each adapter says what it may offer for a
candidate (`text_offer`, `sequence_offer` and the like), and its result is the
best of those offers in the order of its ranking key. Public proof functions
state what holds of the library as a whole: that orders are total, that the best
match is best, that matches stay within their limits.

Sums of positions and lengths can be too great for a `usize` on texts that hardly
fit in memory, and a place in a field that is not ASCII may fall inside a
character. Functions that need such things ruled out say so in `requires`. The
measures of a path, `best_match` of a path or a command, and `search_rank` of a
record have a form whose name begins with `try_`: it takes any input, finds out
first and then calls the function, or gives `None`.

`app/` is ordinary Rust for callers whose scores are `f64`. `tests/` runs the
library.
