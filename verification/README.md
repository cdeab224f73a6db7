# md5ium

A search for two-block MD5 collisions in the style of Wang's differential
path and Klima's tunnels, written in Verus with its contracts proved.

The first block `M'` differs from `M` by `2^31` in words 4 and 14 and by
`2^15` in word 11; the search forces the bit conditions of a condition table
onto the working values and checks the modular differences of the path step
by step. The second block is searched from the chaining value the first one
leaves, with the XOR differences `(2^31, 2^31+2^25, 2^31+2^26+2^25, 2^31+2^25)`
on it, until both compressions give the same chaining value.

The searches draw random words; each draw goes through a function that takes
the drawn values as arguments and whose contract says exactly what comes out
for each of them: `first_round_pass` (one pass over the first round),
`klima_draw` (one value of `Q[16]`), `q0_q15_attempt` and `q0_q1_attempt`
(the values that start the second block), `q7_q10_attempt` (one draw of
`Q[7] .. Q[10]`) and `tunnel_candidate` (one bit pattern of the tunnels in the
second block). `tunnel_step` (`klima4_9` then `check_diffs`), which moves through `Q[19]`
and checks the path, draws nothing.

Layout:

- `src/md5.rs`: MD5 constants, round functions, the step recurrence and its
  inverse, and the compression function as a specification.
- `src/bits.rs`: single-bit operations.
- `src/block_1.rs`: the first block (condition nodes, bitfields, first round,
  tunnels for steps 16 to 20, differential checks).
- `src/block_2.rs`: the second block (conditions forced and verified, the
  multi-message tunnels, the full check of the collision).
- `src/forcing.rs`: why forced conditions hold on a consistent table.
- `src/cond_file.rs`: reading the condition tables from the lines of their files.
- `src/collision.rs`: both blocks together, and the bytes they are written as.
- `src/search.rs`: the random words the searches draw, and their attempt bound.
- `app/main.rs`: reads `data/md5cond_1.txt` and `data/md5cond_2.txt`, runs
  three two-block searches from the MD5 initial value and writes `b1.bin` and
  `b2.bin`.
