# sssim

A simulator of secure software repositories: several ways for a package
server to convince its clients that they see the latest revision of each
package (insecure, Hackage, TUF, Mercury, sparse Merkle trees, RSA
accumulators and a daily pool of RSA accumulator updates), with the
accumulator, proof-of-exponentiation and skip-list machinery they rest on.

The library under `src/` is written in Verus. Its functions carry contracts
over mathematical models (sequences, maps, multisets and integers), and the
laws that tie operations together (no rollback, catching up, served proofs
verifying, witnesses staying sound) stand as public proof functions beside
them. Big-integer arithmetic and primality come from `rug`, hashing from
`sha3`, and sparse Merkle trees from `smtree`, each through a small wrapper
whose contract states what that crate's documentation promises.

- `src/bigint.rs`, `src/primitives/`: integers, groups, primes, the skip list.
- `src/accumulator/`, `src/poke.rs`: the RSA accumulator and its proofs.
- `src/authenticator/`: the authenticators the simulator compares.
- `src/repository/`: the repository model (logs, TUF metadata, hashing to
  a prime below a modulus, a plain RSA accumulator).
- `tests/`: tests of the library.
- `app/`: the benchmark driver (database, timing, command line).
