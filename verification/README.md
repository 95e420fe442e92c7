# aegle

Post-processing of sifted QKD keys: error-rate estimation, error correction
(Cascade, binary and non-binary LDPC, an external SimCommSys service) and
privacy amplification, proved with Verus.

- `src/` is the verified library. Its main parts:
  - `key_state`: the key state machine, from sifted to secret key;
  - `stages`, `cascade`, `simcommsys`: the leader's post-processing stages,
    each a `step`/`update`/`finalize` worker; `follower`: the follower's answers;
  - `toeplitz`: the hash of privacy amplification;
  - `polynomial`, `finite_field`, `decoder`, `field_alist`, `utils`: arithmetic
    over `GF(p^n)` and the tables and matrix formats of non-binary decoding;
  - `sparse_matrix`, `matrices`, `alist`, `codec`: parity matrices and their formats;
  - `peers`, `key_processing`, `framing`, `csv`: the decisions and formats of the
    node's protocol.
- `app/` is the node itself: configuration, QUIC connections, the tasks of the
  leader and follower roles, and the floating-point parts (error rates, belief
  propagation, non-binary decoding). Its modules `benchmark` and `emulator` hold
  the Cascade benchmark and the emulator of QKD links used to test nodes.
- `tests/` runs the library on concrete values.
