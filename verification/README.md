# staticizer

The decisions of the Staticizer compiler driver, verified with Verus.

Staticizer wraps rustc so that const code can read values registered across
crates through `Records::<T>::ITEMS`. The driver's logic is stated here over
plain values:

- `src/register.rs`: what the `register` attribute accepts and the export
  name it gives a static.
- `src/records.rs`: which statics are records and the ordered slice that
  `ITEMS` evaluates to.
- `src/finish.rs`: how the final `output` getters are kept, named and
  exported.
- `src/driver.rs`: the compiler's command line.
- `src/order.rs`, `src/bytes.rs`: the byte-string order and the stable sort
  and de-duplication that give compiler output a fixed order.
- `src/canonical.rs`: why that order does not depend on the order in which
  the compiler lists things.

`app/` holds the rustc driver itself, which needs the compiler's private
crates.
