# sf_ope

A sensor fusion system that keeps sensor readings private with
order-preserving encryption (OPE) and tolerates faulty sensors with
Marzullo's algorithm, which the collector runs directly on ciphertexts.

The library in `src/` is verified with Verus:

- `data/` — sensor readings, their encryption (OPE for the collector,
  ChaCha20Poly1305 end to end for the client) and their 64-byte wire form.
- `network/` — the packet trait, the two packets, and the framing that
  turns packets into bytes and back.
- `collector/` — Marzullo's algorithm over encrypted intervals, with its
  optimality and order-invariance laws, and the collector's decisions.
- `sensor/` — the sensor's answer to a request.
- `utils/` — big-endian integers, key handling and the cipher calls.

`app/` holds the three programs (`sensor`, `collector`, `client`): the UDP
sockets, the environment variables and the printing.
