# vpnr

The framing protocol and the per-read decisions of a small TCP tunnel, verified
with Verus.

- `src/tcp/protocol.rs`: the wire format (a 10-byte header of size, message id,
  flags, IPv4 address and port, then the payload), its encoder and decoder, and
  their specifications.
- `src/tcp/laws.rs`: what the encoder and decoder promise together (frames read
  back as written, reads may be split anywhere, decoded frames re-encode to the
  bytes read).
- `src/network.rs`, `src/network/tcp.rs`: the stream reassembly buffer and the
  step that each end of the tunnel takes after a read.
- `app/`: sockets, threads, connection tables and the command line.
