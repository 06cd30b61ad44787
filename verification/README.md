# wipro

Ranges and channel state from ESP32 nodes. Nodes find each other, range each
other, and report what they hear over their serial lines; programs on a host read
these reports, keep them, and pass them on to a server.

`src/` is the library, verified with Verus: `controller` is the host's side,
`firmware` the node's, `roundtrip` holds the laws that relate the two, and the
other modules are what both need (framing, numbers, base64, UTF-8, bytes).

`app/` holds the programs: the host's programs, and the firmware, which is built
for the chip alone. The firmware bakes in tables for the estimation of ranges from
`data/idft_*.bin`.

`tests/` runs the library on concrete values.
