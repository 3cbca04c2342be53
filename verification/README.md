# pumpkin (verified wire formats and Vine forwarding)

A Verus library for parts of a Minecraft Java server:

- `var_int`, `ser`, `bit_set`: the VarInt, boolean, big-endian integer, string
  and bit-set codecs, each with a proof that reading back what was written
  gives the same value.
- `light_arrays`, `light_update`: the light-update packet for every supported
  release (trust-edges flag, bit-set or VarInt masks, counted or per-section
  light arrays), the 12-word cut that release 26.2 needs, and the proofs that
  the reader inverts the writer.
- `config`: the configuration packets (feature flags, known packs, plugin
  message, server links).
- `plugin_response`, `vine`, `crypto`: which forwarding handshake a login
  reply answers, and the checks of a Vine proxy's signed reply (key
  derivation, Ed25519 signature, version, timestamp drift, challenge, address
  and game profile).
- `protocol_packet`: the event that plugins see for raw packets.

`app/` holds what Verus does not see: the async login glue, IP address
parsing and the error messages.
