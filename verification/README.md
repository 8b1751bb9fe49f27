# ffrwd-nal

The byte level of H.264, HEVC and AV1, verified with Verus: where the
NAL units and OBUs of a coded stream begin and end, which of them open a
picture, and how to read a payload out of one or put a payload into one
without moving anything else. No dependencies, no unsafe code, no I/O.

## What it does

It cuts. `annexb::scan_nals` gives every NAL unit with the offset of its
start code, `h26x::access_units` groups them into pictures and says which
are random access points, `obu::scan_obus` and `obu::temporal_units` do
the same for AV1, and `feed::Feed` finds the same boundaries a chunk at a
time for a stream that is still being written. `annexb` reframes between
start codes and length prefixes of one to four bytes.

It carries. A format that rides inside a coded stream declares a UUID
and, for AV1, a `metadata_type`, which is what `Select` holds. `sei`
finds, builds and places SEI messages; `obu` finds, builds and places
metadata OBUs. Nothing else in the packet is read and nothing else is
moved.

It reads the two records a NAL reader needs. `config` takes the length
prefix width and the parameter sets out of an `avcC` or `hvcC`, builds an
`avcC` from parameter sets, and answers which framing a stream is in.
`sps` reads the few SPS fields that record repeats, and `codec_string`
spells the RFC 6381 name.

## What is proved

Every public function states what it returns for every input, over a
model of the bytes: `annexb::scan`, `h26x::units`, `sei::messages`,
`obu::obus`, `feed::pieces` and their like. The `*_laws` modules state
what holds between functions:

- `ep` and `annexb_laws`: escaping round trips, the two framings round
  trip, a NAL unit spliced in is one NAL unit more.
- `sei_laws` and `obu_laws`: what is written is what is read, and what is
  put into a carrier is found there again.
- `weave_laws` and `weave_obu_laws`: carriers that took payloads are the
  carriers they were.
- `config_laws`: what goes in comes back out of every framing, and a
  record gives back the parameter sets it was built from.
- `feed_laws`: chunks make no difference, a fed stream is its access
  units or temporal units, and an OBU that has arrived by half is waited
  for.
- `feed_state_laws`: carriers are numbered in order, what is held is
  bounded, and a feed that gave up goes on at the next start code or
  OBU.

`app/` puts `std`'s error traits on the crate's error.
