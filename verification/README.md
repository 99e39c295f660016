# nte_dps

Combat statistics from a game's network traffic, written in Rust and verified with
Verus.

The library reads Ethernet frames, finds damage records, hit points and declared
characters at any bit position of a payload, works out which target a hit belongs
to, and keeps the statistics of a fight. What each function returns or changes is
stated in its contract over mathematical models (`Seq<char>` for text, `int` for
numbers, views of the data types), and the properties that span functions are
stated as public proof functions.

## Numbers

Verified code holds no floating-point values. Points in time are microseconds,
damage and hit points are thousandths of a point, shares are thousandths of a
percent. Values of packets are kept by their bits (`float`), with the order and the
conversions that the decoder needs.

## Modules

- Text and numbers: `text`, `decimal`, `figures`, `float`, `hexadecimal`, `bits`,
  `runs`, `sorting`, `json`
- Packets: `capture`, `parser`, `abyss`, `protocol`, `import`
- Targets: `identifier`, `aliases`, `resource_index`, `advvision_index`,
  `class_hint`, `target_identity`, `net_identity`, `net_event`, `runtime_mapping`,
  `object_state`, `target_instance`, `target_fact`, `hit_context`,
  `target_resolver`, `target_track`, `scene`
- The fight and its display: `model`, `characters`, `export`, `display`, `session`,
  `hotkey`, `network`

`app/` is the window around the library: capturing with Npcap, files, threads, the
keyboard hook and the drawing. `tests/` runs the library on concrete values.

## What is trusted

These are believed rather than proved: `String::push`, `hex::encode`, `hex::decode`,
the wrapper that tells the variants of `serde_json::Value` apart, and two functions
whose results only have names, `serde_json::from_str` and `str::to_lowercase`.
