# ld2450_proto

Protocol logic for the HLK-LD2450 24 GHz mmWave radar, written in Verus and
proved against its contracts.

- `src/types.rs`: targets and radar frames, and the decoding of their bytes
  (the radar's sign-magnitude coordinates, little-endian fields).
- `src/frame.rs`: the streaming data-frame parser (`FrameParser`), its
  transition function `step`, the run of it over a byte sequence `run`, and
  the laws of the parser: frames sent are reported, noise and damaged
  footers do not hide later frames, nothing is reported that was not sent.
- `src/command.rs`: command frames (`CommandFrame::build`) and the parser for
  the radar's acknowledgements (`parse_ack`).
- `src/ctl.rs`: the control tool's logic: the `x1,y1,x2,y2` zone syntax and
  the judgement of an acknowledgement.
- `src/config.rs`: the daemon's settings and their defaults.

`app/` holds the programs around the library: the `ld2450-ctl` command-line
tool (serial I/O) and the daemon's serial reader, socket server, TOML
loading, and the floating-point geometry of targets.
