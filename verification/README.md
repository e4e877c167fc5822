# sdr_core

Signal-processing core of an RTL-SDR radio receiver, with its control logic
verified in Verus, and an HTTP/WebSocket server around it.

## Layout

- `src/` — the verified library:
  - `rds` — RDS block synchronisation (CRC-10 syndrome, offset words), group
    parsing (PS name, RadioText 2A/2B, PTY/TP/TA/MS flags) and the
    differential bit decoder;
  - `stream` — the IQ ring buffer: arrival order, overwrite of the oldest
    samples when full, post-retune settling;
  - `manager` — pipeline transitions: retune settling and mode crossfade;
  - `service` — tuning decisions (DDC shift or hardware retune) and the silent stub
    IQ source;
  - `blocks` — decimation planning, squelch gate with hang time, stereo
    switch, overlap-save history of block FIR filters;
  - `waveform` — 512-point display snapshots;
  - `device`, `settings`, `modes` — device selection and configuration,
    transfer sizing, error mapping, mode enums.
- `tests/` — tests of the library.
- `app/` — the server binary: floating-point DSP (filters, demodulators,
  FFT, AGC), RTL-SDR and libusb access, configuration loading, REST and
  WebSocket handlers. It drives the verified state machines of `src/`.
