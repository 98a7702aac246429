# modem-core

The core of an audio modem for narrow-band FM radio, verified with Verus: framing,
forward error correction and the session logic of transmitter and receiver.

## The library

`src/` holds what can be decided and computed on integers. Every function there has a
contract, and what holds of the library as a whole stands in proof functions whose names
begin with `law_`.

| Modules | |
|---|---|
| `profile`, `ratio`, `types`, `rrc` | profiles, their parameters and their constraints |
| `crc`, `header`, `app_header`, `marker`, `payload_envelope`, `framing`, `be`, `bits` | formats of what is sent |
| `constellation`, `symbol`, `interleaver`, `pilot`, `preamble`, `frame` | from bytes to the symbols of a frame |
| `ldpc`, `rs`, `raptorq_codec` | codes against errors and losses |
| `rx`, `rx_v2` | decisions of a receiver: where to look, what to keep, when to stop |
| `rx_stream`, `rx_stream_v2` | receivers fed from a live stream |
| `ffe`, `equalizer`, `filter`, `tracking`, `acquire`, `gate` | equalizing, and which samples the signal processing looks at |
| `link` | what is sent is received |

Symbols are points with integer coordinates in units of 2^-53; log-likelihood ratios are
integers in units of 2^-16. The erasure code and the fountain code are those of
`reed-solomon-erasure` and `raptorq`, called through functions whose contracts say what
is relied on.

## Around it

`app/` is the floating-point signal processing and the loops that drive the library.
`tests/` runs the library against known values and from end to end.
