# sonyctl

Command-line control for Sony WH-1000XM series headphones over Bluetooth
RFCOMM, with its protocol logic verified in Verus.

## Layout

- `src/` — the verified library
  - `protocol.rs`: packet kinds, escaping, checksum, building and decoding
    packets, and the round-trip laws of the wire format
  - `frame.rs`: cutting frames out of received bytes
  - `exchange.rs`: acknowledgements, sequence numbers and the collection of
    reply payloads during a command
  - `requests.rs`: the command payloads
  - `replies.rs`: decoding the collected reply payloads
  - `headphones.rs`: the values the headphones report and accept
  - `mac.rs`: Bluetooth address text to socket address bytes
  - `discover.rs`: finding a Sony headphone in `bluetoothctl` output
  - `display.rs`: on/off words, battery gauge
  - `text.rs`: text helpers and the few trusted standard-library calls
- `app/` — the program: command line, RFCOMM socket, timing and printing
- `tests/` — tests of the library
