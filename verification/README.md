# bittorrent_rust

A BitTorrent client whose logic is verified with Verus.

- `src/bencode/`: bencode values, their grammar, the parser, the canonical encoding, and the extent
  of a value in a byte string. `laws.rs` relates them.
- `src/torrent.rs`: torrent metainfo, and the sizes of pieces and blocks.
- `src/peer.rs`: handshakes, messages, bitfields, and what a connection knows of its peer.
- `src/tracker/`: what trackers are asked over HTTP and UDP, how their answers are read, and the
  search for peers.
- `src/download/`: the download of one piece, and the queue of all pieces.
- `src/errors.rs`: the texts of the errors.
- `src/bytes.rs`, `decimal.rs`, `endian.rs`, `text.rs`, `digest.rs`, `random.rs`: what the others
  stand on.
- `app/`: the command line, the network and the files.

Contracts speak of models: `Bencode` for a bencode value, `Metainfo` for a torrent, `Wire` for a
message, `Transfer` for the download of a piece. Proof functions whose names start with `law_` state
what holds of several functions together.

The functions that call other crates are trusted: SHA-1 and hexadecimal in `digest.rs`, chance in
`random.rs`, UTF-8 in `text.rs`, URLs in `tracker/udp.rs`.

```
bittorrent-rust info sample.torrent
bittorrent-rust peers sample.torrent
bittorrent-rust download-piece sample.torrent --piece 0 --output piece.bin
bittorrent-rust download -t sample.torrent -o output/
```
