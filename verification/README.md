# dht_lens

A DHT crawler library: it answers and learns from KRPC traffic on the BitTorrent DHT,
collects the info hashes that other nodes announce, downloads their metadata from peers
over the `ut_metadata` extension, turns it into torrent records and indexes their names
for search.

The library under `src/` is verified with Verus:

- `bencode` — parsing and encoding, with the round-trip laws (`bencode/laws.rs`).
- `dht` — the routing table, KRPC messages, compact node lists and the packet handler.
- `metadata` — text decoding, info dictionary parsing and the metadata download state
  machine (`metadata/fetcher.rs`).
- `crawler`, `adysec_engine`, `pipeline` — records built from metadata, de-duplication of
  events and peers waiting for a fetch.
- `search`, `storage`, `config`, `text`, `hexcode`, `model` — search text, the rows that
  are stored, settings and small helpers.

`app/` holds the program around it: command line, sockets, peer connections and the
libSQL store. `tests/` exercises the library on concrete values.
