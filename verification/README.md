# dht_spider

A BitTorrent DHT crawler whose logic is written and proved in Verus. It finds torrents in the DHT (BEP-5),
downloads their metadata from peers (BEP-9, BEP-10), learns of more peers on the way (BEP-11), stores what
it found and shows it in a web panel.

## Layout

`src/` is the library. Nothing in it performs input or output: time and randomness are handed in, and what
is to be sent or told is handed out.

| Module | Contents |
|--------|----------|
| `text`, `keyed`, `timed` | text and numbers, ordered entries, entries with an age |
| `bencode`, `codec`, `hexcode` | bencoded values, their wire form, hexadecimal text |
| `types`, `util` | addresses, identifiers, compact forms |
| `peers`, `transaction`, `blacklist`, `token`, `routing` | the tables of the node |
| `krpc`, `command` | the messages of the DHT, the requests of the owner |
| `protocol` | what the node does, as functions from its state to its next state |
| `dht` | the node itself, proved to do what `protocol` says |
| `laws` | what follows for the node as a whole, and for two nodes that talk to each other |
| `wire`, `download` | requests for metadata, framing, handshakes, the download of one torrent |
| `metadata` | name and files of a torrent |
| `storage`, `web`, `logger` | paging and search, the web panel's decisions, the names of log files |

Public proof functions named `law_...` state what holds of the functions of a module together.

`app/` is the program around the library: sockets, the database, the web server.

## What is taken on trust

The crates `dashmap`, `hex`, `sha1` and `serde_json`, and a few functions of the standard library, are
called through small wrappers whose contracts are believed. Each says in its doc comment which function it
calls and what is claimed of it.

## Running

The program listens on UDP 6881 for the DHT and on TCP 3000 for the panel, and keeps its torrents in
`torrents.db`. At its start it prints the access key of the panel. Each torrent whose metadata was
downloaded is printed as one line of JSON:

```json
{"type":"metadata","infohash":"a1b2c3...","name":"Example","files":[{"path":["dir","file.mkv"],"length":123456789}]}
```
