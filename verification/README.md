# rust_mule

A verified library for an I2P Kademlia (iMule-compatible) node: the KAD
wire codecs and packet obfuscation, MD4/MD5, the routing table and its
selection rules, request bookkeeping and flood limits, keyword and source
caches, keyword search/publish jobs, lookups, the HELLO exchange and the
status snapshot, plus the file-sharing, upload-tracking and nodes.dat
logic. Every function of the library carries a contract that the verifier
checks; the proof functions named `law_*` state properties that span
several operations.

Layout:

- `src/` holds the library.
- `tests/` holds ordinary Rust tests run against the compiled library.
- `app/` holds the program around it: command line, files, clock and sockets.
