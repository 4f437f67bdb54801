# densezip

An archiver whose goal is the smallest output. The library, under `src/`, is
written in Verus and verified; `app/` holds the command line `dnz`.

- `cm`: a context-mixing compressor of its own, in pure integer arithmetic.
- `backends`: store, zstd, brotli, LZMA and the context mixer, and the race
  between them.
- `scan`, `plan`, `rebuild`: finding compressed streams in a file, the segments
  that say what was found, and rendering them back.
- `channels`: where the payload of segments goes.
- `archive`: planning files, laying them together, packing, reading, extracting
  and checking.
- `progress`, `update`, `util`: the rest.
- `outside`: the codecs and checksums of other crates, with what is believed of
  them.

What is proved of the whole: an archive that opens gives back every file that
was packed into it (`archive/create.rs`, `lemma_pack_roundtrip`), and extracting
gives those files (`archive/law.rs`, `lemma_extract_roundtrip`). `pack_flagged`
says besides whether a codec fell short: where none did, all that can be taken
apart is, and no backend does better on any channel than what was packed.
