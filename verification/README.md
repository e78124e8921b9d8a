# obscura codec (verified)

A chunked compressor and stream cipher. Each chunk of a file (up to 1 MiB) is encoded
in four bit-stream formats, both as it is and after a delta filter:

- raw: the bytes as they are;
- Fibonacci: each byte as its Zeckendorf (Fibonacci) code;
- LZ: literals and back-references found through hash chains;
- pairs: a dictionary of frequent byte pairs, pairs as Elias-gamma indices.

The shortest of the eight encodings is written behind its length and the Adler-32
checksum of the chunk, and the whole record is masked with a keystream derived from the
password. A record whose checksum does not match after unpacking is refused.

Layout:

- `src/bitio.rs` – bit writer and reader, packing of bit strings into bytes;
- `src/codes.rs` – Fibonacci and Elias-gamma codes as bit strings;
- `src/codec.rs` – the codec state (Fibonacci table and key) and the code readers/writers;
- `src/filters.rs` – the delta filter;
- `src/cipher.rs` – password hash, keystream, generated password;
- `src/desktop.rs` – state of the desktop window (fields, log, start and end of a run, log tones);
- `src/checksum.rs` – Adler-32;
- `src/streams.rs` – the four formats: what is written, what is read, read-after-write;
- `src/paths.rs` – the packers and unpackers of the four formats;
- `src/container.rs` – packing a chunk into a record and unpacking it;
- `src/archive.rs` – a whole file as a sequence of records;
- `app/main.rs` – the command-line tool (`compress|decompress <in> <out> [password]`, or `gui`);
- `app/desktop.rs` – the desktop window (eframe), drawing the state kept in `src/desktop.rs`.

Every function in `src/` carries a contract checked by Verus; `container::lemma_record_roundtrip`
states that unpacking a record gives back the chunk it was packed from, and
`archive::lemma_container_roundtrip` the same of a whole file.
