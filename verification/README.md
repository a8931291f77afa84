# ttarchive

Archive codecs and ciphers, verified with Verus. Every reader's contract says
exactly what a stream decodes to, or which error it is refused with, and every
writer's contract says which bytes it makes, and that they decode to what it was
given.

- `src/utils`: errors, checksums and arithmetic on bits and bytes.
- `src/codecs`: Deflate, gzip, bzip2, LZMA and its containers, xz, lzip,
  Zstandard, PPMd, Unix compress, the methods of early ZIP files, and the
  filters for machine code.
- `src/crypto`: SHA-1, SHA-256, HMAC, PBKDF2, AES, ZipCrypto, WinZip AES and
  7zAES.
- `src/archive.rs`: archive formats, how they are told apart, and the settings
  of an archive.
- `src/names.rs`: which file names lead to which format.
- `tests`: the library run on published values and on streams that other
  programs wrote.
- `app`: the library on `std::io`, files and the system's randomness.

The library works on memory and opens nothing. Where it needs randomness, the
caller hands it in.
