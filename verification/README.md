# codec

Encoding primitives every layer shares: how a format's characters and bytes
are written and read back, never what they mean. Each module states its
format as spec functions over `Seq`s and proves its readers and writers
against them with Verus, together with the laws that tie them: what a
reader gives back of what a writer wrote.

| Module | What it is |
| --- | --- |
| `base64`, `hex` | RFC 4648 base 64 (both alphabets, padded or not) and base 16 |
| `varint` | base-128 little-endian integers and zigzag signs |
| `cursor` | fields read off a byte slice in order, a refused read moving nothing |
| `crc` | the parameterised CRC model and the CRCs the protocols name |
| `sha1` | SHA-1 over the FIPS 180 definition |
| `utf16`, `unicode` | UTF-16 and UTF-32 in either byte order, strict both ways |
| `char_reader` | a character reader whose offsets are always character boundaries |
| `toml`, `xml`, `sql` | quoting and unquoting text in each syntax |
| `civil` | seconds since the epoch to a proleptic Gregorian date and back |
| `mime` | media types, parameters, and multipart bodies |
| `text` | building strings in verified code |

`src/` is verified; `tests/` runs it; `app/` holds what Verus does not take:
floating-point fields, the byte writer whose trait carries them, and the
process-wide counter behind a fresh multipart boundary.
