# quick_protobuf

Reading protocol buffer data, with every read specified and proved in Verus.

- A `BytesReader` is a cursor that parses varints, fixed-width numbers, strings,
  nested messages, packed fields and map entries out of a `&[u8]`.
- A `Reader` owns its buffer and hands a `BytesReader` over it to the functions
  that parse.
- A `PackedFixed` holds a packed field of fixed-width numbers, either as the raw
  bytes it came in or as numbers.

What the bytes mean is stated by specification functions over sequences of bytes.
A `Step` says what decoding the front of a sequence gives and how many bytes it
takes; the contract of a read says which step it does.

| module | what it holds |
| --- | --- |
| `cursor` | positions in a buffer, and steps |
| `varint`, `scalar`, `little_endian`, `fixed_width` | what numbers look like on the wire |
| `branchless`, `batch` | decoding eight and sixteen bytes at a time |
| `field`, `repeated`, `entry` | length-delimited fields, runs of elements, map entries |
| `reader`, `buffer`, `message` | the readers, and messages that can be read |
| `packed` | packed fixed-width numbers and their iterators |
| `encode` | writing varints |
| `laws` | what holds of the library as a whole: what is written is read back, the fast paths agree with the plain ones, no read leaves its message |
| `error` | errors, and what is taken on trust about `core::str::from_utf8` |

`app/` adds what lies outside the proofs: files, streams and floating point.
