# libchm

A reader for CHM (Compiled HTML Help) archives, including LZX decompression, verified with
Verus.

What the bytes of an archive mean is decided in `src/`, by functions whose contracts say
exactly what they return or change and on which input they report which error. `app/` opens
the file, reads the byte ranges that the library asks for, and hands them back.

## Layout

| Module | What it holds |
| --- | --- |
| `format`, `le` | Parsers of the headers, directory entries and control structures |
| `paths`, `entry`, `directory` | Path order and categories, entry selection, search and enumeration |
| `bits`, `huffman`, `lens`, `matches`, `e8`, `lzx` | The LZX stream decoder |
| `decompress` | Random access into the compressed section |
| `archive` | Opening an archive and planning a read |
| `error` | The errors |

The other modules state what these amount to:

| Module | What it shows |
| --- | --- |
| `lookup` | A search finds exactly what an enumeration lists, whatever the case; an enumeration is a filter |
| `encoding` | Parsing gives back what was written: numbers, paths, entries, whole blocks |
| `bitstream` | The bit reader reads the bits of the stream in order |
| `code_tree`, `code_count`, `code_place`, `canonical`, `acceptance` | Decode tables decode the canonical Huffman code, and from which lengths they can be built |
| `stored` | Stored frames decode to the data they carry |
| `self_contained` | What the decoder held before a reset does not show in a stream that keeps to what it has produced since, and never in whether a frame decodes |
| `random_access` | Reading any range gives that range of the section from front to back, whatever was read before |

Two things are taken on trust: what `String::from_utf8` returns, and its error type, which is
carried through as it is.
