# pagewise

Verified building blocks for moving compressed column data to a GPU and back.

- **Parquet pages.** `compact`, `page_header` and `scan` walk the Thrift page headers of a
  Parquet file and locate every compressed page body; `locality` shows that a header depends
  on its own bytes alone. `plan` lays the pages of a row group out
  for one batched launch, `launch` builds its tables and checks what came of it, and `run` and
  `compressor` say in which order a measurement does its work.
- **nvcomp.** `backend`, `snappy` and `nvcomp` describe the calls of nvcomp's batched Snappy
  decompression as values, and read its replies.
- **Decimals.** `limbs` splits decimals of up to 256 bits (`wide`) into 64-bit parts and puts
  them together again, `byte_parts` is the encoding made of such parts, `decimal_scheme`
  narrows and encodes a column (`array`), and `fixture` builds a table of every shape.

Every function of `src/` but the wrappers of outside calls carries a contract that Verus proves. The proof functions named
`law_*` state what holds across functions: pages tile their chunks, outputs do not overlap,
reassembling undoes splitting, filtering commutes with reassembling.

What the contracts take on trust is what `parquet`, `snap` and `zstd` return; each such item
says so in its doc comment. `app/` holds the files, the CUDA memory and the foreign calls.
