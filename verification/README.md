# zune_jpeg

A JPEG decoder for baseline (sequential) and progressive Huffman-coded images.

Every function in `src/` carries a contract, and Verus proves that the code meets it. The crate has no trusted items.

## Layout

- `src/misc.rs`: the byte reader, colour spaces, the zig-zag order.
- `src/headers.rs`: the frame, scan, quantization-table, Huffman-table and application segments. Each has a spec function for the bytes it accepts and what it leaves in the decoder.
- `src/decoder.rs`: the decoder, options, header walk (`headers_then`) and the entry points `decode_buffer`, `read_headers` and `info`.
- `src/huffman.rs`: canonical Huffman tables, their fast lookup tables and the fast AC table.
- `src/bitstream.rs`: the bit reader and the decoding of DC/AC coefficients for sequential, first and refining progressive scans.
- `src/mcu.rs`, `src/mcu_prog.rs`: scans of sequential and progressive images, stated as runs over the coefficient planes.
- `src/idct.rs`, `src/upsampler.rs`, `src/color_convert.rs`, `src/worker.rs`: inverse DCT, up-sampling, colour conversion and post processing into pixels.
- `tests/`: tests on concrete values.
- `app/`: decoding a file from disk, with logging.

## Behaviour worth knowing

- Decoding is single-threaded. `set_num_threads` records the requested count, and nothing reads it.
- When the entropy-coded data reaches a marker, the bit reader pads with zero bits, as libjpeg does. Codes that end just before the marker therefore still decode.
- The up-sampling routines follow the triangle filter: each output sample is `(3 * nearer + farther + 2) / 4`.
