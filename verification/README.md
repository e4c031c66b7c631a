# oxideav-jpeg2000

The stages of JPEG 2000 decoding and encoding (ITU-T T.800 and T.814) as executable Rust
whose behaviour is stated in contracts and proved by Verus.

* `src/` is the library.
  * `mq`, `mqenc`, `mq_round_trip`: the MQ arithmetic coder. Decoding gives back every
    decision that was encoded.
  * `packet`: bit stuffing, tag trees, segment lengths, packet headers, and walking the
    packets of a tile-part. Headers are read as they were written, layer after layer, and
    alike whether they stand in front of their data or apart.
  * `progression`: the layer-first and resolution-first orders of the packets of a tile.
  * `reassemble`, with `geometry`, `t1`, `dequant`, `dwt`: from decoded code-blocks to
    sub-bands, resolution levels and tile-components.
  * `mct`: reversible component transform, DC level shift, dynamic range.
  * `jp2`: the boxes of the JP2 file format, palettes and channel definitions.
  * `frame`, `codec`: packed frames, encoder options, and what a codec is asked to do.
* `tests/` runs the library on concrete values.
* `app/` holds what works in floating point and the glue to the `oxideav-core` framework.
