# jpeg_tutorial

A baseline JPEG decoder. The library (`src/`) reads the segments of a JPEG
byte stream (APP0, DQT, DHT, SOF0, SOS), decodes the entropy-coded scan into
MCUs of quantized DCT coefficients, dequantizes them and moves them out of
zigzag order into row-major order, lays out the MCU grid, locates the
samples of each component for upsampling, and assembles RGB tiles into an
image that it can encode as a PPM file. Each of these steps has a verified
contract, stated over spec functions that describe the byte format.

The program (`app/`) reads the file, runs the inverse DCT and the YCbCr to
RGB conversion in floating point, and offers the subcommands `marker`,
`reader`, `ppm` (the default, writing `out.ppm`) and `mcu <y> <x>`.
