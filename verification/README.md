# vuiocodecaac

A verified library for the AAC and USAC bitstreams, with a codec built around
it.

- `src/` is the library. Every function in it is verified by Verus: transport
  headers and configurations (ADTS, ADIF, LATM, PCE, `AudioSpecificConfig`),
  Huffman-coded and arithmetic-coded spectra, TNS and dynamic range data, the
  frames that hold them, and the integer rules of a codec (band tables, block
  switching, codebook choice, the rate loop's search, pitch lags, pulse
  positions, lattice points).
- `app/` is the signal processing in floating point: transforms, filters, the
  psychoacoustic model, the speech synthesis, and the encoder and decoder
  engines that call the library.
- `tests/` runs the library.

## How the contracts read

A bit string is a `Seq<bool>`. A writer ensures which bits it appends. A reader
is described by a `Cursor`, which moves over the bits in front of it and stops
at the first fault; the reader ensures that it ends where the cursor does and
returns the value, or the error, that the cursor holds.

Public proof functions whose names start with `law_` relate the two sides, and
state what the types keep: what is written comes back when it is read, whatever
follows it; window sequences always join up; a settled rate search stays within
its budget.

## Tables

The Huffman, arithmetic-coding and codebook tables are parameters. Their
validity (lengths, ranges, prefix-freedom) is a spec function, which the
functions and laws that need it require.
