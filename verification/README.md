# npnp

Normalize Pin Net Pad: schematic and footprint libraries for electronic
components, exported one by one, in batches, or merged into one library.

- `src/` is the library, written in Verus: the binary library formats and their
  compound files, the merging of libraries, batches and their progress, names of
  passive components, footprints, and what the commands of the program decide
  and print. Every function has a contract, and what holds of the library as a
  whole stands in the proof functions whose names start with `law_`.
- `app/` is the program around it: command line, files, clock, network, and what
  is computed in floating point.
- `tests/` run the library against the compound files and encodings of the
  crates that it calls.

Numbers of a drawing are carried through the library by their bits (`reals`);
lengths in a library are whole ten-thousandths of a mil.
