# arbitrary_fixed

Fixed-point numbers of 256 bits with 132 fraction bits, held as eight 32-bit
words in two's complement, with every operation proved against a
mathematical contract by Verus.

- `src/` is the verified library.
  - `words`: base-2^32 digit sequences and their values.
  - `fixed`: the type, its view (the scaled signed value) and its pattern.
  - `basic_ops`, `division`, `assign`: arithmetic; `shift`: bit shifts;
    `conversion`: integers in and out, and the bits of an `f32` in;
    `order`: comparison; `text`: the hexadecimal text form;
    `constants`: pi and ln 2 from their digits, and modular powers; `laws`: the algebraic laws the operations obey.
  - `audio`: the decisions of the GPU synthesiser built on the same
    workspace: device choice, dispatch size, channel layout, playback.
- `tests/`: tests of the library.
- `app/`: the synthesiser program (Vulkan and JACK), the numeric traits of
  num-traits and the byte casting of bytemuck on a copy of the type, the
  `f32` conversions, and the floating-point series that give the digits of
  pi and ln 2.
