# disassembly

A verified library that turns x86-64 machine code into a listing for a
debugger's disassembly view, and answers questions about such a listing.

- `src/listing.rs`: lists the instructions of a function's address ranges (or
  of a stretch of memory), with the source lines and inlined calls that debug
  information gives, each line tagged with what it stands for.
- `src/annotate.rs`: writes the lines that come before an instruction: the
  inlined calls entered and the source lines passed since the one before.
- `src/lines.rs`: what the lines of a listing say, and what each kind of line
  owes.
- `src/disassembly.rs`: the listing type, looking lines up by address, ending a
  listing with an error, and measuring its widest line.
- `src/ranges.rs`: ordering address ranges and merging those that overlap or
  touch.
- `src/probe.rs`: finding where an instruction starts when only an address
  inside the code, or a nearby instruction pointer, is known: decoding from
  each candidate start, then choosing among them from a table of what each
  gave.
- `src/symbols.rs`, `src/style.rs`, `src/numfmt.rs`: what the listing reads of
  a program's symbols, styled text, and writing numbers.
- `src/decoder.rs`: the one place where the iced-x86 decoder is called.

Instructions are decoded with iced-x86; the proofs speak of the decoder's
result through a named function of the bytes and the address, and of the rest
exactly.

`app/` holds what stays outside the proofs: the instruction formatter and the
symbol resolver that iced-x86 calls back into.
