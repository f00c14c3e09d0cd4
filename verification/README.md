# xmlcarve

Streams giant XML files into JSONL: one JSON line per record element, in
memory that does not grow with the file. Written in Verus, so that what the library computes is stated
in contracts and proved.

```
xmlcarve inspect dump.xml            # which element is the record?
xmlcarve carve -r page dump.xml      # one JSON line per <page>
```

## Layout

- `src/` is the library. Nothing in it reads a file or prints: a parser, a
  carver or a profiler is fed bytes and asked for the next event, the next
  record or the profile.
- `app/` is the program around it: files, standard streams and floating point.
- `tests/` runs the library on concrete documents.

## What is proved

The contract of each function says what it returns for every input. On top of
them, the functions named `law_*` state what holds of the library as a whole.
Among them:

- of the input, a parser that was just fed holds what it has not consumed and
  the chunk, and reading on never makes it hold more (`Parser::feed`,
  `Parser::poll_event`, and the same of `Carver` and `Inspector`); as it asks
  for a chunk of 64 KiB, or as long as the unfinished token that it waits with,
  it holds at most twice the larger of the two;
- the chunks in which a document arrives make no difference
  (`stream`, `carve`, `inspect`);
- start and end tags are balanced, or the run ends in a failure (`stream`);
- records never nest, and skip and limit cut a window out of all records, and
  of the output byte for byte (`carve`);
- output is deterministic (`carve`), and JSON that is written reads back to
  the value it was written from (`reading`);
- damage behind a record does not undo it (`carve`);
- one record is one line of output (`json`, `carve`);
- repeated children become one array, in document order, and attributes come
  first (`record`);
- type inference loses nothing (`record`);
- a profile counts each element once (`inspect`).

Floating point stays outside: a number with a point or an exponent is held as
the literal that denotes it. Whether it is finite is decided on its digits
(`finite`); its shortest decimal form is asked for when it is written.
