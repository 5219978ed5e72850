# rustyxml

An XML parsing library whose core is written in Verus: each function in `src/`
carries a `requires`/`ensures` contract, and Verus proves that the code meets it.

## Layout

- `src/xml_core/`: byte-level pieces. The tokenizer and its well-formedness checks,
  attribute parsing, entity decoding and encoding, UTF-16 to UTF-8 conversion, the
  DTD declarations (entity cycles, notations, content specifications) and
  Unicode name classes.
- `src/reader/`: the event readers over a slice or over a buffered source.
- `src/dom/`: the DOM builder. Its contracts state the shape of the tree, child and
  sibling links in document order and the attributes, all in terms of the reader's
  token model; names, prefixes and namespace URIs are stated while the string pool
  fits 32-bit IDs and offsets, which `XmlDocument::strings_fit` tests. Also strict
  validation without a DOM (entity references in attribute values are checked
  against the DOCTYPE's declarations), and the serializer that writes a node and
  everything below it back as XML text over any `DocumentAccess` implementation.
- `src/index/`: the structural index (spans into the input) and the document view
  that reads from it.
- `src/sax/`, `src/strategy/`, `src/resource.rs`: SAX event collection and the
  streaming parsers. The streaming laws cover what one feed leaves buffered and
  how feeds in pieces relate to one feed of everything.
- `src/xpath/`: the XPath lexer and the recursive descent parser (a number literal
  is kept as its text), both stated against a grammar of spec functions; the 13 axes
  and node tests over any `DocumentAccess` implementation; and the string functions
  that work on characters (`normalize-space`, `translate`, `contains`, ...).
  `src/dom/mod.rs` also gives the string-value of a node.
- `tests/`: the test suite, which runs against the compiled library.
- `app/`: the Erlang NIF surface (`rustler`), parallel and buffered I/O, and the
  XPath compiler and evaluator, whose values carry floating-point numbers. None of
  this is verified.

Calls into `memchr` and into std functions that vstd does not specify go through
a few `#[verifier::external_body]` wrappers. The doc comment of each one says
what its contract claims about the function it calls.
