# plcourse

Small programs from a programming-languages course, as a library whose behaviour is
stated in Verus contracts and proved.

- `lexer`, `token`, `parser`, `interpreter`: a toy language
  (`BEGIN x := 2 * (3 + 4) - 5 END.`), read token by token, parsed by recursive
  descent and evaluated over `i32`. Each step has a mathematical model (`lex_at`,
  `sp_fact` ... `sp_program`, `sp_visit`); the `try_` functions return the model's
  error exactly where the model has one, the others require that there is none.
- `grammar`: the grammar of the toy language as relations between token sequences and
  trees, and the proof that the parser builds its trees by it (the grammar lets a
  closing `)` or `END` be missing, as the parser accepts them so where the input ends).
- `notation`: prefix notation to fully parenthesised infix notation.
- `ordered_map`: a map from strings that keeps its keys in `String` order, so that
  values can be read by position.
- `widget`, `roundtrip`: a tree of widgets, its JSON-like encoding, and the decoder.
  The decoder reads the text as the regular expression
  `\{"name":"(\w+)",((?:"\w+":[\w\s\[\]",]+,)+)"children":\[(\{.*\})?\]\}` does: it
  takes the leftmost match, reads each kind's attribute by that kind's own pattern, and
  reads the children as the successive leftmost matches in the greedy children text.
  `roundtrip` proves that decoding an encoding gives the tree back for plain trees
  (non-empty titles of ASCII letters, digits, `_` and spaces; non-empty lists of items
  of ASCII letters, digits and `_`) in which no two children of one widget have
  children of their own. Where two do, the greedy `.*` of the first reaches into the
  second and the tree read back is regrouped. For other text the encoding depends on
  the escapes of `Debug`, which are not stated.
- `point`, `event`: byte points, and the message and log-line formats of the ZeroMQ client.

`app/main.rs` holds the command-line front ends (standard input, files, SQLite, ZeroMQ).
