# marginal

Annotate a document in a terminal at the granularity you mean: an inline code span, a table row, a
range of list items, a whole section. The session ends with the comments as JSON and as prose.

`src/` is the verified library:

| module | what it holds |
|---|---|
| `text` | strings as sequences of characters, and the byte offsets that address them |
| `order` | sorting |
| `md` | the markdown parser's tree, as plain values |
| `blocks` | positions and spans, navigation units, the containment hierarchy, questions |
| `plain` | the same for a file without markdown structure |
| `format` | which of the two reads a file |
| `highlight` | syntax marks per line |
| `wrap` | widths, and lines broken into rows of byte ranges |
| `table` | the padding that lines up the columns of a table |
| `editor` | the comment being written, and its history |
| `app` | the session: cursor, selection, annotations, output |
| `keys` | what each key does |
| `ui` | what the screen shows, as plain values |
| `style` | colours and emphasis |
| `cli` | the command line |

A function's contract says what it returns over the mathematical models beside it. What holds of
several functions together is stated by the `law_` functions.

`app/` is the program around it: arguments and files, the terminal, colours, JSON.
