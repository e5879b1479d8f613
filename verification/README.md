# openscad_lsp

A language server for OpenSCAD whose logic is verified with Verus.

The library in `src/` holds what the server knows and decides. Every function in it carries a
contract over mathematical models, and Verus proves that the code meets it.

- `kinds`, `syntax`, `cursor`: the syntax tree of a document and ways through it
- `text`, `position`, `lists`, `sorting`, `table`: texts, places, lists and small containers
- `environment`, `gather`, `gather_laws`: what was read from disk, handed in by the caller, and what
  is still to be read
- `parse_code`, `store`, `store_laws`: documents and the store that holds them
- `response_item`, `scan`, `resolve`, `search_laws`: declarations, and how a name finds its own
- `diagnostic`, `checks`, `unused`, `unused_laws`: what is wrong with a document
- `symbols`, `references`, `workspace_index`, `index_laws`, `analysis`,
  `analysis_laws`, `indexing`: the symbols of a workspace and the places at which they are named
- `navigation`, `arguments`, `completion`, `rename`, `rename_laws`: answers to requests
- `addresses`, `locations`, `roots`: addresses and paths, libraries, and the roots of a workspace
- `server`: the server as a whole

What holds of several functions together stands in proof functions whose names begin with `law_`.

The parser, the linked hash map that orders documents, and the handling of addresses and paths come
from other crates. The functions that call them are marked `external_body`; their doc comments say
what is believed of each.

`app/` is the program around the library: arguments, the connection to the client, files and
directories, and the conversion to the types of the protocol. Files are read before a request is
answered and handed to the library as an `Environment`; answers are exact with respect to it.

`tests/` runs the library with the real parser.
