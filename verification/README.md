# dedoc_translate

Translates the texts of documentation pages by two free services, Google and Lingva,
each of which stands in for the other. Code within the texts (addresses, inline code,
identifiers, paths, flags) is hidden behind tokens such as `__PH_0__` while a text is
with a service, and put back afterwards. What is translated is kept in a file for each
page.

The library under `src/` is written in Verus: every function states what it returns,
and Verus proves it, but for what comes from outside. It does no input or output. It says
what is to be read, fetched or written next and goes on with what came of that.

These contracts are believed and not proved; each says above it what it claims:

- `pattern`: `matches_token`, `find_spans` and `find_marks` search with `regex`. Which
  stretches the pattern for code finds is only named (`regex_spans`), and so are the
  decimal digits outside ASCII (`wide_digit`).
- `json`: `parse_value` and `open_value` read and take apart a document with
  `serde_json`. What a text parses to is only named (`json_document`, `json_tree`).
- `request`: `url_encode` calls `urlencoding`.
- `text`: `String::push`, `char::is_whitespace` and `char::is_alphabetic` of the standard
  library. The letters outside ASCII are only named (`wide_alphabetic`).

| module | what it holds |
| --- | --- |
| `text`, `search`, `digits` | white space, letters, lines, search and replacement, digits |
| `split`, `batch` | cutting long texts, putting short ones together |
| `pattern`, `placeholder`, `placeholder_laws` | finding, hiding and restoring code |
| `json`, `request`, `error` | addresses, answers and failures of the services |
| `provider` | what each service is asked for |
| `job` | the translation of a list of texts |
| `paths`, `cache`, `page` | the translation of a page and the file that keeps it |

What holds of several functions together is stated in proof functions whose names begin
with `law_`.

`app/` makes the requests with `ureq`, reads and writes the files and prints the
warnings. `tests/` runs the library on examples.
