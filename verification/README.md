# This week in open source

Collects the pull requests of a group of people from GitHub and writes them up
as a Markdown digest: one section per label, a section for what belongs to no
label, and the link definitions that the lines refer to.

- `src/` is the library, verified with Verus: the searches and their course
  (`collect`, `search`), what stays of the answers and how it is arranged
  (`select`, `labels`, `order`), and how it reads (`report`, `text`).
- `app/` is the program around it: requests, arguments and files.
- `tests/` runs the library on concrete values.

Nothing in the library is believed without proof beyond what Verus's own library
says of the standard one.
