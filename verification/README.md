# pdf-ops

Merges the PDF files of a directory tree into one document, or splits one
document into several, with page-range selection (`1-3,5,10-`) and glob
filters on the files taken.

- `src/` is the verified library: page-range grammar and page selection
  (`page_spec`), output-name patterns (`split::fill_pattern`), path order,
  extension test and sorting (`paths`), glob sets (`glob`), the choice of
  input files (`scan`, `merge::select_merge_inputs`), the merged and split
  documents assembled on `lopdf` (`merge`, `split`, `pdf`), and the terminal
  interface's themes and key handling (`tui`).
- `app/` walks directories, loads and saves files, shows progress bars and
  runs the terminal interface.
- `tests/` runs the library on concrete inputs, with the real `lopdf` and
  `globset`.
