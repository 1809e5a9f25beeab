# nexis

Fast wikilink and backlink analysis for Obsidian Markdown vaults, verified with
[Verus](https://github.com/verus-lang/verus).

```
nexis <vault-path>               # counts of orphans, broken links and embeds
nexis <vault-path> --details     # full lists
nexis <vault-path> --asymmetry   # missing backlinks
nexis <vault-path> --orphans     # orphan notes
nexis <vault-path> --broken      # broken links
nexis <vault-path> --format json # machine-readable output
nexis <vault-path> --unlink      # turn broken links into plain text
```

## What it reports

- **Missing backlinks**: A links to B, but B does not link back to A.
- **Orphan notes**: notes that no link or embed leads to, and that lead to no note themselves.
- **Broken links**: `[[Target]]` where the vault has neither a note nor any other file of that name.

Names are compared whatever the case of their letters. Links in code blocks, inline code and HTML
comments do not count. The exit code is 0 for a clean vault, 1 for one with orphans or broken links,
and 2 after a fatal error.

## Layout

- `src/` is the library. Its functions have contracts, which Verus proves but for those named below.
  - `order`, `text`: total orders, sorting, the order of strings, decimal numbers
  - `path`: paths, which of them are the same, and their order
  - `names`: looking notes up by name
  - `markup`: wikilinks, and the code and comments in which they do not count
  - `graph`: the analysis
  - `unlink`: turning broken links into plain text
  - `settled`: what a second pass finds
  - `options`, `report`: what is asked for and what is said
  - `color`: that color adds nothing but itself
- `app/` is the program around it: arguments, files, output.
- `tests/` runs the library.

What the library takes from other crates (`trama` for the markup, `unicase` for case folding) stands
behind small functions marked `external_body`, whose contracts are believed, and one
`assume_specification`. Each says which function it stands for and what it claims of it.

Proof functions whose names begin with `law_` state what holds of the library as a whole.

## License

MIT
