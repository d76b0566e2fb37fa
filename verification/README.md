# wenv

Shell configuration file manager for Bash and PowerShell: it reads the
files a user lists in `~/.config/wenv/config.toml`, parses them into
entries (aliases, functions, environment variables, source statements,
comments and code), checks them for duplicates, and writes them back.

The library under `src/` is verified with Verus:

- `parser/`: the Bash and PowerShell parsers. A parse covers the file line
  by line, in order (formatting the entries gives the lines back, each as
  it stood or trimmed), names
  every structured entry after one of its own lines, and keeps every
  structured line outside a multi-line block in a structured entry.
- `formatter/`: writing entries back, and indentation detection.
- `checker/`: duplicate and syntax checks.
- `model/`: entries, shells, the configuration, and the tree of files and
  groups that a profile shows.
- `config/`: built-in file lists and snippets, and how configured path
  patterns are expanded (`~`, `$NAME`, `%NAME%`) and labelled.
- `import.rs`: which imported entries are appended, skipped or overwrite an
  existing one, and the text and totals that result.
- `backup.rs`: backup names and timestamps, the id and timestamp a name
  carries, newest-first order, and when and how far a cleanup goes.
- `text.rs`: the string and sequence helpers the proofs share.

`app/` is the command-line program around the library: argument handling,
the file system, the clock, the environment, prompts and the editor.
