# pii-eval

Evaluates PII detection (a Presidio analyzer or an Ollama LLM) against a
labelled test dataset: every sample's predicted spans are matched against its
expected entities under a strict and a relaxed rule, counts are accumulated
globally, by entity type and by language, and a report is printed and written
as JSON.

## Layout

- `src/` — the library, verified with Verus:
  - `checker` — strict and relaxed matching, per-sample counts, error
    classification; `type_totals` proves that the per-type counts add up to
    the sample's counts.
  - `stats`, `counts_map`, `stats_totals` — accumulation of counts over a
    run, and the proof that the totals by type and by language stay equal to
    the global counts.
  - `evaluation` — the bookkeeping of a whole run.
  - `llm_spans` — stripping Markdown fences from an LLM answer and resolving
    the entities it reports to character offsets.
  - `unicode`, `text` — character/byte offset conversion.
  - `timestamp` — calendar dates and the timestamps used in reports.
  - `backend`, `report`, `analyzer`, `model` — backend choice, console
    colours, the analyzer interface and the data types.
- `app/` — the command-line program: argument parsing, directory walking,
  HTTP clients, JSON (de)serialisation, floating-point metrics and printing.
- `tests/` — tests of the library.

All offsets are Unicode character offsets (`start` inclusive, `end`
exclusive).
