# envelope_list

Listings of email envelopes, verified with Verus: a table for the terminal, and
a compact listing with one line per message that shows a verification link, a
verification code or the beginning of the message.

- `src/` is the library. `text`, `context`, `quoted` and `rank` hold the ground
  that the rest stands on; `links` and `codes` find and score what a message
  offers; `snippet` and `mini` make the compact listing; `envelope` and `table`
  make the table; `command` decides what is asked for and what is printed.
- `tests/` runs the library on examples.
- `app/` is the command as the command line sees it: arguments, account, client
  and printer.

Each function states in its contract what it returns. What relates several of
them stands in the proof functions whose names begin with `law_`. What is
believed of other crates and of the standard library without proof is marked
`external_body`, `assume_specification` or `uninterp`, with a comment that says
what is claimed.
