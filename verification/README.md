# havn

A TCP port scanner. The library under `src/` holds its logic, verified with
Verus; the program under `app/` resolves the target, opens the connections,
runs the scanning tasks and prints.

- `src/parse_arg.rs`: the command-line values, the `-p` range text and its
  parsing (as `str::parse::<u16>` parses numbers), and the list of ports to hand out.
- `src/port_descriptions.rs`: the table of well-known TCP ports ("name,port"
  lines) and the lookup of a port's description.
- `src/scanner.rs`: the tally of scan results, the decisions of the first
  (concurrent) and second (sequential) pass, and the retry rule of a single
  port scan, with the laws that tie them together.
- `src/terminal.rs`: colours, the banner, the results table, the totals line
  and the spinner's frames.
- `src/text.rs`: decimal numbers, padding and character search.
