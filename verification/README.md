# speedketchup

A periodic internet speed test that stores its results in a CSV file and
shows them through a built-in web server.

The crate is in two parts:

- `src/` is the library, verified with Verus: HTTP message handling
  (status, headers, plain and chunked bodies, redirects, request heads),
  timestamps and the Gregorian calendar, the results file (writing a line,
  reading the rows back, reading lines from the end), the provider's XML
  configuration and server list, server ranking by latency, request framing
  and routing for the built-in server, and the program's settings from the
  environment and the command line.
- `app/` is the program around it: sockets, threads, files, the clock, and
  the floating-point figures (distances, speeds, their text).

Laws proved in the library include: a written timestamp reads back as its
instant (`timestamp::lemma_timestr_roundtrip`); a saved test shows in the
chart data as one more row (`results::lemma_saved_result_is_charted`); the
command line overrides the environment (`options::lemma_options_override`);
reading a file from its end reports its lines last first
(`backward::lemma_lines_backwards`); the client's own `GET` requests are
taken by the built-in server as requests for their paths
(`serving::lemma_client_get_is_served`); and a chunked response reads back
as the data of its chunks (`chunked::lemma_chunked_body`).

The web page's files are read, when first asked for, from the `asset`
directory under the working directory: `index.html`, `favicon.svg`,
`uplot.js` and `uplot.css`; a file that cannot be read is logged and served
empty.
