# fastmail-cli

The logic of a command-line client for mail and calendars, written in Rust and
verified with Verus.

- `src/` is the library. Its functions have contracts that Verus proves, but for
  the trusted ones that are named below.
  - `text`, `decimal`, `civil`, `percent`: characters and text, numerals, the
    civil calendar, path segments.
  - `ical`, `datetime`, `duration`, `event`: iCalendar text, dates and times,
    durations, and calendar events made of them.
  - `xml`, `http`, `caldav`: what a CalDAV server is asked, and what is read from
    its replies.
  - `models`, `html`: emails and addresses, and what is read from HTML bodies.
  - `thread`, `digest`, `replied`: threads, their latest message, their digest,
    and whether they were answered.
  - `links`: the hyperlinks of an email, with tracking redirects stripped.
  - `search`, `keywords`, `bulk`: search filters, keywords, and actions on many
    emails at once, with their dry runs.
  - `get`, `export`, `compose`: printing and saving emails, and composing them.
  - `mailbox`, `push`, `watch`: finding mailboxes, reading pushed events, and
    watching an account.
- `app/` is the program around it: arguments, requests and output.
- `tests/` runs the library.

Proof functions whose names begin with `law_` state what holds of several
functions together: that folding a line can be undone, that updating keywords
twice is the same as once, that a digest is in chronological order.

What the library has from other crates stands behind functions whose contracts
are taken on trust, not proved; their doc comments say what is claimed. The crates
are `percent_encoding` (bytes), `roxmltree` (XML), `scraper` (HTML), `url` (URLs)
and `uuid` (identifiers). A few functions of the standard library are trusted in
the same way.
