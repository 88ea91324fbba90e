# aw-work-sync

Syncs the hours worked each day, as ActivityWatch recorded them, to a spreadsheet: Google Sheets,
Excel Online or an Excel file on disk. The library, verified with Verus, holds the rules of the
program; `app/` is the program around it: files, network, local time, and floating point numbers.

## The library

| Module | What it decides |
| --- | --- |
| `cli`, `config` | what the command line and the configuration file ask for, and what becomes of the file |
| `provider` | which backend a sheet key names |
| `windows` | the days and hours that are looked at |
| `cache`, `queries` | which of them are asked for, and what is kept of the answers |
| `working_hours`, `stitch`, `totals` | how much time was worked |
| `rows` | which rows of a worksheet change |
| `sync` | a whole sync, out of the parts above |
| `resync` | what one sync leaves for the next |
| `google_sheets`, `excel_online`, `excel_local` | addresses, requests and cells of the three backends |
| `query`, `host`, `report` | the query text, names and messages |
| `token` | which access token is used, when one is asked for anew, and what is kept of the answer |
| `calendar`, `time`, `text`, `text_map`, `url`, `json` | dates, moments, texts and a map of texts |

Moments are nanoseconds since 1970-01-01 00:00 UTC, and lengths of time are nanoseconds too. Hours,
which are floating point numbers, appear only in `app/`. What depends on the local time zone, such as the
moment at which a day begins, is worked out in `app/` and handed over.

Each function states its result exactly. Proof functions named `law_..` state what holds across
functions, such as that a second sync on the same day adds no rows, that a date that was written is
the one that is read, and that cutting today into hours loses no worked time as long as its events
come one after the other, start and end on whole seconds, and leave no hour with events but without
any worked time.

What the library takes on trust of other crates stands in functions marked `external_body` and in
`assume_specification` items, each with a comment on what it claims.
