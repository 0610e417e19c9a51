# Notizli

The logic of the Notizli desktop recorder, as a verified library, and the program
around it. It records a meeting on the user's own computer: the room microphone on
channel 0 and the call's sound on channel 1. It saves the recording to disk as it
goes, then uploads it to the Notizli server.

| Path | What |
|---|---|
| `src/` | The library, verified with Verus. |
| `tests/` | Its tests. |
| `app/` | The program: devices, threads, files, HTTP, the window, and the arithmetic on samples, which is floating point. |

## The library

| Modules | What |
|---|---|
| `ebml`, `webm`, `reader`, `webm_laws`, `repair_laws`, `double` | The crash-safe WebM writer, repair and reading, and what the two promise each other. |
| `source`, `mixer`, `file` | The buffers between the device clocks and the wall clock, the mixer, and the cutting into Opus frames. |
| `analyzer`, `recorder` | Levels, the warning about a silent call, the health report; how a recording starts and stops. |
| `capture`, `chooser`, `stream`, `speaker`, `coreaudio` | Which devices are recorded, and what is read of them. |
| `pairing`, `account`, `api`, `store`, `uploader`, `session`, `clock`, `logfile` | Pairing links, the device token, the server's answers, the queue of recordings, the state behind the window, the log. |
| `cli` | The test tool's command line and its result. |
| `text`, `paths`, `error` | Text, file names, errors. |

Samples and levels are type parameters of the library, so that no floating point
number is computed with in it. What the library believes of other crates stands in
`text` (`String::push`), `pairing` (`String::from_utf8`), `api` (`serde_json`) and
`clock` (`time`).

The desktop window, device capture and the Opus encoder are built on Windows and
macOS only; elsewhere the program is the test tool.
