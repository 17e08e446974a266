# mpvremote

A web remote control for mpv. One program serves a web page on the LAN, talks to mpv over
its JSON IPC socket, and starts mpv if it is not running. The decisions of the program are
a library that is verified with Verus; sockets, files and processes are around it.

| Module | What it decides |
|---|---|
| `commands` | which mpv commands a client may send |
| `host` | which `Host` headers pass, against DNS rebinding |
| `path`, `browse` | what lies under the root, what a directory shows and in which order |
| `api` | what an HTTP request leads to and how it is answered |
| `ws` | what a client on the WebSocket is told |
| `mpv` | the conversation with mpv: request ids, answers, known properties, throttling |
| `supervisor` | connecting to mpv, starting it, and starting over |
| `status`, `lan`, `qr` | the record of the running daemon, the addresses of the machine, the report |
| `cli` | arguments and settings |
| `json`, `text` | values and texts |

`app/` is the program itself. `tests/` runs the library.

What the proofs rest on: `String::push`, `String::from_utf8_lossy`, `Path::exists` and the
`qrcode` crate do what the comments at their declarations say.

## Settings

| Variable | Default |
|---|---|
| `MPVREMOTE_PORT` | `8000` (`--port N` wins) |
| `MPVREMOTE_SOCKET` | `/tmp/mpvremote.sock` |
| `MPVREMOTE_ROOT` | `$HOME` (the file browser is confined to this) |
