# lan-remote

Direct LAN remote desktop: no relay server, no cloud, single hop.

The host captures its screen, encodes it with H.264 and streams it over UDP; the
viewer reassembles, decodes and shows it, and sends its input back over TCP. All
traffic is sealed with a key that both sides derive from a shared password.

```
Host                                   Viewer
├─ capture, H.264 encode               ├─ UDP receive, reassemble, H.264 decode
├─ UDP → viewer (video)                ├─ window
└─ TCP :7272 (input, clipboard, files) └─ TCP → host:7272
```

## Layout

- `src/` is the library, verified with Verus: wire formats (`proto`, `transport`),
  colour conversion (`convert`), sealing (`crypto`), whole frames (`codec`), the
  host's and the viewer's side (`host`, `assembly`, `viewer`), clipboard and files
  (`sync`), the control window's state (`gui`), and texts (`text`).
- `tests/` runs the library on concrete values.
- `app/` is the program around it: command line, sockets, threads, windows, screen
  capture and input injection.

## What is proved, and what is believed

Each function states what it returns or changes; laws that relate several functions
are proof functions whose names begin with `law_`. Among them: a frame that is cut
into datagrams comes out as it was, in whatever order these arrive; messages that are
framed one behind the other are read back one by one; a file arrives byte for byte;
a clipboard text is not echoed; both sides read key codes alike; and a session that
does not begin with Hello has no effect.

Calls into `openh264`, `argon2`, `chacha20poly1305` and `getrandom`, and
`char::from_u32`, are believed to do what the comments above their declarations say.

## Usage

```
lan-remote host [--bind IP] [--port PORT] [--fps N] [--bitrate MBPS] [--password PW]
lan-remote view HOST [--port PORT] [--password PW]
```

Without a subcommand the control window opens.
