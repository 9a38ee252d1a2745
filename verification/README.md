# ClipCut

A fast video clipping tool: point it at a folder of recordings, scrub to find a cut
point, set in/out marks, export a clip. ffmpeg does the encoding, as a subprocess;
mpv plays the video; Slint draws the window.

- `src/` is the logic, verified with Verus: every function says in its contract what
  it returns, and what the tool promises as a whole is stated as public proof
  functions beside the functions that they are about.
- `tests/` runs it on concrete values.
- `app/` is the window and everything that touches the machine: processes, files,
  threads, OpenGL and mpv. It hands the library plain values and does what it is told.

| Module | What it decides |
|---|---|
| `encode::command` | the arguments of every export |
| `encode::progress` | what ffmpeg's progress output says |
| `export` | the name of the file, and how an export went |
| `timecode` | times as text, and text as times |
| `marks` | where the in and out marks may stand |
| `media` | which tools there are, and which keyframe a fast cut starts from |
| `library` | which files are listed, and in what order |
| `config` | which settings are in range, and when they are written |
| `queue` | what becomes of requests that come faster than they are served |
| `player` | what mpv is told, and what its events mean |
| `render` | how the OpenGL state is put back |
| `panel`, `session` | what the window shows |
| `fixed`, `text` | numbers in billionths, and text character by character |

Times are nanoseconds, and other quantities with a fraction are billionths: `fixed::Real`
is such a number, or one of the values beyond all numbers. Where a number is shown, it is
shown as the nearest double-precision number would be.
