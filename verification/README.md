# Video Downloader

A small desktop downloader around two bundled command line tools: `yt-dlp` does
the fetching and `ffmpeg` merges streams and pulls out audio. What the program
decides is a verified library; what it does to the world is a thin shell.

## Layout

- `src/` is the library, written in Verus. Every function states what it returns,
  and the public proof functions named `law_…` state what holds of the library as a
  whole.
  - `request`: a download request and the engine arguments that carry it out.
  - `output`: one line of the engine's output, and what it changes.
  - `job`: a running download, from one engine event to the next.
  - `history`: what holds of a job over a whole run of events.
  - `state`: the jobs that are running, and cancelling them.
  - `probe`: from the engine's JSON dump to the preview and its quality menu.
  - `failure`: readable failure messages.
  - `process`, `linux`, `windows`: process trees, and how they are paused, resumed and
    killed on each system.
  - `cleanup`, `paths`, `engine`: leftover files, folders, other questions to the
    engine.
  - `text`, `decimal`, `double`: texts, numerals and double-precision numbers.
  - `json`, `encoding`: the boundary to `serde_json` and to the standard library's
    knowledge of Unicode. What is trusted without proof stands there.
- `tests/` runs the library on concrete values.
- `app/` is the desktop shell: commands for the frontend, processes, files.

## Numbers

Percentages, durations and sizes are double-precision numbers. The library holds
them as bit patterns (`double::Double`), compares them and writes them out exactly;
turning text into such a number is left to the shell.
