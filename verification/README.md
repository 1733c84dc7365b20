# vedit

The core of a video editor, verified with Verus: the timeline and its edits, undo and redo,
layout and hit testing, gestures, titles, compositing, mixing, the export schedule, project
files, and what a frame of the window shows.

- `src/` is the library. Every function states what it returns or changes, and Verus proves it.
  Numbers are IEEE doubles and singles kept as their bits (`ieee`), with operations proved to
  round correctly.
- `tests/` runs the library on concrete values.
- `app/` is the window around it: winit and wgpu for the screen, cpal for sound, ffmpeg for
  media, fontdue for glyphs, ron and serde for project files. It asks the library what to do and
  does it. It reads its fonts from `assets/fonts/`.

Where to look first:

| Module | What it holds |
| --- | --- |
| `ieee` | the numbers, their model, and facts about rounding |
| `timeline`, `edit`, `split`, `drag` | clips, and everything that changes them |
| `session`, `commands`, `input`, `keys`, `controls` | the session, its history, gestures and keys |
| `names`, `order`, `fades` | laws that hold of every session and every clip |
| `layout`, `view` | where things are, and what is under the pointer |
| `compose`, `raster`, `picture`, `take`, `title` | pictures, from clip to sample |
| `sound`, `export` | mixing, playback, and the order of a render |
| `project`, `document`, `media` | the pool, and projects on their way to disk and back |
| `scene`, `lane`, `panel`, `preview`, `rows`, `chrome`, `menu`, `frame` | what a frame draws |
