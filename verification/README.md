# deskpet

The core of a desktop pet that plays VP9-with-alpha WebM animations in a
transparent window, written in Verus: every function in `src/` carries a
contract that Verus proves.

## Layout

- `src/` – the verified library
  - `ebml`, `webm` – reading Matroska/WebM files: elements, blocks, alpha
    side data, frame order and frame timing
  - `clip` – frame-by-frame playback and YUV → premultiplied BGRA composition
  - `gfx` – scaling and mirroring, the speech bubble, frame placement,
    straight-alpha conversion and hit testing
  - `thumb` – choosing the fullest frame of an animation and writing it as PNG
  - `keyframe` – whether animations start on VP9 key frames
  - `convert` – the integer geometry of converting green-screen videos
  - `behavior`, `pet`, `state` – the behaviour state machine, action pools,
    interaction decisions and the random generator
  - `import`, `assets`, `db` – asset archives, manifests, pet folders and the
    rows recorded for a pet
  - `control` – routing and checking requests of the local control service
  - `config`, `log`, `menu`, `tray`, `autostart`, `text` – settings, log
    lines, menus, start-with-the-system entries and text helpers
- `tests/` – tests of the library
- `app/` – the process around it: files, the database, the HTTP control
  service, video conversion with ffmpeg and the floating-point parts of the
  behaviour and colour keying

The window back ends and the VP9 decoder are platform code and are not part
of this crate.
