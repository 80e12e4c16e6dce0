# PPTX Compressor

A desktop tool that shrinks PowerPoint (PPTX) files by re-encoding the images, GIFs and videos
embedded in them, stripping XML comments and preview thumbnails, and repacking the archive.

## Layout

- `src/` — the library, verified with Verus. Every verified function carries a
  `requires`/`ensures` contract, and the properties that span several functions are stated as
  public proof functions named `law_*`.
  - `media` — media classification, per-file records, settings, presets, size estimates.
  - `imaging`, `gif_opt`, `gif_codec` — JPEG/PNG re-encoding decisions, GIF palette
    optimisation, requantisation and frame dropping, and the calls into `image` and `gif`.
  - `unzip`, `archive`, `repack`, `order` — reading the archive, which entries are unpacked
    and where, finding the FFmpeg program in its download, and the order, names and
    compression methods of entries when repacking.
  - `xml_clean`, `content_types` — comment stripping and `[Content_Types].xml` upkeep.
  - `pipeline`, `session`, `summary` — the compression run as a step machine (with the rule
    that a re-encoded file replaces the original only when it is smaller), the state the
    window shows, and the figures in the media list.
  - `ffmpeg`, `lines`, `text` — FFmpeg command lines and messages, and text helpers.
- `tests/` — tests of the library on concrete values.
- `app/` — the egui window, file-system and process work, and the loop that runs the
  pipeline steps.

Calls into outside crates go through small trusted wrappers (`#[verifier::external_body]`),
each documented with what its contract claims of the outside function. Where an outside
result is too large to write out (decoded frames and pixels, encoder output, archive
entries), the contract names it with an uninterpreted spec function, and the verified code
is stated exactly over those names.
