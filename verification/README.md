# MicroMedia

A portable manager for pictures and videos: an index of a media folder that
follows files when they are renamed or moved, tags, a gallery with filters and
orders, a tree of folders with selection, thumbnails, and a viewer with a player.

The logic is a library in Verus (`src/`). Every function has a contract, and
what should hold of the library as a whole is stated and proved as laws: public
proof functions whose names begin with `law_`.

| module | what it holds |
| --- | --- |
| `db` | the tables of the index: files, tags, and which file has which tag |
| `scanner` | holding a walk over the media folder against the index |
| `workers` | the pass over the library: thumbnails, hashes, lengths, sizes |
| `filter`, `tagging` | the text of the tag filter, and tags by name |
| `tree`, `selection` | the gallery as a tree, and what clicks select |
| `overlay` | the viewer over the gallery |
| `app`, `ui` | the window with the panel, the grid, the viewer and the tag editor |
| `mpv`, `player` | how a player is opened and closed, and what it is told |
| `thumbs`, `thumbnail` | thumbnails of images and of frames of videos |
| `hash` | the hash of a content, taken piece by piece |
| `config`, `paths`, `graphics` | settings, places on disk, and how the window is drawn |
| `media`, `names`, `text`, `order`, `sort`, `seqs` | kinds of files, paths, texts, orders, sorting |

What is believed without proof is what the `image` and `xxhash-rust` crates
compute (`thumbs`, `hash`), and two functions of the standard library on texts
(`text`).

`app/` is the program round the library: SQLite, the file system, libmpv, ffmpeg
and the drawing with egui. `tests/` runs the library.
