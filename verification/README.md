# userspace_fs

A filesystem in a single image of 4096-byte blocks, written in Rust and verified with Verus, with
a Python extension module around it.

## The image

| blocks | contents |
| --- | --- |
| 0 | superblock |
| 1 to 64 | journal, of which the first block holds the markers `TX_BEGIN` and `TX_COMMIT` |
| 65 | inode bitmap |
| 66 and up | block bitmap, one block for 32768 blocks of the image |
| behind it | inode table, 32 blocks |
| the rest | data |

## Layout

- `src/` is the library. `disk` holds an image and logs block writes; `superblock`, `inode`,
  `bitmap`, `journal`, `dirent` are the parts of the format; `directory`, `file`, `path` and `node`
  build files and directories from them; `fs` is the mounted filesystem.
- For every operation a spec function gives its outcome: the image that it leaves and its result.
  The contract of the executable function says that it has this outcome.
- `sound` says when an image is in order. `steps`, `contents`, `entries`, `tree`, `fresh` and
  `walks` show what the steps of an operation do to such an image.
- What holds of the filesystem as a whole stands in `mount_laws`, `file_laws`, `node_laws`,
  `path_laws`, `crash_laws` and `history_laws`.
- `app/` opens the image file, makes the block writes and is the Python module.
- `tests/` runs the library.
