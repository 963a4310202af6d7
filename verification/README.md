# photors

A terminal photo organizer: scan a folder for media files, sort them into
`YYYY/MM/` folders by capture date (from EXIF, else from the file name), and
find duplicate files by SHA-256 content hash, from the command line or an
interactive interface.

The library in `src/` is written in Verus and holds the logic with its
proofs:

- `date`: capture dates read from EXIF `DateTimeOriginal` text and from
  file names, and the folder and file name they give;
- `metadata`: the EXIF date and camera text of a file's contents, and the
  date a file is filed under;
- `path`, `order`: `/`-separated paths (joining, file name, stem,
  extension, components) and the component order of paths;
- `scan`: extension lists and which walked entries count as media;
- `dedup`: content hashes, duplicate groups, and which files a deletion
  removes;
- `organize`: where each file goes, the free destination name, skipping
  content already present, the steps of a move or copy, and the preview of a
  dry run;
- `tui`, `view`: the state of the interactive interface, how keys change
  it, and what its screens show;
- `text`, `number`: string and decimal helpers.

The program in `app/` does the file system and terminal work around it:
argument parsing, walking folders, reading files, GPS coordinates, moving,
copying and deleting, and drawing the interface.
