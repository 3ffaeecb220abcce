# exiftime

Reads the capture time ("date taken") out of a JPEG's or TIFF-based file's
EXIF data, or says precisely why it cannot, with every step verified by Verus.

- `src/jpeg.rs`: walks JPEG marker segments to the `Exif\0\0` APP1 payload.
- `src/tiff.rs`: reads the TIFF header, IFD0 and the Exif sub-IFD for
  DateTimeOriginal / DateTime and the matching SubSecTime and OffsetTime tags.
- `src/date.rs`: validates `YYYY:MM:DD HH:MM:SS` and the subsecond and offset
  strings, and writes a capture time back out as text.
- `src/exif.rs`: from the bytes of a file to a capture time.
- `src/json.rs`: JSON escaping and the output line for one file.
- `src/cli.rs`: command-line arguments.
- `src/error.rs`, `src/text.rs`: the error type and string building.
- `app/main.rs`: reads the file and prints the result.

Each module states what its functions return as spec functions over bytes
and characters, and proves the properties the tool relies on (fields in
range, supplementary tags never failing a parse, a plain date displaying as
written, the EXIF block sitting behind an APP1 `Exif` header, escaped JSON
reading back to the original text) as proof functions beside them.
