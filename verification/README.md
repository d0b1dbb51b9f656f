# swath

A sidescan survey library: it reads JSF and XTF recordings, indexes their pings,
pairs them into waterfall rows, lays out mosaics and chart layers in tiles, reads
GeoTIFF and GPX files, plans searches, keeps projects and contacts, and answers
the requests of a local viewer.

- `src/` is the library, verified with Verus. Numbers that are stored as floating
  point are carried as their bit patterns or as text.
- `app/` is the `swath` command around it: files, connections, JSON, and the
  arithmetic in floating point.
- `tests/` runs the library on concrete values.

What is promised of the library as a whole is stated in the proof functions whose
names begin with `law_`.
