# vmdkrs

Reads the data of VMware virtual disks (VMDK): flat (raw) extents, VMDK3
(COWD) and VMDK4 sparse extents, with compressed grains and zeroed grain
table entries, SESPARSE extents, and chains of delta links (snapshots).

The library in `src/` is verified with Verus:

- `spans` — span maps over sectors: cutting a range out of a map of
  uncovered sectors, and labelling the sectors of a range that have no
  label yet.
- `text`, `extent_description`, `descriptor` — descriptor text: extent
  description lines, descriptor files, descriptors embedded in sparse files,
  the parent of a delta link.
- `header` — file signatures and sparse headers, and the grain directory
  geometry they give.
- `extents` — grain tables, and the extents of an image laid out from its
  descriptions and files.
- `storage` — reading the bytes of one extent.
- `vmdk_reader` — layering the extents of an image and of its parents, and
  reading the layered image.
- `chunks` — reading through a cache of fixed-size chunks: which chunks a
  read needs, and copying a read's bytes out of them.
- `bytessource` — what the library reads from: any type with the
  `BytesSource` trait.

`app/` is the command line program that hashes images: it opens local files
and S3 objects through a chunk cache and drives the library's builder along
the chain of delta links.
