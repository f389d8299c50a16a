# git-metadata

Annotations on any Git object: an index that attaches a tree to an object's id,
kept as a fanout tree under a reference such as `refs/metadata/commits`.

- `src/` is the library, verified with Verus. It decides, step by step, what an
  operation on the index does in a repository (`index`, `listing`), finds entries
  in the fanout tree (`fanout`), plans the trees to write (`rebuild`), and reads
  and reports commands (`cli`, `man`). The modules whose names end in `laws` state
  and prove what holds of the index as a whole: what is read back after a write or
  a removal (`operation_laws`), that operations carry out what they plan and end
  (`course_laws`, `ending_laws`), which root tree comes out and that operations on
  different targets commute (`rebuild_laws`, `settle_laws`), what holds of every
  index that the operations have made (`tidy_laws`), and what is listed
  (`listing_laws`, `listing_course_laws`, `order_laws`).
- `app/` is the `git metadata` command: it carries out the steps with `git2`.
- `tests/` run the library, the operations on an object database in memory.
