# scup

`scup` keeps directories on several machines in step. A repository holds snapshots of a working
tree. The bytes of files are cut into chunks where a rolling sum of the bytes says so, and every
object is named after the digest of what it holds, so that two machines only exchange what one of
them lacks.

- `src/` is the library, written in Verus: chunking, the names of objects, lists over chunks,
  snapshots, merges, checkouts, the state of a working tree, the messages between peers and what
  they are answered with, the walk over the objects of a peer, and what is found in the local
  network. It works on values in memory, and each function is proved against its contract.
- `app/` is the program around it: the command line, files, connections and announcements.
- `tests/` runs the library.

Proof functions whose names begin with `law_` state what holds of the library as a whole. Among
them:

- `history::law_checkout_restores_file`: a snapshot can be checked out however much has been added
  since, and each file then holds the bytes that it held when the snapshot was taken.
- `merge::law_newer_file_stays` and `merge::law_merge_keeps_paths`: of two files at one path a merge
  keeps the one that was changed last, and no path is lost.
- `merge::law_merge_is_symmetric_at_any_dates` and `history::law_merge_again_keeps_tree`: two peers
  that take in each other come to the same tree, and to take in a peer again changes no file.
- `sync::law_walk_is_complete`, `sync::law_walk_is_exact` and `sync::law_clone_is_whole`: a walk over
  the objects of an honest peer comes to an end and brings just what is missing, and a clone has
  all that the peer has.
- `paths::law_repo_path_stays_inside`: no file is written outside the working tree or among the
  files of the repository.

What is believed without proof is what the library has from outside: SHA-256 (`ids`), the clock
(`clock`), random bytes (`snapshot`), relative paths (`paths`) and two functions on texts (`text`).
