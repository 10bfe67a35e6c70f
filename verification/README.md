# differential

Grouped, ordered reading plans for large diffs.

Every hunk of a diff is put into a shape class: hunks whose text is the same once
identifiers and literals are erased on both sides. A model may merge and label
class ids, never hunks; what it leaves out is found against the known set of ids and
put back into a group that has to be read. Before a document is emitted, every file
is rebuilt byte for byte from its base and its hunks, the tree that results is
compared with the real one, and the hunks are counted a second time from git's own
output.

`src/` is the verified library. It parses git's listings, classifies hunks, checks
the invariants, groups and orders classes, keeps the state of a review, and lays out
the screen. What it needs of the world (git, the disk, the model, the forge) it asks
through the traits in `src/ports.rs`, of which it assumes nothing.

`app/` is the `dfr` program around it: arguments, subprocesses, files, JSON and the
terminal.

`tests/` runs the library on concrete values.

The default agent is the program named by the environment variable
`DIFFERENTIAL_AGENT`; any other command can be set in the user configuration.
