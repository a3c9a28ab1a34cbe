# safekp

Backs up files and folders and keeps track of them, so that their backups can
be brought up to date later. The tracking list lives in
`~/.safekp/safekp_data.json`.

- `src/` is the verified library: the tracking list as a list of JSON-like
  entries (`entry`), location normalization (`location`), building, merging
  and removing entries (`tracking`), the per-file refresh of backups and its
  effect on the list (`refresh`), scanning tracked folders (`scan`), backup
  folder derivation and backup paths (`paths`), reading the tracking file's
  text (`store`), content hashes (`hashing`), folder backup names
  (`naming`) and the command line (`command`).
- `app/` is the program around it: reading and writing the tracking file,
  walking folders, hashing and copying files, progress bars.
