# controller_pack_core

The verified core of the controller-pack installer.

- `src/fir.rs`: the five French FIRs and the `LFFM` area, their codes and
  how codes read back.
- `src/pack_sync/airac.rs`: the GNG sector/profile filename grammar (leading
  area code, combined `LFXXN` code, `-YYMMSS-` AIRAC group).
- `src/archive_paths.rs`: archive entries whose names embed `\` separators:
  the nested path each stands for, the moves to make, and the run that
  decides them one by one.
- `src/pack_dir.rs`: what makes a directory a controller pack, where to look
  for one (native folders, Wine/CrossOver/Whisky bottles) and which one wins.
- `src/text.rs`: character-level building blocks (ASCII case folding, Unicode
  white-space trimming, splitting, path joining, lexicographic order).

`app/` holds the disk and environment side: walking directories, probing
folders, renaming files, reading `HOME`, and serde copies of the codes.
