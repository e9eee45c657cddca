# wezterm_core

Verified pieces of a terminal emulator's SSH client and software
renderer, written in Verus.

- `tokenizer` splits ssh_config values by OpenSSH's `argv_split` rules.
- `ssh_pattern`, `ssh_parse` and `ssh_config` read ssh_config(5) text
  into stanzas and resolve the options and identity files of a host:
  first value wins, `%` tokens, `${NAME}` references and the OpenSSH
  defaults. `ssh_auth` decides which identities sign and which agent
  keys may be offered.
- `config_map` is the ordered string map that options are kept in.
- `dirty_rects`, `cell_damage`, `raster`, `shader_uniforms`, `tab_bar`
  and `wide_text` hold the integer and text work of the renderers.
- `gdi_frame` plans each frame of the GDI text front end: when the
  whole client area is cleared, which rows are painted again, where
  each cell lands, and the damage-tracking state for the next frame.
- `sidebar` lays out the rows of the workspace sidebar.
- `prev_cursor` remembers when the cursor last moved, and
  `domain_registry` picks the configured domains that are new to the
  multiplexer.
- `shader_source` checks a foreign shader's bytes before compiling.

Each public function states its result in its contract. Where a result
rests on what the machine or the clock reports (the home directory, the
host name, the current moment), a companion function takes that value
as an argument and states its result exactly, and the function that
asks the machine calls it. The laws that relate several functions are
public proof functions beside them.

`app/` holds what the library cannot: reading files and `Include`
globs, the process environment and user id, reading shader files, and
floating-point colour work.
