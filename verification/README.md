# clipaste (verified library)

clipaste fixes screenshot paste in terminal AI tools, locally, over SSH and in
WSL2. This crate holds its text handling and decision logic as a Verus library
whose functions carry proved contracts; `app/` is the program around it (process
and file I/O, the Win32 and macOS event APIs).

Library modules (`src/`):

- `text`, `split`, `format`: whitespace and trimming as `str` defines them,
  splitting into pieces, lines and words, decimal numbers and server URLs.
- `config`: the `key = value` lookup of the configuration file and the paste
  hotkey setting (`ctrl+shift+v`).
- `ssh_config`: where the `RemoteForward` line goes in `~/.ssh/config`;
  `forward_law` proves that a second run finds it already configured.
- `shims`: the `xclip` / `wl-paste` shims and the script that installs them.
- `wsl`: the Windows host address from `/etc/resolv.conf`.
- `clipboard`, `png`: the Windows clipboard listener's decisions, UTF-16 text,
  and the conversion of a clipboard DIB to PNG.
- `hotkey`, `cli`: the macOS event tap's decisions and the command line.
