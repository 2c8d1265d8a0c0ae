# fb-server

Several programs that write to `/dev/fb0` on their own overwrite each other, and the
screen flickers. fb-server decides which of them may be shown, and where each may draw.
It never touches pixels itself.

- `src/` is the verified library: the scenes of `scenes.toml` (`scenes`), the registered
  clients and the life of a connection (`server`), who is shown and which areas each client
  must leave alone (`visibility`), the messages (`protocol`), the session tmux shows
  (`sessions`), the search for a tmux socket and the arguments of its calls (`tmux`), the
  command line (`cli`) and the text functions all of these use (`text`).
- `app/` is the daemon around it: sockets, threads, files, JSON and TOML, calls of tmux.
- `tests/` runs the library.

## Protocol

JSON Lines over a Unix socket (`$FB_SERVER_SOCK`, else `$XDG_RUNTIME_DIR/fb-server.sock`,
else `/tmp/fb-server.sock`).

- A client opens with `{"hello":"<name>"}`, optionally with `session` (the tmux session it is
  bound to) and `rect` (the region it draws in).
- It is told `{"visible":true}` or `{"visible":false}`, with the scene in force, with the
  areas it must not draw in (`clip`), and, if only its session keeps it hidden, with the
  reason `"session"`.
- Whenever its region changes it may send `{"rect":...}`; without a `rect` the declaration
  is withdrawn.

If a client's name is that of a scene, the scene is in force while the client stays
connected. The last such client decides; without one the scene is `default`.
