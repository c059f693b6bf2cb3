# crabcage

The decision logic of CrabCage, a Windows sandbox launcher for the OpenClaw
agent with a domain-filtering HTTP proxy, written in Verus and verified.

- `src/proxy.rs` – whitelist matching, request parsing, the action taken for
  each request (a plain request is judged by the host its URL names, so
  traffic only reaches admitted hosts), and the bytes answered (blocked
  page, relayed responses).
- `src/paths.rs` – Windows paths as components (prefix, root, names), with
  the standard library's order, equality, `starts_with`, parents and join.
- `src/environment.rs` – merging the inherited environment with overrides,
  sorting it, and the UTF-16 environment block.
- `src/sandbox.rs` – command-line quoting, the grant plan and grant cache,
  ACL entries and `icacls` arguments, the AppContainer profile steps, the
  watch over the agent's descendants with its allowlist, and the agent's
  container environment.
- `src/session.rs` – session status and how the agent is launched behind the proxy.
- `src/setup.rs` – probing, normalizing and searching for the agent, and the
  installer's messages.
- `src/config.rs` – the configuration types and the audit log.
- `src/text.rs`, `src/unicode.rs` – character-level primitives and the
  standard library's Unicode conversions.

`app/` holds the Tauri commands, sockets, processes, files and Win32 calls,
which hand plain values to the library and act on its answers.
