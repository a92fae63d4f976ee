# rayclaw

The decisions of the RayClaw agent runtime, verified with Verus: what its
channels, tools and servers do with the values they are handed, stated as
contracts and proved.

- `src/channels`: Feishu and Weixin. The binary frames of the long connection
  (`pb`), cards and replies (`feishu`), events and repetitions (`feishu_events`),
  files (`feishu_attach`), messages, uploads and polling (`weixin`), the login by
  a code (`weixin_login`), the splitting of long texts (`chunks`), and a turn of a
  conversation as a state machine (`turn`).
- `src/mcp.rs`: requests, replies, event streams, retries and the cache of tools
  of MCP servers.
- `src/skills.rs`, `src/skill_evolution.rs`, `src/frontmatter.rs`: finding and
  reading skills; patterns of tool calls, candidates, promotion and retirement;
  the lines above the body of a skill, which both read.
- `src/metrics.rs`: what a session did, and what the user thought of it.
- `src/tools`: the tools for coding agents and for Feishu documents.
- `src/json.rs`, `src/text.rs`, `src/maps.rs`, `src/paths.rs`, `src/codec.rs`,
  `src/stamps.rs`, `src/handles.rs`: the values and helpers that the rest is
  written in. The calls into other crates stand here and in `weixin_login`, each
  behind a function whose contract says what is taken on trust.
- `app`: files, processes and the network around the library. It is ordinary
  Rust.

Functions named `law_*` state what holds of several functions together.
