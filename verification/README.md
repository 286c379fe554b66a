# beckon

The verified core of Elementary Intelligence, a desktop assistant launcher for
elementary OS: a system-wide shortcut brings up a prompt that reaches an AI
service, with optional tools (shell, calendar, tasks, mail, MCP servers) the
model can call.

`src/` is the library, written in Verus and proved against its contracts:

- `text`, `order` — text primitives over character sequences, and the stable
  ordering every listing uses (with its laws: sorted, nothing lost).
- `datetime` — exact UTC calendar arithmetic, ISO input, EDS time strings.
- `ical`, `eds` — iCalendar unfolding, components, escaping and in-place
  property edits; EDS source entries and the choice of a write target.
- `calendar`, `tasks`, `mail` — the tools' logic: parsing, building, editing,
  and the listings the model reads.
- `tools` — output bounding, tool naming, toolsets and dispatch.
- `mcp` — MCP server configuration, connection plans, tool results, and the
  connection registry with its invariant.
- `settings`, `spotlight`, `transcript`, `desktop`, `config` — the decisions
  behind the windows, the streamed turn, and the desktop integration.

`app/` is the program around it: GTK windows, the session bus, the mail
cache, MCP connections over tokio, files and processes. It performs what the
library decides.

`tests/` exercises the library on concrete values.
