# ramjet-node

The core of a WebSocket server for Node.js on the ramjet runtime, verified with
[Verus](https://github.com/verus-lang/verus), and the N-API binding around it.

`src/` is the library. It holds what the server decides, as functions on plain
values whose contracts are proved:

| module | what it holds |
|---|---|
| `wire` | server frames: their length and their headers |
| `codec` | what is relied on of the `ramjet_ws` codec |
| `routing` | tags that route completions, and connection ids |
| `conn` | one client: upgrade, frames, echo, what waits to go out |
| `bridge` | commands from JavaScript, and each connection's outbound budget |
| `server` | all clients, and what a finished operation does to them |
| `messages` | what passes between the reactor, the driver and Node |
| `dispatch`, `budget` | batches of events for Node, and the ceiling on them |
| `node` | the application, and the handles JavaScript holds |
| `lanes` | the echo's fast lane against the streaming decoder |
| `laws`, `order`, `flight` | what holds of all of it across steps |

A connection's outbound budget is exactly what its buffers and the command queue
are charged, and never over the cap; Node hears of each connection in order; one
write is in flight per descriptor; a command that comes too late never lands on
the connection that inherited the descriptor; no wake is lost.

`app/` is ordinary Rust: the N-API class, the reactor thread that performs what
the server asks of the driver, and the locks around what two threads share.
