# sigil_chat

The plain-data half of a chat client, written in Verus: every function in
`src/` carries a contract that Verus proves, and the properties the client
promises across calls stand as proof functions named `law_*`.

## Layout

- `src/text.rs`, `src/key.rs`, `src/order.rs` — characters, keys and the
  order text sorts in.
- `src/command.rs`, `src/act.rs` — what a line beginning with `/` asks for,
  and what each command has the host do.
- `src/mention.rs` — the `@` being typed, who it could mean, and which names
  still stand when a message is sent.
- `src/composer.rs`, `src/transcript.rs` — the composer's box, what it sends
  and gives back, and how a conversation's transcript is laid out.
- `src/presence.rs`, `src/frequent.rs`, `src/files.rs`, `src/pairing.rs`,
  `src/guardians.rs`, `src/backup.rs`, `src/trouble.rs` — presence reads,
  emoji counts, file choices, pairing strings, guardians, what is said about
  a backup, and what is wrong with a conversation.
- `src/chat.rs`, `src/exchange.rs`, `src/words.rs`, `src/herald.rs`,
  `src/retry.rs`, `src/trace.rs` — the pane's decisions (calls, rings,
  notifications pressed, who to write to), an identity's other exchanges
  and names, what is said out loud about calls, mentions and arrivals, when
  a dead session is started again, and a video player's trace.
- `app/` — what cannot be verified: files on disk, the native file dialog,
  clocks, threads, and floating-point picture arithmetic.
- `tests/` — the library's behaviour on concrete values.
