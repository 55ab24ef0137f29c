# rustpad_client

A desktop client for a rustpad collaborative editing server. The logic is a
Verus library under `src/`; the program around it is under `app/`.

- `src/text.rs`: character and UTF-8 byte offsets of a text.
- `src/ot.rs`: the operation sequences of `operational-transform`, as the
  library sees them (their steps, lengths, transform and compose).
- `src/transformer.rs`: moving a cursor index through an operation.
- `src/editor.rs`: the document (characters and string kept in step), edits
  by character range and by byte range.
- `src/backspace.rs`: how far a backspace deletes (line endings, emoji
  sequences, keycaps, flags, tag sequences).
- `src/client.rs`: the client's state machine (synchronised, awaiting an
  acknowledgement, awaiting with a buffer). Each step returns the actions the
  caller performs: messages to send, edits and cursors to show.
- `src/coeditor.rs`: selections of the editor moved by edits of other users,
  and other users' cursors as byte ranges.
- `src/message.rs`: the text of the edit message sent to the server.
- `src/connection.rs`: whether the connection loop stops or connects again.
- `src/laws.rs`: properties that span several functions.
- `app/`: the druid widget, the websocket connection, the JSON form of the
  messages, and the loop that performs the client's actions.
