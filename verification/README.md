# bedrock_chat

A desktop chat client for Amazon Bedrock models, with markdown and LaTeX math
in the answers. The logic is a Verus library; the window, the network and
the keychain live in a thin program around it.

## Layout

- `src/` — the verified library.
  - `text.rs`: character-level helpers (trimming, searching, replacing,
    decimal numbers) with their specifications.
  - `math_render.rs`: splitting a message into text, inline math and
    display math, and the proof that text with inline math splits back into
    its parts.
  - `md_render.rs`: shielding math from the markdown parser behind
    placeholders and putting it back; splitting styled spans into text and
    math.
  - `md_roundtrip.rs`: the proof that putting math back after shielding it
    gives the text back, for texts with no object replacement character and
    no `\(` in which no placeholder is spelled again after its own block
    (in particular every such text with no `$` directly followed by `MATH`
    and a digit); and that placeholders are distinct.
  - `md_parse.rs`: markdown parsing with pulldown-cmark.
  - `md_renderer.rs`: the markdown renderer as a state machine from parser
    events to drawing steps, and the whole path from a message to its
    drawing steps.
  - `message.rs`: messages, conversations, roles.
  - `session.rs`: the chat window's decisions: titles, labels, the model
    picker, what is sent to the model and what each streamed token does.
  - `bedrock.rs`: what each event of the response stream becomes.
  - `keychain.rs`: reading a stored API key back from its bytes.
- `app/` — the egui program: drawing, the Bedrock client, the keychain,
  the message store and math layout.
- `tests/` — tests of the library.
