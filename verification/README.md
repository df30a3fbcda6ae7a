# browsy

A zero-render browser engine for AI agents: it turns an HTML page into a
flat *spatial DOM* (links, buttons, inputs, headings, text and landmarks,
each with a role, text, state and bounding box) without painting pixels.

## Layout

- `src/` is the library, verified with Verus. Every public function states
  its result in its `ensures`; laws that relate several functions stand as
  public `law_*` proof functions.
  - `text` – string and integer helpers with their specifications.
  - `dom`, `html` – the document tree and its construction from html5ever's
    parse.
  - `selector`, `stylesheet`, `style`, `properties` – CSS selectors and their
    index, stylesheet reading and media queries, the cascade, declaration
    lists, custom properties and grid placement.
  - `output` – the spatial DOM: which elements are listed, their roles,
    text, labels, states and hidden flags, and the compact text form.
  - `js` – detection and simulation of simple script behaviours.
  - `fetch` – URL rules, link resolution, retry decisions, forms.
  - `session` – form state, element lookup, click planning, page deltas,
    viewport filters, search addresses.
  - `search` – result extraction for DuckDuckGo and Google pages.
  - `frontend` – what the server and tool front ends compute from a page.
- `app/` is the runtime around it: floating-point lengths and layout
  (taffy), HTTP (reqwest), the session object, serde copies of the output
  types and the command line.
- `tests/` runs the library on concrete pages and values.
