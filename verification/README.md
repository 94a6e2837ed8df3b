# warframe_market_ducats_buyer

Finds cheap sell orders on warframe.market and writes the whisper messages
that offer to buy them.

- `src/` is the verified library (Verus):
  - `model` — orders and users as the market sends them;
  - `filter` — which orders are worth contacting;
  - `process` — filtering, grouping by seller, enriching and ranking orders,
    with `process_laws` proving what every result looks like;
  - `message` — the whisper messages;
  - `fetch` — item URL names, request addresses, tagging fetched orders;
  - `settings` — reading numbers and one-per-line lists from the settings;
  - `text` — decimal notation and string comparison;
  - `locale` — item descriptions in the market's languages.
- `app/` is the command-line program: it fetches the orders over HTTP and
  prints the messages.
- `tests/` runs the library on concrete cases.
