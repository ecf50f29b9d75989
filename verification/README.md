# rustidemy_bot

A Telegram bot that posts free Udemy courses from the discudemy RSS feed to a
channel, and a small web service that lists the courses of the last two days.

- `src/` is the library, verified with Verus: reading the feed, building the
  posts and the course descriptions, choosing the course links, deciding which
  entries to post and which to remember, and keeping the course lists.
- `app/` is the program around it: environment, HTTP, Telegram, the web
  server, the clock and the JSON file of the cache.
- `tests/` runs the library on concrete inputs.

Configuration: `BOT_TOKEN` and `CHANNEL_ID` are required; `FEED_URL` and
`PORT` are optional.
