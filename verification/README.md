# hacore

The core of a small home-automation controller: a variable store with a cache in
front of SQLite, MQTT topic routing, a dashboard spoken to over MQTT, and InfluxDB
line-protocol writes.

- `src/` is the library, verified with Verus: every function carries a contract,
  and the laws the library keeps are proved as proof functions beside it.
  - `text` — decimal integers (`parse_i64`, `int_to_text`) and char/string helpers.
  - `types` — `Value`, `DbError` and the conversions between values.
  - `db` — the variable cache, the SQL it needs, and the reading of returned rows.
  - `mqtt` — topic filters (`topic_matches`) and the `Router` of handlers,
    attached variables and buffered messages.
  - `dashboard` — dashboard topics, payload parsing, incoming and outgoing values.
  - `influx` — line protocol, base64, write requests and the rate limiter.
- `app/` is the process around it: the globals, the SQLite connection, the MQTT
  client, the HTTP client, the environment, and the conversions from and to `f64`
  (the library holds a float as the text `Display` gives for it).
- `tests/` runs the library on concrete values.
