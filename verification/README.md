# meanapi

The backend of the MeanScout scouting web app: it takes scouting and pits forms as JSON,
turns them into CSV rows appended to data files, and serves those files and the server log.

- `src/` is the library, verified with Verus: reading a scouting request body, counting the
  scoring lists of the form and making the CSV rows of the counted form (`paths::data`), the
  fields, stable sort and lines of a pits form, the HTML page of the log (`paths::logs`), the
  slices of the pie graph and the points of the line graph read from the text of the data
  file, which the `csv` crate parses (`paths::graphs`), the JSON metrics files made
  from the text of `config.json` (`config`), and the catcher messages. `json` models JSON
  values, which serde_json reads and writes; `rows`, `sorting` and `text` hold the line, order
  and text helpers. The conversion of JSON to CSV is done by `json-objects-to-csv`.
- `app/` is the server around it: axum routes, settings, file reading and writing, logging,
  the Rocket catchers and graph routes, and the graph drawing with Tera.
- `tests/` run the library on concrete inputs.
