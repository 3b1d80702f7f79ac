# Regurgitate

Reads the datasets of a catalogue (one TOML context per dataset), fetches
their records from each dataset's origin, page by page, and writes a snapshot
of them named by its Blot checksum:

```
data
└── {organisation}
    └── {dataset}
        └── snapshots
            └── {snapshot-checksum}.csv
```

`src/` is the library, verified with Verus:

- `context`: the local context of a dataset and its schema;
- `dataset`: records, their casting to the schema, their checksums and the
  dataset checksum;
- `link_header`: `Link` header parsing;
- `remote`: the records read from an origin and the rows written from them;
- `table`: the CSVW table metadata of a dataset;
- `storage`, `fetcher`: record keeping for schema-filtered records and for
  register entries;
- `cells`, `text`, `order`, `digest`: maps of texts, text functions, orders,
  and the Blot hashes (through the `blot` library).

`app/` is the program around it: reading the catalogue, HTTP, CSV and files.
