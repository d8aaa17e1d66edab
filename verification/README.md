# upload_download

The verified core of a small HTTP file upload and download service.

- `src/limiter.rs` — per-client throttling of failed password attempts
  (three failures within ten minutes block a client), with the laws it keeps.
- `src/password.rs` — hour-based download passwords (SHA-256 of the UTC hour
  stamp and a salt, mapped onto an unambiguous alphabet) and random salts.
- `src/files.rs` — safe upload names, which requested names stay inside the
  upload directory, the search for a free name, and the newest-first
  ordering of the file listing.
- `src/access.rs` — the decisions of the HTTP handlers: who may download,
  delete, check a password or read the salt, and what follows a granted
  deletion; language and client key of a request; the index page and
  download headers.
- `src/text.rs` — character-level string helpers.
- `app/` — the actix-web server around the library: routing, files, the
  configuration file and logging.
