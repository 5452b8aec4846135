# dbmigrator

Schema migrations for a database that keeps a changelog of applied
migrations.

- `src/` is the verified library: the migration models (`migrations`,
  `migration`), the checksum of a migration, the planning of what to apply
  or roll back against the changelog, the walk over a migration's queries,
  the executor that drives a `Backend`, and the migrator that sorts the
  migrations read from disk.
- `app/` is the command-line program: it reads the TOML migration files of
  the current directory and runs them against PostgreSQL (`up` or `down`).
- `tests/` exercises the library, with an in-memory backend.
