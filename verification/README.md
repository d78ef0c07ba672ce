# battle_net_manager

A Battle.net account switcher for Windows: it keeps several Battle.net sign-ins
(accounts, in groups), switches the client between them, saves and restores
session state (local caches and sign-in registry values), and imports the data
of earlier versions.

`src/` is the library, verified with Verus: the account and group store, region
handling, Battle.net configuration rewriting, registry value snapshots, session
state checks, the process list and the wait for the client to exit, the switching
and saving decisions, the import of earlier data directories, and which external
links may be opened. Each public function states its result in its contract;
the laws of the library (normalising twice changes nothing, a saved file reads
back as written, a registry snapshot restores what it saved, an import is not
repeated) are public proof functions or clauses of those contracts.

`app/` is the command-line program around it: files, processes, the registry
(on Windows) and the serde forms of the records. `tests/` runs the library on
concrete values.
