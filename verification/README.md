# mlab-unifi

A command line client for the two key-authenticated UniFi APIs: a console's
Network Integration API on the LAN, and the Site Manager API in the cloud.
It lists and acts on sites, devices and clients, and reads a site the way an
auditor would: graded findings, the security posture its settings describe,
segmentation and inbound exposure, wireless hardening and impostors, the
blast radius of a compromised client, what turned up unannounced, and dated
secret-free snapshots that can be compared.

## Layout

- `src/` is the library, verified with Verus. The decisions the commands
  make are here, over plain values: JSON documents (`json`), profiles and the
  config file (`config`), request paths, error texts and paging (`client`,
  `registry`, `site`, `devices`, `api`), the audit and posture rules
  (`audit`, `posture`), the firewall reachability matrix (`blast`),
  segmentation and exposure (`network`, `footprint`), wireless checks
  (`wifi`), device identification (`enrich`, `firmware`, `advisories`),
  redaction and snapshots (`secrets`, `snapshot`, `diff`), arrivals
  (`shadow`), event frames (`live`), login decisions (`login`), the UTC
  timestamps everything is dated with (`calendar`) and what the output layer
  shows (`render`, `ui`). Ordering is done once, in `sort`.
- `tests/` exercises the library from outside.
- `app/` is the program: argument parsing, HTTP and WebSocket traffic, files,
  the terminal, and the few things that need floating point (percentages,
  bit rates, elapsed time).
