# A flash translation layer for a programmable SSD

The library (`src/`) holds the translation layer's logic, verified with
Verus: the logical-to-physical table, the media manager's page store, the
bad block table, the block and page provisioner, the request workload, the
first-fit allocators, and the decisions that the connectors and stages of
each pipeline design make. `app/` binds it to the platform: the C
interface, the records by which the platform finds stages and connectors,
the program-wide allocator, and the connector functions themselves.
`tests/` runs the library on concrete inputs.
