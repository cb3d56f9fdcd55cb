# azure_subnet_summary

Summarises the subnets of Azure virtual networks: it orders them by address
block, drops ignored and repeated subnets, resolves VNets whose address spaces
overlap (a production subscription wins), finds the free blocks between
subnets, and draws the VNet peerings as Mermaid and Graphviz DOT diagrams.

The logic is written in Verus and proved against its contracts.

- `src/` is the verified library: the data model (`models`, `struct_subnet`,
  `struct_vnet`), the Azure command lines, cache names and paging rules
  (`azure`), ordering and de-duplication (`subnet_order`,
  `de_duplicate_subnets`, `processing`), the report texts and the DOT checker
  (`output`), and the run's decisions, including the order in which the SVG
  renderer tries Graphviz locally and in Docker (`pipeline`).
- `tests/` runs the library on concrete inputs.
- `app/` is the command-line program around the library: argument parsing,
  logging, calls to the Azure CLI, file and process I/O.
