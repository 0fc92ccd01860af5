# reflex_tun

A TUN inbound: packets that a host sends into a TUN device come out of it as
TCP connections and UDP datagrams, and what comes back is written to the device
again.

`src/` is the library. It holds everything that the inbound decides and
computes. Verus proves every function in it against the contract that stands
above its body, except for the trusted wrappers: small functions marked
`external_body` that make one call into `bytes` or the standard library, and
whose contracts are believed as they stand. They are in `octets` (the buffers of
`bytes`), `gro` (the capacity of a buffer), `wire` (the byte order of the
machine), `text` (adding to a string), `nftables` (what counts as a letter or
digit) and `packages` (bytes that are no UTF-8). The modules:

- packets: `wire`, `checksum`, `addr`, `tcp`, `udp`, `echo`, `mtu`, `process`
- connections: `tcp_nat`, `sessions`, `echo_flow`, `dns`, `engine`
- segmentation: `gso`, `gro`, `gro_laws`, `native_tun`, `offload`
- settings: `config`, `options`, `uid`, `routes`, `text`, `render`, `types`
- hosts: `linux`, `linux_rules`, `linux_teardown`, `nftables`, `macos`,
  `windows`, `windows_bypass`, `windows_filter`, `packages`,
  `interface_finder`, `interface_monitor`, `command`, `platform`
- runs: `inbound`, `run`, `stack`, `octets`

What holds across several functions is stated by the public proof functions
whose names begin with `law_`.

`app/` is the ordinary Rust around it: the device, sockets, tasks, processes and
files. It carries out what the library asks for and hands back what came of it.

`tests/` runs the library on values.
