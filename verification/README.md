# net_proxy

A user-space network proxy between a virtual machine and its host. Ethernet frames from the
machine are taken apart, tracked as connections and turned into work on host sockets; what the
host answers is turned back into frames. The library is verified with Verus.

- `src/` holds the library: packet layouts (`wire`, `packet_utils`), connections (`tcp_fsm`,
  `simple_tcp`), three proxies over them (`proxy`, `direct_proxy`, `simple_proxy`), frames in
  words (`text`, `packet_dump`) and traces that can be played back (`packet_replay`). Every
  public function says in its contract what it returns and changes. What holds over more than one step
  stands in the modules named `laws`, and in `tcp_laws`, `direction_laws`, `simple_laws` and
  `frame_laws`. The streams of connections that are over are kept until they are taken.
- The calls into `bytes`, `pnet`, `crc` and `rand` stand in `buffer`, `wire`, `text`,
  `packet_dump` and `chance`, each with what is taken for granted of it.
- A host stream is whatever implements `host::HostStream`; `host::Recorded` keeps track of the
  calls that it sees.
- `app/` holds the sockets, the listeners, the clock and the files around the library.
- `tests/` runs the library against streams that do what a test wants.
