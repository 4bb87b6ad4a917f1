# atomic_disk

A distributed block device: every process keeps, for each 4096-byte sector,
an (N,N)-atomic register, and processes and clients talk over TCP with
messages signed by HMAC-SHA256.

`src/` is the verified library:

- `domain` — commands, results and their mathematical views;
- `bytes`, `text` — big-endian numbers, decimal and hexadecimal text, paths;
- `transfer_operations` — the wire format: serialization, and
  deserialization from a byte stream that starts a message at the first
  magic number, with the round-trip laws;
- `atomic_register` — the register algorithm as a state machine that yields
  the messages to send, the sector to store and the operation to complete;
- `system` — the registers of one sector on all processes and the messages
  among them as one transition system, with the proof that an operation
  started after another completed sees a timestamp and write rank no older
  than what the other wrote, that each operation completes once, and that
  a majority of the processes can complete any operation on its own;
- `register_process` — what a process does with each incoming command and
  the responses to clients;
- `sectors_manager`, `stable_storage` — the naming and bookkeeping of the
  files that hold sectors and stored values, and recovery after a crash;
- `primitives` — the calls into `hmac`, `sha2` and `uuid`.

`app/` runs the processes with `tokio`: sockets, channels, files and the
tasks that carry out what the library decides.
