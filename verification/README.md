# file_sharing_example

A peer-to-peer file sharing node built on libp2p. A user types commands:

* `register <USERNAME>` registers the node at the rendezvous point under the namespace `<USERNAME>`;
* `ls_peers` lists the namespaces known to the rendezvous point;
* `ls@<USERNAME>` lists the files shared by the peer registered as `<USERNAME>`;
* `get@<USERNAME>-><FILENAME>` fetches a file from that peer into the sharing directory.

## Layout

* `src/` is the verified library (Verus):
  * `command.rs` reads command lines, with a proof that every typeable command reads back;
  * `wire.rs` and `message.rs` write and read the protocol-buffer messages, with round-trip proofs;
  * `file_get.rs` and `handler.rs` hold the state machines of the file-get protocol
    (the network behaviour and the per-connection handler);
  * `network.rs` decides what each command asks of the network and which commands a
    network event answers.
* `app/` is the executable: the libp2p swarm, streams, files and standard input.
* `tests/` runs the library on concrete values.
