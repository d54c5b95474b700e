# http_server_starter_rust

A small HTTP/1.1 server. The library (`src/`) holds its logic, verified with Verus:

- `request_reader`: collects the request line, header section and body from the
  buffers that reads of a connection deliver, and turns them into a request;
- `request_handler`: parses request lines and header sections, routes requests
  (`/`, `/echo/<text>`, `/user-agent`, `/files/<name>`) to responses, and answers
  file requests from what reading the file gave;
- `headers`: the header table (each name at most once);
- `config`: the settings that the program's arguments select;
- `text`: splitting, trimming and decimal numerals over character sequences.

`app/main.rs` is the program around it: the listening socket, a thread per
connection, the reads and writes, and the files of the served directory.
