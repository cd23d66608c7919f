# awrust

A verified core for a single-port gateway that runs local AWS service
emulators behind one address.

- `src/` is the library, checked by Verus: service names and the
  environment-variable names derived from them, reading the service list,
  routing a request by its SigV4 credential scope, the health endpoint's
  report, the DNS responder's packet handling (reading the question, the
  zone test, building answers), the upstream candidates of `resolv.conf`,
  and the order of init scripts.
- `app/` is the program around it: sockets, the HTTP server and proxy, child
  processes, environment, files and logging.
- `tests/` exercises the library on concrete values.
