# doors

Calls of a procedure in another process, by the path that its door is attached
to, for systems without the doors of Solaris. A door may have a lock. The key is
an odd number above 1 that both sides hold; the door begins the binary division
of a remainder by it, and a caller is let in who can go on with the division.

The library under `src/` is verified with Verus:

- `text`, `natural`, `hexcode`, `random`: texts, numbers of any size,
  hexadecimal and random bytes, with what is taken from `std`, `num-bigint`,
  `hex` and `rand` on trust
- `reciprocal`, `period`: binary long division, and when its digits repeat
- `key`: keys, and the files that hold them
- `challenge`, `compare`, `door`, `hello`: what a door answers
- `handshake`: the caller's side of the lock
- `wire`: requests and responses, and the frames that carry them
- `runner`: a batch of calls with a limit on how many run at a time
- `cli`: what the command line decides

`app/` is the program around it: arguments, files, sockets and JSON.
