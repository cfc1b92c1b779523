# ncp

A reliable, ordered byte stream over UDP datagrams, in the manner of KCP: numbered
segments, selective and cumulative acknowledgements, a retransmission timeout from
measured round trips, and a window of segments.

The library in `src/` is verified with Verus. It reads the clock and does no other I/O:

- `wire`: big-endian integers and byte cursors;
- `frame`: the frame and its bytes;
- `segment`: segments and the frames that carry or acknowledge them;
- `timing`: the millisecond clock and the round-trip estimator;
- `model`: a connection and its steps, as mathematics;
- `inner`: the connection itself, from messages to actions;
- `stream`: the decisions of the reading and the writing end;
- `laws`: what holds of a connection from one event to the next;
- `flow`: the window account of a writer and its connection;
- `delivery`: what the reader gets of what the writer wrote;
- `sending`: when and in what order segments go out for the first time;
- `notices`: what the writer is told of what it wrote;
- `arrival`: what has come, and what an acknowledgement says of it.

`app/` holds the sockets, channels and tasks around it. A caller there asks `admits`,
`window_fits` or `plan_fits` first wherever a step has a condition.
