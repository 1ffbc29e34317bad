# Art-Net Smoother

`artnet-smoother` is a UDP proxy that stands in front of one Art-Net controller and smooths bursty
output before it arrives there. One process serves one controller.

Everything the proxy decides stands in `src/`, is written in [Verus](https://github.com/verus-lang/verus)
and proved: what a datagram is, whether it is forwarded, held or dropped, which packets make a frame,
when each of them goes out, and what the statistics say. `app/` is the program around it: arguments,
sockets, threads and the clock.

## Modes

- `passthrough`: forwards accepted packets at once.
- `spread`: holds ArtDmx and spreads it over each interval of `--fps`. ArtSync is forwarded at once.
- `sync-delay` (the default): holds ArtDmx until ArtSync, spreads the complete frame over the next
  frame interval, then sends the ArtSync packet behind it.
- `fixed-fps`: holds ArtDmx and sends it at `--fps`. ArtSync is ignored.

## Flags

- `--fps 40`: the frame rate, or the one to start with.
- `--stats`: print packet and queue statistics once in a second.
- `--universes 10-14,20-24`: let only these ArtDmx universes through.
- `--min-packet-gap-us 500`: keep a gap between packets. What the mode forwards at once does not wait
  for it.
- `--max-pps 2000`: keep the gap that a ceiling on packets in a second asks for.
- `--unknown drop`: drop packets that are not understood instead of forwarding them.

```sh
artnet-smoother --listen 192.168.8.101:6454 --target 192.168.8.231:6454 --mode sync-delay --stats
```

## The library

| module         | what it holds                                                           |
|----------------|-------------------------------------------------------------------------|
| `artnet`       | kinds of datagrams                                                      |
| `text`         | white space, lists and numbers in arguments                             |
| `universes`    | the universe allowlist                                                  |
| `config`       | settings, their validation, and the gap between packets                 |
| `stats`        | counters and the report on them                                         |
| `receive`      | what becomes of an incoming packet                                      |
| `engine`       | which packets make a frame, and when frames are complete                |
| `pacing`       | when the packets of a frame go out                                      |
| `proxy`        | what holds of the proxy as a whole                                      |
| `slots`        | how a frame interval is divided                                         |
| `intervals`    | the frame interval and how it follows the incoming frames               |
| `duration`     | spans and points in time                                                |
| `binary64`     | double-precision arithmetic in integers                                 |
| `float_bounds` | how far rounding can take a result from the exact one                   |

Frame rates and intervals are computed in double precision, rounded as IEEE 754 says. The library
carries this out in integers, so that the contracts can say what comes out to the last nanosecond.

Public proof functions whose names begin with `law_` state what holds of several calls together.
