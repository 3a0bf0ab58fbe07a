# itv-relay

An IPTV relay. It reads an m3u list of channels and offers a playlist and play
addresses of its own. While the network is good the source is passed on; when it
gets worse the relay moves to a lower bitrate, and back up when it recovers, all
within one connection to the player.

The decisions are a library whose functions are proved against their contracts
with Verus. Around it stands a small program that does the input and output.

## The library (`src/`)

- `mpegts`: transport stream packets and tables.
- `keyframe`: finding keyframes and what leads up to them.
- `preroll`: cutting a stream at a keyframe, cleaning it, and marking the
  discontinuity.
- `splice`: what holds of a stream that is cut and marked.
- `prepare`: reading a new stream until it can take over.
- `state`: when to change the ladder.
- `session`: a playing session, from one event to the next.
- `streambuf`: the queue to the player.
- `ladder`: the order in which ladders are tried, and limits.
- `config`: the configuration, its defaults and its checks.
- `ffmpeg`: the arguments for ffmpeg.
- `playlist`, `address`: the channel list, and the address that players see.
- `reread`: what comes back when a written playlist is read.
- `binary64`, `clock`, `congestion`, `text`: numbers, times, measurements, text.

Numbers with a fraction are IEEE 754 binary64 numbers, held as bit patterns and
computed with integers. Times are whole nanoseconds.

## The program (`app/`)

`app/main.rs` reads the configuration and the channel list and serves
`/playlist.m3u` and `/play/tv-N`. It starts ffmpeg, reads it, and hands what it
reads to the library.
