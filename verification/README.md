# gst-plugin-xwm

GStreamer support for Microsoft xWMA (`.xwm`) audio and for Bethesda FUZ
(`.fuz`) files, which wrap it, written in Verus.

`.xwm` is a RIFF container (`RIFF....XWMA`) around WMAv2 audio. The demuxer
splits it into packets, one per buffer, for `avdec_wmav2` to decode, and
synthesises the fixed 6-byte `codec_data` (`00 00 00 00 1F 00`) that the files
omit and the decoder needs. The `dpds` index gives the duration, the time
stamp of each packet, and the byte to which a seek in time goes. Such seeks are
served where upstream counts bytes; behind the FUZ demuxer, whose stream is in
time, they are left to the pads.

## Layout

- `src/` is the verified library. It works on plain values only.
  - `typefind`: which bytes are an xWMA or a FUZ file.
  - `format`, `timeline`: the WAVEFORMATEX, and packets on the time line.
  - `model`: the container as an automaton.
  - `xwmademux`, `fuzdemux`: the demuxers.
  - `laws`, `seeking`, `files`, `file_laws`, `fuz_laws`: what is proved of them
    as a whole, such as that it plays no part how a stream is cut into buffers,
    that a file comes out as its packets, that a FUZ file gives what the xWMA
    file in it gives, and that playback after a seek goes on where straight
    playback would have been.
- `app/` is the plugin: pads, locks and GObject plumbing around the library.
- `tests/` runs the library on concrete streams.
