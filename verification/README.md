# wetdet

Humidity monitor logic, verified with Verus.

- `sdlog`: a log of length-prefixed records in a ring of blocks on a block
  device, with two alternating status pages that persist the read and write
  positions (`le`: little-endian integers, `status`: the status page,
  `device`: the device and item traits, `wrbuf`: the buffer of the block being
  written, `ring`: the log).
- `statemachine`, `alarm`, `envsensor`, `errordeb`, `logentry`, `measlog`,
  `config`: the monitor with short- and long-term humidity buffers. The
  thresholds, times and buffer length (`MEAS_LEN_S`) are set in `config`.
- `basic`: the monitor with a single buffer and an on/off alarm.

`app/` holds the programs around the library: `sddump`, which prints the log
of an SD card image or device as CSV, and the sensor, SD card and task glue of
the firmware.

Notes on the log:

- The values waiting to be written are held in a `VecDeque` limited to
  `QLEN` values.
- Reads take the unread bytes of the block being assembled from the write
  buffer, and all other unread bytes from the device. When the writer has
  come round the ring into the reader's block, behind the reader, the bytes
  after the write offset are still unread on the device; `commit` writes the
  partly filled block with those bytes kept.
- A failed block write puts the write position and the write buffer back
  to where the record began: none of the record is in the stream, and a
  value that `flush_queue` could not write stays first in the queue.
- Writing the partly filled block again, with nothing new, stores the same
  bytes, so a second `commit` in a row changes nothing on the device.
- The device and item traits describe an implementation through spec
  functions (`stored`, `block_count`, `valid`, `encoded`, `decoded`,
  `max_bytes`); what is proved of the log holds of implementations that
  define them.
