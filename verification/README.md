# pngstreamenc

A streaming PNG encoder with a proof. Rows come in in batches of any size, go out filtered and
compressed; the encoder itself holds no more than a few rows and one IDAT chunk.

The library does no input or output and does not compress. Opening a file, encoding rows and
closing a file are dialogues: the library says what to do next (write these bytes, run the
compressor), and the program tells it how that went.

| Module | What it holds |
|--------|---------------|
| `filter`, `unfilter` | the five scanline filters and the adaptive choice; undoing them |
| `chunk`, `png_file` | CRC-32, chunks, the layout of a file; reading them back |
| `encoder` | the state of an encoder, and what every operation keeps |
| `driver` | actions and their outcomes |
| `opening`, `scanlines`, `closing` | the three dialogues |
| `session`, `batching` | what holds of a whole session, however its rows are batched |
| `header`, `header_laws` | PPM (P6) and PAM (P7) headers from a stream of bytes |
| `plan` | the batches in which an image is read |
| `options`, `text`, `last_error` | names of settings, decimal numbers, the last error |

The main theorem is `session::law_session_gives_image_back`: what a session writes reads back as
a PNG file with the settings of the image and all that the compressor produced, and what the
compressor was given unfilters to the rows that were encoded. `law_session_leaves_the_file` fixes
the bytes of the file: all IDAT chunks but the last are full. That zlib's output decompresses to
its input is zlib's own promise and no part of the proof.

`app/` is the command line program with its C interface. It performs the actions with files,
callbacks and zlib.
