# arachnida

Two small tools, run as subcommands of one program, and the verified
library behind them.

* `arachnida scorpion <file>` prints the EXIF data at the start of a file: the TIFF
  header and the chain of image file directories (IFDs).
* `arachnida spider <url> [-r] [-l N] [-p DIR]` crawls a site depth first, up to `N`
  levels of links (0 without `-r`), and saves the images its pages link to
  under `DIR`.

## Layout

* `src/` — the library, verified with Verus.
  * `exif/` — reading the header, fields and IFDs from bytes, and the
    decision whether the chain of IFDs ends.
  * `scraper.rs` — resolving links against the site's URL, image links of a
    page, decisions on HTTP responses, the log of downloaded images.
  * `spider.rs` — the spider: its link pattern, the links to follow from a
    page, the images collected (one entry per distinct image), and the step
    that keeps a fetched image and logs its URL.
  * `crawl.rs` — the crawl as a state machine: it asks for one page at a
    time and decides which link comes next.
  * `harvest.rs` — the choice of the images to fetch, as a state machine:
    over the image links of the pages received, in order, it asks for one
    image at a time, passes over links that did not resolve or whose URL is
    logged, and keeps each image fetched.
  * `text.rs` — prefix, infix and equality tests on text.
  * `web.rs` — the calls into the `url` and `regex` crates and std, with the
    contracts they are trusted to meet.
* `app/` — the command line, the network requests and the file writes.
* `tests/` — tests of the library on concrete inputs.
