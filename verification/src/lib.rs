//! EXIF metadata parsing and web-page image scraping, with their logic
//! stated and proved in Verus.
//!
//! * [`exif`]: the TIFF/EXIF header and image file directories, read from
//!   raw bytes.
//! * [`scraper`]: link resolution against a base URL, image links found in a
//!   page, the decisions on HTTP responses and the image URLs downloaded.
//! * [`spider`]: a spider over one site: its link pattern, the links to
//!   follow from a page, and the images collected.
//! * [`crawl`]: the crawl of a site as a state machine that asks for pages
//!   and decides which link to follow next.
//! * [`harvest`]: the choice of the images to fetch from the pages received,
//!   as a state machine that asks for one image at a time.
//! * [`text`]: prefix, infix and equality tests on text.
//! * [`web`]: the items that call the `url` and `regex` crates and std.
pub mod crawl;
pub mod exif;
pub mod harvest;
pub mod scraper;
pub mod spider;
pub mod text;
pub mod web;
