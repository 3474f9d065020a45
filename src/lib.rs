//! Extraction of air-quality readings from a station's mobile web page.
//!
//! The page carries the station's address, the observation time and one card
//! per pollutant in its markup, and the hourly series of each pollutant in the
//! chart-seeding calls of an embedded script. `dom` reads those parts from the
//! document, `series` decodes the script's calls, `grade` classifies the
//! status words, `text` trims and unwraps labels, and `record` puts the parts
//! together into an [`AirStatus`].
pub mod dom;
pub mod grade;
pub mod number;
pub mod record;
pub mod series;
pub mod text;

pub use dom::{extract_text_from_element, parse, parse_page, read_fields};
pub use grade::Grade;
pub use number::parses_as_number;
pub use record::{assemble, AirStatus, CardFields, ExtractError, PageFields, Pollutant};
pub use series::{decode_payload, decode_series};
pub use text::{join_trimmed_parts, trim, unwrap_parenthesized};
