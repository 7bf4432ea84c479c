//! Decoding of the field data of RMC ("Recommended Minimum Navigation
//! Information") sentences emitted by satellite positioning receivers.
pub mod decoders;
pub mod numeral;
pub mod rmc;
pub mod split;

pub use decoders::{Coordinate, FixDate, FixTime};
pub use numeral::Decimal;
pub use rmc::{
    do_parse_rmc, parse_rmc, Error, NmeaSentence, RmcData, RmcField, RmcStatusOfFix, SentenceType,
};
