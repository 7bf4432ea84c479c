use vstd::prelude::*;
use vstd::string::StringSliceAdditionalSpecFns;

use crate::decoders::{
    date_of, parse_date, parse_position, parse_time, position_of, time_of, Coordinate, FixDate,
    FixTime,
};
use crate::numeral::{decimal_of, parse_decimal, Decimal};
use crate::split::{lemma_split_concat, lemma_split_nonempty, split, split_fields, COMMA};

verus! {

/// The type tag of a sentence, the three letters after the talker.
#[derive(Clone, Copy, Debug, PartialEq, Eq, Structural)]
pub enum SentenceType {
    AAM,
    ALM,
    BOD,
    BWC,
    GBS,
    GGA,
    GLL,
    GNS,
    GSA,
    GSV,
    HDT,
    MDA,
    MTW,
    RMC,
    TXT,
    VHW,
    VTG,
    ZDA,
}

/// A sentence after framing and checksum verification: its declared type and
/// the comma-separated field data between the header and the checksum.
#[derive(Clone, Copy, Debug)]
pub struct NmeaSentence<'a> {
    pub message_id: SentenceType,
    pub data: &'a str,
}

/// The fields of an RMC sentence, as named in errors.
#[derive(Clone, Copy, Debug, PartialEq, Eq, Structural)]
pub enum RmcField {
    FixTime,
    StatusOfFix,
    Position,
    SpeedOverGround,
    TrueCourse,
    FixDate,
}

#[derive(Clone, Copy, Debug, PartialEq, Eq, Structural)]
pub enum Error {
    /// The sentence carries another type tag than the decoder expects.
    WrongSentenceType { expected: SentenceType, found: SentenceType },
    /// A non-empty field breaks the grammar of its decoder.
    MalformedField(RmcField),
    /// The field data ends before a delimiter that the grammar requires.
    TruncatedSentence,
}

#[derive(Clone, Copy, Debug, PartialEq, Eq, Structural)]
pub enum RmcStatusOfFix {
    Autonomous,
    Differential,
    Invalid,
}

/// RMC - Recommended Minimum Navigation Information.
///
/// ```text
///         1         2 3       4 5        6  7   8   9    10 11
///         |         | |       | |        |  |   |   |    |  |
///  $--RMC,hhmmss.ss,A,ddmm.mm,a,dddmm.mm,a,x.x,x.x,xxxx,x.x,a*hh<CR><LF>
/// ```
///
/// Later revisions append a mode indicator and a navigational status; those
/// and the magnetic variation are not decoded.
#[derive(Clone, Copy, Debug, PartialEq, Eq, Structural)]
pub struct RmcData {
    pub fix_time: Option<FixTime>,
    pub fix_date: Option<FixDate>,
    pub status_of_fix: RmcStatusOfFix,
    pub lat: Option<Coordinate>,
    pub lon: Option<Coordinate>,
    pub speed_over_ground: Option<Decimal>,
    pub true_course: Option<Decimal>,
}

impl RmcData {
    /// Latitude and longitude are present together or absent together, and
    /// the time and date that are present are valid.
    pub open spec fn wf(&self) -> bool {
        &&& (self.lat is Some <==> self.lon is Some)
        &&& (self.fix_time is Some ==> self.fix_time->0.wf())
        &&& (self.fix_date is Some ==> self.fix_date->0.wf())
    }
}

/// `A`, `D` and `V` are the three status letters.
pub open spec fn status_of_char(c: u8) -> Option<RmcStatusOfFix> {
    if c == 65 {
        Some(RmcStatusOfFix::Autonomous)
    } else if c == 68 {
        Some(RmcStatusOfFix::Differential)
    } else if c == 86 {
        Some(RmcStatusOfFix::Invalid)
    } else {
        None
    }
}

/// The status field is exactly one status letter; it is never empty.
pub open spec fn status_of(t: Seq<u8>) -> Option<RmcStatusOfFix> {
    if t.len() == 1 {
        status_of_char(t[0])
    } else {
        None
    }
}

/// An optional time field: empty is absent, `None` is malformed.
pub open spec fn opt_time_of(t: Seq<u8>) -> Option<Option<FixTime>> {
    if t.len() == 0 {
        Some(None)
    } else {
        match time_of(t) {
            Some(x) => Some(Some(x)),
            None => None,
        }
    }
}

/// An optional date field: empty is absent, `None` is malformed.
pub open spec fn opt_date_of(t: Seq<u8>) -> Option<Option<FixDate>> {
    if t.len() == 0 {
        Some(None)
    } else {
        match date_of(t) {
            Some(x) => Some(Some(x)),
            None => None,
        }
    }
}

/// An optional numeric field: empty is absent, `None` is malformed.
pub open spec fn opt_decimal_of(t: Seq<u8>) -> Option<Option<Decimal>> {
    if t.len() == 0 {
        Some(None)
    } else {
        match decimal_of(t) {
            Some(x) => Some(Some(x)),
            None => None,
        }
    }
}

/// The record that the fields `fs` of an RMC sentence describe, decoded left
/// to right: time, status, the four fields of the position, speed, course,
/// date, and the delimiter after the date. A field group is decoded once all
/// of its fields are present; a malformed one fails the whole record; input
/// that ends before a field or a required delimiter is truncated. Fields after
/// the ninth are never read.
pub open spec fn rmc_of_fields(fs: Seq<Seq<u8>>) -> Result<RmcData, Error> {
    if fs.len() < 1 {
        Err(Error::TruncatedSentence)
    } else {
        match opt_time_of(fs[0]) {
            None => Err(Error::MalformedField(RmcField::FixTime)),
            Some(fix_time) => if fs.len() < 2 {
                Err(Error::TruncatedSentence)
            } else {
                match status_of(fs[1]) {
                    None => Err(Error::MalformedField(RmcField::StatusOfFix)),
                    Some(status_of_fix) => if fs.len() < 6 {
                        Err(Error::TruncatedSentence)
                    } else {
                        match position_of(fs[2], fs[3], fs[4], fs[5]) {
                            None => Err(Error::MalformedField(RmcField::Position)),
                            Some(pos) => if fs.len() < 7 {
                                Err(Error::TruncatedSentence)
                            } else {
                                match opt_decimal_of(fs[6]) {
                                    None => Err(Error::MalformedField(RmcField::SpeedOverGround)),
                                    Some(speed_over_ground) => if fs.len() < 8 {
                                        Err(Error::TruncatedSentence)
                                    } else {
                                        match opt_decimal_of(fs[7]) {
                                            None => Err(
                                                Error::MalformedField(RmcField::TrueCourse),
                                            ),
                                            Some(true_course) => if fs.len() < 9 {
                                                Err(Error::TruncatedSentence)
                                            } else {
                                                match opt_date_of(fs[8]) {
                                                    None => Err(
                                                        Error::MalformedField(RmcField::FixDate),
                                                    ),
                                                    Some(fix_date) => if fs.len() < 10 {
                                                        Err(Error::TruncatedSentence)
                                                    } else {
                                                        Ok(
                                                            RmcData {
                                                                fix_time,
                                                                fix_date,
                                                                status_of_fix,
                                                                lat: match pos {
                                                                    Some((a, _)) => Some(a),
                                                                    None => None,
                                                                },
                                                                lon: match pos {
                                                                    Some((_, b)) => Some(b),
                                                                    None => None,
                                                                },
                                                                speed_over_ground,
                                                                true_course,
                                                            },
                                                        )
                                                    },
                                                }
                                            },
                                        }
                                    },
                                }
                            },
                        }
                    },
                }
            },
        }
    }
}

/// The record that the field data `b` of an RMC sentence describes.
pub open spec fn rmc_data_of(b: Seq<u8>) -> Result<RmcData, Error> {
    rmc_of_fields(split_fields(b))
}

/// What decoding `s` as an RMC sentence gives.
pub open spec fn rmc_of_sentence(s: NmeaSentence) -> Result<RmcData, Error> {
    if s.message_id != SentenceType::RMC {
        Err(Error::WrongSentenceType { expected: SentenceType::RMC, found: s.message_id })
    } else {
        rmc_data_of(s.data.spec_bytes())
    }
}

/// Decodes the status field (see `status_of`).
pub fn parse_status(t: &[u8]) -> (r: Option<RmcStatusOfFix>)
    ensures
        r == status_of(t@),
{
    if t.len() != 1 {
        None
    } else if t[0] == 65 {
        Some(RmcStatusOfFix::Autonomous)
    } else if t[0] == 68 {
        Some(RmcStatusOfFix::Differential)
    } else if t[0] == 86 {
        Some(RmcStatusOfFix::Invalid)
    } else {
        None
    }
}

fn parse_opt_time(t: &[u8]) -> (r: Result<Option<FixTime>, Error>)
    ensures
        r == match opt_time_of(t@) {
            Some(x) => Ok(x),
            None => Err(Error::MalformedField(RmcField::FixTime)),
        },
        r matches Ok(Some(x)) ==> x.wf(),
{
    if t.len() == 0 {
        Ok(None)
    } else {
        match parse_time(t) {
            Some(x) => Ok(Some(x)),
            None => Err(Error::MalformedField(RmcField::FixTime)),
        }
    }
}

fn parse_opt_date(t: &[u8]) -> (r: Result<Option<FixDate>, Error>)
    ensures
        r == match opt_date_of(t@) {
            Some(x) => Ok(x),
            None => Err(Error::MalformedField(RmcField::FixDate)),
        },
        r matches Ok(Some(x)) ==> x.wf(),
{
    if t.len() == 0 {
        Ok(None)
    } else {
        match parse_date(t) {
            Some(x) => Ok(Some(x)),
            None => Err(Error::MalformedField(RmcField::FixDate)),
        }
    }
}

fn parse_opt_decimal(t: &[u8], field: RmcField) -> (r: Result<Option<Decimal>, Error>)
    ensures
        r == match opt_decimal_of(t@) {
            Some(x) => Ok(x),
            None => Err(Error::MalformedField(field)),
        },
{
    if t.len() == 0 {
        Ok(None)
    } else {
        match parse_decimal(t) {
            Some(x) => Ok(Some(x)),
            None => Err(Error::MalformedField(field)),
        }
    }
}

/// Decodes the field data of an RMC sentence (see `rmc_of_fields`).
pub fn do_parse_rmc(data: &str) -> (r: Result<RmcData, Error>)
    ensures
        r == rmc_data_of(data.spec_bytes()),
        r is Ok ==> r->Ok_0.wf(),
{
    let fs = split(data.as_bytes());
    let ghost v = fs@.map_values(|f: Vec<u8>| f@);
    assert(v.len() == fs@.len());
    assert(forall|k: int| 0 <= k < fs@.len() ==> #[trigger] fs@[k]@ == v[k]);
    proof {
        lemma_split_nonempty(data.spec_bytes());
    }
    let fix_time = parse_opt_time(fs[0].as_slice())?;
    if fs.len() < 2 {
        return Err(Error::TruncatedSentence);
    }
    let status_of_fix = match parse_status(fs[1].as_slice()) {
        Some(st) => st,
        None => {
            return Err(Error::MalformedField(RmcField::StatusOfFix));
        },
    };
    if fs.len() < 6 {
        return Err(Error::TruncatedSentence);
    }
    let pos = match parse_position(
        fs[2].as_slice(),
        fs[3].as_slice(),
        fs[4].as_slice(),
        fs[5].as_slice(),
    ) {
        Some(p) => p,
        None => {
            return Err(Error::MalformedField(RmcField::Position));
        },
    };
    if fs.len() < 7 {
        return Err(Error::TruncatedSentence);
    }
    let speed_over_ground = parse_opt_decimal(fs[6].as_slice(), RmcField::SpeedOverGround)?;
    if fs.len() < 8 {
        return Err(Error::TruncatedSentence);
    }
    let true_course = parse_opt_decimal(fs[7].as_slice(), RmcField::TrueCourse)?;
    if fs.len() < 9 {
        return Err(Error::TruncatedSentence);
    }
    let fix_date = parse_opt_date(fs[8].as_slice())?;
    if fs.len() < 10 {
        return Err(Error::TruncatedSentence);
    }
    let (lat, lon) = match pos {
        Some((a, b)) => (Some(a), Some(b)),
        None => (None, None),
    };
    Ok(RmcData { fix_time, fix_date, status_of_fix, lat, lon, speed_over_ground, true_course })
}

/// Decodes an RMC sentence: a sentence of another type is refused with both
/// tags before any field is read; otherwise the field data is decoded.
pub fn parse_rmc(sentence: NmeaSentence) -> (r: Result<RmcData, Error>)
    ensures
        r == rmc_of_sentence(sentence),
        r is Ok ==> r->Ok_0.wf(),
{
    if sentence.message_id != SentenceType::RMC {
        Err(Error::WrongSentenceType { expected: SentenceType::RMC, found: sentence.message_id })
    } else {
        do_parse_rmc(sentence.data)
    }
}

/// The four position fields (latitude, its hemisphere, longitude, its
/// hemisphere) are all empty.
pub open spec fn position_fields_empty(fs: Seq<Seq<u8>>) -> bool {
    fs[2].len() == 0 && fs[3].len() == 0 && fs[4].len() == 0 && fs[5].len() == 0
}

/// Decoding keeps no state: two sentences with the same type tag and the same
/// field data decode to the same result.
pub proof fn lemma_decode_deterministic(a: NmeaSentence, b: NmeaSentence)
    requires
        a.message_id == b.message_id,
        a.data@ == b.data@,
    ensures
        rmc_of_sentence(a) == rmc_of_sentence(b),
{
}

/// Latitude and longitude come from one decode of the position: in every
/// decoded record both are present or both are absent, and they are absent
/// exactly when the four position fields are empty.
pub proof fn lemma_position_jointly(b: Seq<u8>)
    ensures
        rmc_data_of(b) is Ok ==> (rmc_data_of(b)->Ok_0.lat is Some <==> rmc_data_of(b)->Ok_0.lon is Some),
        rmc_data_of(b) is Ok ==> (rmc_data_of(b)->Ok_0.lat is None <==> position_fields_empty(
            split_fields(b),
        )),
{
}

/// The status letter decides the status by the table `A` Autonomous,
/// `D` Differential, `V` Invalid; once the time field before it is well
/// formed, a status field holding any other byte fails the whole record as
/// a malformed status.
pub proof fn lemma_status_table(b: Seq<u8>, c: u8)
    requires
        split_fields(b).len() >= 2,
        split_fields(b)[1] == seq![c],
        opt_time_of(split_fields(b)[0]) is Some,
    ensures
        !(c == 65 || c == 68 || c == 86) ==> rmc_data_of(b) == Err::<RmcData, Error>(
            Error::MalformedField(RmcField::StatusOfFix),
        ),
        rmc_data_of(b) is Ok ==> ((c == 65 && rmc_data_of(b)->Ok_0.status_of_fix
            == RmcStatusOfFix::Autonomous) || (c == 68 && rmc_data_of(b)->Ok_0.status_of_fix
            == RmcStatusOfFix::Differential) || (c == 86 && rmc_data_of(b)->Ok_0.status_of_fix
            == RmcStatusOfFix::Invalid)),
{
}

proof fn lemma_fields_after_date(x: Seq<Seq<u8>>, y: Seq<Seq<u8>>)
    requires
        x.len() >= 10,
        y.len() >= 10,
        forall|k: int| 0 <= k < 9 ==> x[k] == y[k],
    ensures
        rmc_of_fields(x) == rmc_of_fields(y),
{
    assert(x[0] == y[0] && x[1] == y[1] && x[2] == y[2] && x[3] == y[3] && x[4] == y[4]);
    assert(x[5] == y[5] && x[6] == y[6] && x[7] == y[7] && x[8] == y[8]);
}

/// Fields after the date and its delimiter (magnetic variation, mode
/// indicator, navigational status of later protocol revisions) do not change
/// the result: `b` followed by a comma decodes as `b`, a comma and any tail.
pub proof fn lemma_trailing_fields(b: Seq<u8>, e: Seq<u8>)
    requires
        split_fields(b).len() >= 9,
    ensures
        rmc_data_of(b + seq![COMMA] + e) == rmc_data_of(b + seq![COMMA]),
{
    let none = Seq::<u8>::empty();
    lemma_split_concat(b, e);
    lemma_split_concat(b, none);
    lemma_split_nonempty(e);
    lemma_split_nonempty(none);
    assert(b + seq![COMMA] + none =~= b + seq![COMMA]);
    let fs = split_fields(b);
    let x = fs + split_fields(e);
    let y = fs + split_fields(none);
    assert forall|k: int| 0 <= k < 9 implies x[k] == y[k] by {
        assert(x[k] == fs[k]);
        assert(y[k] == fs[k]);
    }
    lemma_fields_after_date(x, y);
}

} // verus!
