//! The author identity line of a commit:
//! `<name> <<email>> <unix-seconds> <±HHMM offset>`.

use vstd::prelude::*;

use crate::encoding::{dec_of_int, push_dec_i64};

verus! {

/// Two zero-padded ASCII decimal digits of a value below 100.
pub open spec fn two_digits(n: int) -> Seq<u8>
    recommends
        0 <= n < 100,
{
    seq![(48 + n / 10) as u8, (48 + n % 10) as u8]
}

/// The `±HHMM` form of a zone offset given in seconds.
pub open spec fn offset_bytes(offset_seconds: int) -> Seq<u8> {
    let sign: u8 = if offset_seconds < 0 {
        45u8
    } else {
        43u8
    };
    let minutes = (if offset_seconds < 0 {
        -offset_seconds
    } else {
        offset_seconds
    }) / 60;
    seq![sign] + two_digits(minutes / 60) + two_digits(minutes % 60)
}

/// The identity line of a name, an email, a timestamp and a zone offset.
pub open spec fn ident_bytes(name: Seq<u8>, email: Seq<u8>, timestamp: int, offset_seconds: int)
    -> Seq<u8> {
    name + seq![32u8, 60u8] + email + seq![62u8, 32u8] + dec_of_int(timestamp) + seq![32u8]
        + offset_bytes(offset_seconds)
}

/// An offset a clock can report: strictly within one day either way.
pub open spec fn offset_in_range(offset_seconds: int) -> bool {
    -86400 < offset_seconds < 86400
}

/// Who wrote a commit, and when: name, email, unix timestamp and the local
/// zone's offset from UTC in seconds.
pub struct Author {
    pub name: Vec<u8>,
    pub email: Vec<u8>,
    pub timestamp: i64,
    pub offset_seconds: i32,
}

/// Relies on `chrono::Local::now`: the wall clock's unix seconds, which
/// chrono bounds far inside `i64`, and the local zone's offset, which its
/// `FixedOffset` type keeps strictly within one day.
#[verifier::external_body]
pub fn local_now() -> (r: (i64, i32))
    ensures
        r.0 != i64::MIN,
        offset_in_range(r.1 as int),
{
    let now = chrono::Local::now();
    (now.timestamp(), now.offset().local_minus_utc())
}

impl Author {
    /// An identity from its parts.
    pub fn new(name: Vec<u8>, email: Vec<u8>, timestamp: i64, offset_seconds: i32) -> (r: Author)
        ensures
            r.name@ == name@,
            r.email@ == email@,
            r.timestamp == timestamp,
            r.offset_seconds == offset_seconds,
    {
        Author { name, email, timestamp, offset_seconds }
    }

    /// An identity can be printed when its timestamp is negatable and its
    /// offset fits the `±HHMM` form.
    pub open spec fn wf(&self) -> bool {
        &&& self.timestamp != i64::MIN
        &&& offset_in_range(self.offset_seconds as int)
    }

    /// An identity with the same value.
    pub fn duplicate(&self) -> (r: Author)
        ensures
            r.name@ == self.name@,
            r.email@ == self.email@,
            r.timestamp == self.timestamp,
            r.offset_seconds == self.offset_seconds,
    {
        Author {
            name: self.name.clone(),
            email: self.email.clone(),
            timestamp: self.timestamp,
            offset_seconds: self.offset_seconds,
        }
    }

    /// The serialized identity line.
    pub fn to_string(&self) -> (r: Vec<u8>)
        requires
            self.wf(),
        ensures
            r@ == ident_bytes(
                self.name@,
                self.email@,
                self.timestamp as int,
                self.offset_seconds as int,
            ),
    {
        let mut out: Vec<u8> = Vec::new();
        out.extend_from_slice(self.name.as_slice());
        out.push(32);
        out.push(60);
        out.extend_from_slice(self.email.as_slice());
        out.push(62);
        out.push(32);
        push_dec_i64(&mut out, self.timestamp);
        out.push(32);
        let off = self.offset_seconds;
        if off < 0 {
            out.push(45);
        } else {
            out.push(43);
        }
        let magnitude: i32 = if off < 0 {
            -off
        } else {
            off
        };
        let minutes: i32 = magnitude / 60;
        let hh: i32 = minutes / 60;
        let mm: i32 = minutes % 60;
        out.push(48 + (hh / 10) as u8);
        out.push(48 + (hh % 10) as u8);
        out.push(48 + (mm / 10) as u8);
        out.push(48 + (mm % 10) as u8);
        proof {
            assert(out@ =~= ident_bytes(
                self.name@,
                self.email@,
                self.timestamp as int,
                self.offset_seconds as int,
            ));
        }
        out
    }
}

} // verus!
