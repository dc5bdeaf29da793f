//! Calendar values as plain numbers: a date is its day count from the first day of
//! the common era, a time of day its seconds since midnight.
use vstd::prelude::*;
use crate::le::lemma_le_bytes_len;
use crate::reader::ByteReader;
use crate::{
    after, decodable, lemma_after, lemma_proper_prefix_undecodable, CodecError, Decode, Encode,
};

verus! {

/// The number of seconds in a day.
pub const SECS_PER_DAY: u32 = 86400;

/// The day number names a date within the range that `chrono` can hold.
pub uninterp spec fn ce_day_in_range(days: i32) -> bool;

/// Relies on `chrono::NaiveDate::from_num_days_from_ce_opt`: it returns a date
/// exactly when the day number lies in chrono's range, which depends on the
/// number alone.
#[verifier::external_body]
fn is_ce_day_in_range(days: &i32) -> (r: bool)
    ensures
        r == ce_day_in_range(*days),
{
    chrono::NaiveDate::from_num_days_from_ce_opt(*days).is_some()
}

/// A date without a time zone, as days from the first day of the common era
/// (that day is day 1).
#[derive(Clone, Copy, Debug, PartialEq, Eq)]
pub struct NaiveDate {
    pub days_from_ce: i32,
}

/// A time of day with whole-second precision.
#[derive(Clone, Copy, Debug, PartialEq, Eq)]
pub struct NaiveTime {
    pub secs_from_midnight: u32,
}

/// A date in UTC: the same bytes as the date without a time zone.
#[derive(Clone, Copy, Debug, PartialEq, Eq)]
pub struct UtcDate {
    pub naive: NaiveDate,
}

/// A date and time in UTC: the same bytes as the naive date and time.
#[derive(Clone, Copy, Debug, PartialEq, Eq)]
pub struct UtcDateTime {
    pub naive: NaiveDateTime,
}

/// A date and a time of day, without a time zone.
#[derive(Clone, Copy, Debug, PartialEq, Eq)]
pub struct NaiveDateTime {
    pub date: NaiveDate,
    pub time: NaiveTime,
}

impl DeepView for NaiveTime {
    type V = u32;

    open spec fn deep_view(&self) -> u32 {
        self.secs_from_midnight
    }
}

/// The seconds since midnight as a `u32`; only a time within the day can be written.
impl Encode for NaiveTime {
    open spec fn fast_len(&self) -> nat {
        self.secs_from_midnight.fast_len()
    }

    open spec fn encodable(&self) -> bool {
        self.secs_from_midnight < SECS_PER_DAY
    }

    open spec fn wire(&self) -> Seq<u8> {
        self.secs_from_midnight.wire()
    }

    open spec fn fast_exact(&self) -> bool {
        true
    }

    fn fast_size(&self) -> (r: usize) {
        self.secs_from_midnight.fast_size()
    }

    fn size(&self) -> (r: Result<usize, CodecError>) {
        if self.secs_from_midnight >= SECS_PER_DAY {
            return Err(CodecError::InvalidInput);
        }
        self.secs_from_midnight.size()
    }

    fn encode_into(&self, out: &mut Vec<u8>) -> (r: Result<(), CodecError>) {
        if self.secs_from_midnight >= SECS_PER_DAY {
            return Err(CodecError::InvalidInput);
        }
        self.secs_from_midnight.encode_into(out)
    }
}

impl Decode for NaiveTime {
    open spec fn decode_error(input: Seq<u8>) -> CodecError {
        if input.len() < 4 {
            CodecError::UnexpectedEof
        } else {
            CodecError::InvalidData
        }
    }

    /// A second count of a day or more is `InvalidData`.
    fn decode_with_len_from(reader: &mut ByteReader) -> (r: Result<(Self, usize), CodecError>) {
        let ghost start = reader@;
        match u32::decode_with_len_from(reader) {
            Ok((secs, n)) => {
                if secs >= SECS_PER_DAY {
                    proof {
                        assert forall|v: NaiveTime, rest: Seq<u8>| #[trigger] v.encodable() && start
                            == #[trigger] (v.wire() + rest) implies false by {
                            u32::lemma_prefix_unique(secs, v.secs_from_midnight, reader@, rest);
                        }
                    }
                    return Err(CodecError::InvalidData);
                }
                Ok((NaiveTime { secs_from_midnight: secs }, n))
            },
            Err(e) => {
                proof {
                    assert forall|v: NaiveTime, rest: Seq<u8>| #[trigger] v.encodable() && start
                        == #[trigger] (v.wire() + rest) implies false by {
                        assert(v.secs_from_midnight.encodable());
                    }
                }
                Err(e)
            },
        }
    }

    fn never_empty() -> (r: bool) {
        proof {
            assert forall|v: Self| #[trigger] v.encodable() implies v.wire().len() >= 1 by {
                lemma_le_bytes_len(v.secs_from_midnight as nat, 4);
            }
        }
        true
    }

    proof fn lemma_truncated(v: Self, k: nat) {
        lemma_le_bytes_len(v.secs_from_midnight as nat, 4);
    }

    proof fn lemma_prefix_unique(a: Self, b: Self, ra: Seq<u8>, rb: Seq<u8>) {
        u32::lemma_prefix_unique(a.secs_from_midnight, b.secs_from_midnight, ra, rb);
    }
}

impl DeepView for NaiveDate {
    type V = <i32 as DeepView>::V;

    open spec fn deep_view(&self) -> Self::V {
        self.days_from_ce.deep_view()
    }
}

/// The bytes of its field; only a valid value can be written.
impl Encode for NaiveDate {
    open spec fn encodable(&self) -> bool {
        ce_day_in_range(self.days_from_ce)
    }

    open spec fn wire(&self) -> Seq<u8> {
        self.days_from_ce.wire()
    }

    open spec fn fast_exact(&self) -> bool {
        true
    }

    open spec fn fast_len(&self) -> nat {
        self.days_from_ce.fast_len()
    }

    fn fast_size(&self) -> (r: usize) {
        self.days_from_ce.fast_size()
    }

    fn size(&self) -> (r: Result<usize, CodecError>) {
        if !is_ce_day_in_range(&self.days_from_ce) {
            return Err(CodecError::InvalidInput);
        }
        self.days_from_ce.size()
    }

    fn encode_into(&self, out: &mut Vec<u8>) -> (r: Result<(), CodecError>) {
        if !is_ce_day_in_range(&self.days_from_ce) {
            return Err(CodecError::InvalidInput);
        }
        self.days_from_ce.encode_into(out)
    }
}

impl Decode for NaiveDate {
    open spec fn decode_error(input: Seq<u8>) -> CodecError {
        if input.len() < 4 {
            CodecError::UnexpectedEof
        } else {
            CodecError::InvalidData
        }
    }

    /// A day number outside chrono's range is `InvalidData`.
    fn decode_with_len_from(reader: &mut ByteReader) -> (r: Result<(Self, usize), CodecError>) {
        let ghost start = reader@;
        match <i32>::decode_with_len_from(reader) {
            Ok((x, n)) => {
                if !is_ce_day_in_range(&x) {
                    proof {
                        assert forall|v: NaiveDate, rest: Seq<u8>| #[trigger] v.encodable() && start
                            == #[trigger] (v.wire() + rest) implies false by {
                            <i32>::lemma_prefix_unique(x, v.days_from_ce, reader@, rest);
                        }
                    }
                    return Err(CodecError::InvalidData);
                }
                Ok((NaiveDate { days_from_ce: x }, n))
            },
            Err(e) => {
                proof {
                    assert forall|v: NaiveDate, rest: Seq<u8>| #[trigger] v.encodable() && start
                        == #[trigger] (v.wire() + rest) implies false by {
                        assert(v.days_from_ce.encodable());
                    }
                }
                Err(e)
            },
        }
    }

    fn never_empty() -> (r: bool) {
        proof {
            assert forall|v: Self| #[trigger] v.encodable() implies v.wire().len() >= 1 by {
                lemma_le_bytes_len((v.days_from_ce as u32) as nat, 4);
            }
        }
        true
    }

    proof fn lemma_truncated(v: Self, k: nat) {
        lemma_le_bytes_len((v.days_from_ce as u32) as nat, 4);
    }

    proof fn lemma_prefix_unique(a: Self, b: Self, ra: Seq<u8>, rb: Seq<u8>) {
        <i32>::lemma_prefix_unique(a.days_from_ce, b.days_from_ce, ra, rb);
    }
}

impl DeepView for NaiveDateTime {
    type V = (<NaiveDate as DeepView>::V, <NaiveTime as DeepView>::V);

    open spec fn deep_view(&self) -> Self::V {
        (self.date.deep_view(), self.time.deep_view())
    }
}

impl Encode for NaiveDateTime {
    open spec fn encodable(&self) -> bool {
        self.date.encodable() && self.time.encodable()
    }

    open spec fn wire(&self) -> Seq<u8> {
        self.date.wire() + self.time.wire()
    }

    open spec fn fast_exact(&self) -> bool {
        self.date.fast_exact() && self.time.fast_exact()
    }

    open spec fn fast_len(&self) -> nat {
        self.date.fast_len() + self.time.fast_len()
    }

    fn fast_size(&self) -> (r: usize) {
        let mut total: usize = self.date.fast_size();
        proof {
            if self.encodable() && self.fast_exact() && self.wire().len() <= usize::MAX {
                assert(self.wire().len() >= self.date.wire().len());
            }
        }
        let f1: usize = self.time.fast_size();
        if f1 > usize::MAX - total {
            proof {
                if self.encodable() && self.fast_exact() && self.wire().len() <= usize::MAX {
                    assert(self.wire().len() >= (self.date.wire() + self.time.wire()).len());
                }
            }
            return 0;
        }
        total = total + f1;
        proof {
            if self.encodable() && self.fast_exact() && self.wire().len() <= usize::MAX {
                assert(self.wire().len() >= (self.date.wire() + self.time.wire()).len());
                assert(total == (self.date.wire() + self.time.wire()).len());
            }
        }
        total
    }

    fn size(&self) -> (r: Result<usize, CodecError>) {
        let n0 = match self.date.size() {
            Ok(n) => n,
            Err(e) => {
                proof {
                    assert(self.wire().len() >= self.date.wire().len());
                }
                return Err(e);
            },
        };
        let mut total: usize = n0;
        let n1 = match self.time.size() {
            Ok(n) => n,
            Err(e) => {
                proof {
                    assert(self.wire().len() >= (self.date.wire() + self.time.wire()).len());
                }
                return Err(e);
            },
        };
        if n1 > usize::MAX - total {
            proof {
                assert(self.wire().len() >= (self.date.wire() + self.time.wire()).len());
            }
            return Err(CodecError::InvalidInput);
        }
        total = total + n1;
        assert(total == (self.date.wire() + self.time.wire()).len());
        Ok(total)
    }

    fn encode_into(&self, out: &mut Vec<u8>) -> (r: Result<(), CodecError>) {
        let start_len = out.len();
        match self.date.encode_into(out) {
            Ok(()) => {},
            Err(e) => {
                out.truncate(start_len);
                return Err(e);
            },
        }
        assert(out@ =~= old(out)@ + self.date.wire());
        match self.time.encode_into(out) {
            Ok(()) => {},
            Err(e) => {
                out.truncate(start_len);
                return Err(e);
            },
        }
        assert(out@ =~= old(out)@ + (self.date.wire() + self.time.wire()));
        Ok(())
    }
}

impl Decode for NaiveDateTime {
    open spec fn decode_error(input: Seq<u8>) -> CodecError {
        if !decodable::<NaiveDate>(input) {
            <NaiveDate>::decode_error(input)
        } else {
            <NaiveTime>::decode_error(after::<NaiveDate>(input))
        }
    }

    fn decode_with_len_from(reader: &mut ByteReader) -> (r: Result<(Self, usize), CodecError>) {
        let ghost start = reader@;
        proof {
            reader.lemma_len_fits();
        }
        let ghost m0 = reader@;
        let (x0, n0) = match <NaiveDate>::decode_with_len_from(reader) {
            Ok(p) => p,
            Err(e) => {
                proof {
                    assert forall|v: NaiveDateTime, rest: Seq<u8>| #[trigger] v.encodable() && start
                        == #[trigger] (v.wire() + rest) implies false by {
                        assert(m0 =~= v.date.wire() + (v.time.wire() + rest));
                        assert(v.date.encodable());
                    }
                }
                return Err(e);
            },
        };
        let ghost m1 = reader@;
        let (x1, n1) = match <NaiveTime>::decode_with_len_from(reader) {
            Ok(p) => p,
            Err(e) => {
                proof {
                    lemma_after::<NaiveDate>(m0, x0, m1);
                    assert forall|v: NaiveDateTime, rest: Seq<u8>| #[trigger] v.encodable() && start
                        == #[trigger] (v.wire() + rest) implies false by {
                        assert(m0 =~= v.date.wire() + (v.time.wire() + rest));
                        <NaiveDate>::lemma_prefix_unique(x0, v.date, m1, v.time.wire() + rest);
                        assert(m1 =~= (x0.wire() + m1).skip(x0.wire().len() as int));
                        assert(m1 =~= (v.date.wire() + (v.time.wire() + rest)).skip(v.date.wire().len() as int));
                        assert(m1 =~= v.time.wire() + rest);
                        assert(v.time.encodable());
                    }
                }
                return Err(e);
            },
        };
        let v = NaiveDateTime { date: x0, time: x1 };
        assert(start =~= v.wire() + reader@);
        Ok((v, n0 + n1))
    }

    fn never_empty() -> (r: bool) {
        let r0 = <NaiveDate>::never_empty();
        let r1 = <NaiveTime>::never_empty();
        proof {
            if r0 || r1 {
                assert forall|v: Self| #[trigger] v.encodable() implies v.wire().len() >= 1 by {
                    if r0 {
                        assert(v.date.encodable());
                    }
                    if r1 {
                        assert(v.time.encodable());
                    }
                }
            } else {
                let w0 = choose|x: NaiveDate| #[trigger] x.encodable() && !(x.wire().len() >= 1);
                let w1 = choose|x: NaiveTime| #[trigger] x.encodable() && !(x.wire().len() >= 1);
                let w = NaiveDateTime { date: w0, time: w1 };
                assert(w.encodable() && !(w.wire().len() >= 1));
            }
        }
        r0 || r1
    }

    proof fn lemma_truncated(v: Self, k: nat) {
        if (k as int) < v.date.wire().len() {
            assert(v.wire().take(k as int) =~= v.date.wire().take(k as int));
            lemma_proper_prefix_undecodable::<NaiveDate>(v.date, (k as int) as nat);
            <NaiveDate>::lemma_truncated(v.date, (k as int) as nat);
        } else {
            assert(v.wire().take(k as int) =~= v.date.wire() + (v.time.wire()).take(k as int - v.date.wire().len()));
            lemma_after::<NaiveDate>(v.wire().take(k as int), v.date, (v.time.wire()).take(k as int - v.date.wire().len()));
            <NaiveTime>::lemma_truncated(v.time, (k as int - v.date.wire().len()) as nat);
        }
    }

    proof fn lemma_prefix_unique(a: Self, b: Self, ra: Seq<u8>, rb: Seq<u8>) {
        assert(a.wire() + ra =~= a.date.wire() + (a.time.wire() + ra));
        assert(b.wire() + rb =~= b.date.wire() + (b.time.wire() + rb));
        <NaiveDate>::lemma_prefix_unique(a.date, b.date, a.time.wire() + ra, b.time.wire() + rb);
        assert(a.time.wire() + ra =~= (a.date.wire() + (a.time.wire() + ra)).skip(a.date.wire().len() as int));
        assert(b.time.wire() + rb =~= (b.date.wire() + (b.time.wire() + rb)).skip(b.date.wire().len() as int));
        <NaiveTime>::lemma_prefix_unique(a.time, b.time, ra, rb);
        assert(ra =~= (a.time.wire() + ra).skip(a.time.wire().len() as int));
        assert(rb =~= (b.time.wire() + rb).skip(b.time.wire().len() as int));
    }
}

impl DeepView for UtcDate {
    type V = <NaiveDate as DeepView>::V;

    open spec fn deep_view(&self) -> Self::V {
        self.naive.deep_view()
    }
}

/// Exactly the bytes of its one field.
impl Encode for UtcDate {
    open spec fn encodable(&self) -> bool {
        self.naive.encodable()
    }

    open spec fn wire(&self) -> Seq<u8> {
        self.naive.wire()
    }

    open spec fn fast_exact(&self) -> bool {
        self.naive.fast_exact()
    }

    open spec fn fast_len(&self) -> nat {
        self.naive.fast_len()
    }

    fn fast_size(&self) -> (r: usize) {
        self.naive.fast_size()
    }

    fn size(&self) -> (r: Result<usize, CodecError>) {
        self.naive.size()
    }

    fn encode_into(&self, out: &mut Vec<u8>) -> (r: Result<(), CodecError>) {
        self.naive.encode_into(out)
    }
}

impl Decode for UtcDate {
    open spec fn decode_error(input: Seq<u8>) -> CodecError {
        <NaiveDate>::decode_error(input)
    }

    fn decode_with_len_from(reader: &mut ByteReader) -> (r: Result<(Self, usize), CodecError>) {
        match <NaiveDate>::decode_with_len_from(reader) {
            Ok((x, n)) => Ok((UtcDate { naive: x }, n)),
            Err(e) => {
                proof {
                    assert forall|v: UtcDate, rest: Seq<u8>| #[trigger] v.encodable() && old(reader)@
                        == #[trigger] (v.wire() + rest) implies false by {
                        assert(v.naive.encodable());
                    }
                }
                Err(e)
            },
        }
    }

    fn never_empty() -> (r: bool) {
        let r = <NaiveDate>::never_empty();
        proof {
            if r {
                assert forall|v: Self| #[trigger] v.encodable() implies v.wire().len() >= 1 by {
                    assert(v.naive.encodable());
                }
            } else {
                let x = choose|x: NaiveDate| #[trigger] x.encodable() && !(x.wire().len() >= 1);
                let w = UtcDate { naive: x };
                assert(w.encodable() && !(w.wire().len() >= 1));
            }
        }
        r
    }

    proof fn lemma_truncated(v: Self, k: nat) {
        <NaiveDate>::lemma_truncated(v.naive, k);
    }

    proof fn lemma_prefix_unique(a: Self, b: Self, ra: Seq<u8>, rb: Seq<u8>) {
        <NaiveDate>::lemma_prefix_unique(a.naive, b.naive, ra, rb);
    }
}

impl DeepView for UtcDateTime {
    type V = <NaiveDateTime as DeepView>::V;

    open spec fn deep_view(&self) -> Self::V {
        self.naive.deep_view()
    }
}

/// Exactly the bytes of its one field.
impl Encode for UtcDateTime {
    open spec fn encodable(&self) -> bool {
        self.naive.encodable()
    }

    open spec fn wire(&self) -> Seq<u8> {
        self.naive.wire()
    }

    open spec fn fast_exact(&self) -> bool {
        self.naive.fast_exact()
    }

    open spec fn fast_len(&self) -> nat {
        self.naive.fast_len()
    }

    fn fast_size(&self) -> (r: usize) {
        self.naive.fast_size()
    }

    fn size(&self) -> (r: Result<usize, CodecError>) {
        self.naive.size()
    }

    fn encode_into(&self, out: &mut Vec<u8>) -> (r: Result<(), CodecError>) {
        self.naive.encode_into(out)
    }
}

impl Decode for UtcDateTime {
    open spec fn decode_error(input: Seq<u8>) -> CodecError {
        <NaiveDateTime>::decode_error(input)
    }

    fn decode_with_len_from(reader: &mut ByteReader) -> (r: Result<(Self, usize), CodecError>) {
        match <NaiveDateTime>::decode_with_len_from(reader) {
            Ok((x, n)) => Ok((UtcDateTime { naive: x }, n)),
            Err(e) => {
                proof {
                    assert forall|v: UtcDateTime, rest: Seq<u8>| #[trigger] v.encodable() && old(reader)@
                        == #[trigger] (v.wire() + rest) implies false by {
                        assert(v.naive.encodable());
                    }
                }
                Err(e)
            },
        }
    }

    fn never_empty() -> (r: bool) {
        let r = <NaiveDateTime>::never_empty();
        proof {
            if r {
                assert forall|v: Self| #[trigger] v.encodable() implies v.wire().len() >= 1 by {
                    assert(v.naive.encodable());
                }
            } else {
                let x = choose|x: NaiveDateTime| #[trigger] x.encodable() && !(x.wire().len() >= 1);
                let w = UtcDateTime { naive: x };
                assert(w.encodable() && !(w.wire().len() >= 1));
            }
        }
        r
    }

    proof fn lemma_truncated(v: Self, k: nat) {
        <NaiveDateTime>::lemma_truncated(v.naive, k);
    }

    proof fn lemma_prefix_unique(a: Self, b: Self, ra: Seq<u8>, rb: Seq<u8>) {
        <NaiveDateTime>::lemma_prefix_unique(a.naive, b.naive, ra, rb);
    }
}

} // verus!
