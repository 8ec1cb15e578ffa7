//! The well-known timestamp message.
use vstd::prelude::*;
use crate::wire::{
    bits_to_i32, bits_to_i64, decode_fields, fields_ok, fields_wire, get_varint, i32_bits,
    i32_to_bits, i64_bits, i64_to_bits, lemma_fields_ok, lemma_fields_wire_concat,
    lemma_int_bits, lemma_select_concat, lemma_select_uniform, lemma_tags_concat, lemma_values,
    models, put_varint_scalar, select, tags_ok, uniform, varint_values, DecodeError, Field,
    FieldModel, Value,
};

verus! {

/// A point in time: whole seconds since the Unix epoch and a count of nanoseconds within the second.
#[derive(Clone, Copy, Debug, PartialEq, Eq, Default)]
pub struct Timestamp {
    /// Seconds since 1970-01-01T00:00:00Z.
    pub seconds: i64,
    /// Nanoseconds within the second.
    pub nanos: i32,
}

/// The mathematical value of a [`Timestamp`].
pub struct TimestampModel {
    pub seconds: i64,
    pub nanos: i32,
}

impl View for Timestamp {
    type V = TimestampModel;

    open spec fn view(&self) -> TimestampModel {
        TimestampModel {
            seconds: self.seconds,
            nanos: self.nanos,
        }
    }
}

impl Timestamp {
    /// The values of the fields numbered `tag` in the encoding of `m`.
    pub open spec fn values(m: TimestampModel, tag: u32) -> Seq<Value> {
        if tag == 1 {
            varint_values(i64_bits(m.seconds))
        } else if tag == 2 {
            varint_values(i32_bits(m.nanos))
        } else {
            seq![]
        }
    }

    /// The fields of the encoding of `m`, in order of their numbers; a scalar
    /// that holds its default value is left out.
    pub open spec fn wire_fields(m: TimestampModel) -> Seq<FieldModel> {
        uniform(1, Self::values(m, 1)) + uniform(2, Self::values(m, 2))
    }

    /// The encoding of `m`.
    pub open spec fn wire(m: TimestampModel) -> Seq<u8> {
        fields_wire(Self::wire_fields(m))
    }

    proof fn lemma_select(m: TimestampModel, t: u32)
        ensures
            select(Self::wire_fields(m), t) == Self::values(m, t),
            tags_ok(Self::wire_fields(m)),
    {
        let s0 = uniform(1, Self::values(m, 1));
        lemma_select_uniform(1, Self::values(m, 1), t);
        assert(tags_ok(s0));
        let s1 = uniform(2, Self::values(m, 2));
        lemma_select_uniform(2, Self::values(m, 2), t);
        assert(tags_ok(s1));
        lemma_select_concat(s0, s1, t);
        lemma_tags_concat(s0, s1);
        assert(select(Self::wire_fields(m), t) =~= Self::values(m, t));
    }

    /// The protobuf encoding of the message.
    pub fn encode(&self) -> (r: Vec<u8>)
        ensures
            r@ == Self::wire(self@),
    {
        let mut buf: Vec<u8> = Vec::new();
        let ghost before1 = buf@;
        put_varint_scalar(&mut buf, 1, i64_to_bits(self.seconds));
        assert(buf@ =~= before1 + fields_wire(uniform(1, Self::values(self@, 1))));
        let ghost before2 = buf@;
        put_varint_scalar(&mut buf, 2, i32_to_bits(self.nanos));
        assert(buf@ =~= before2 + fields_wire(uniform(2, Self::values(self@, 2))));
        proof {
            let s0 = uniform(1, Self::values(self@, 1));
            let s1 = uniform(2, Self::values(self@, 2));
            lemma_fields_wire_concat(s0, s1);
        }
        assert(buf@ =~= Self::wire(self@));
        buf
    }

    fn from_fields(fs: &Vec<Field>) -> (r: Option<Self>)
        ensures
            forall|m: TimestampModel|
                #[trigger] Self::wire_fields(m) == models(fs@) ==> (r matches Some(d) && d@ == m),
    {
        let raw_seconds = get_varint(fs, 1);
        let raw_nanos = get_varint(fs, 2);
        proof {
            assert forall|m: TimestampModel| #[trigger] Self::wire_fields(m) == models(fs@) implies {
                &&& (raw_seconds == Some(i64_bits(m.seconds)))
                &&& (raw_nanos == Some(i32_bits(m.nanos)))
            } by {
                Self::lemma_select(m, 1);
                Self::lemma_select(m, 2);
                lemma_values(i64_bits(m.seconds), seq![], None, seq![]);
                lemma_values(i32_bits(m.nanos), seq![], None, seq![]);
            }
        }
        let seconds = match raw_seconds {
            Some(v) => bits_to_i64(v),
            None => return None,
        };
        let nanos = match raw_nanos {
            Some(v) => bits_to_i32(v),
            None => return None,
        };
        let d = Timestamp { seconds, nanos };
        proof {
            assert forall|m: TimestampModel| #[trigger] Self::wire_fields(m) == models(fs@) implies d@ == m by {
                lemma_int_bits(0, m.seconds);
                lemma_int_bits(m.nanos, 0);
            }
        }
        Some(d)
    }

    /// Reads a message from its protobuf encoding. Unknown fields are
    /// skipped; bytes that are not a well-formed encoding fail. The encoding
    /// of any message reads back as that message.
    pub fn decode(bytes: &[u8]) -> (r: Result<Self, DecodeError>)
        ensures
            forall|m: TimestampModel| #[trigger] Self::wire(m) == bytes@ ==> (r matches Ok(d) && d@ == m),
    {
        proof {
            assert(bytes@.len() == bytes.len());
            assert forall|m: TimestampModel| #[trigger] Self::wire(m) == bytes@ implies fields_ok(
                Self::wire_fields(m),
            ) by {
                Self::lemma_select(m, 0);
                lemma_fields_ok(Self::wire_fields(m));
            }
        }
        let fs = match decode_fields(bytes) {
            Some(fs) => fs,
            None => return Err(DecodeError),
        };
        match Self::from_fields(&fs) {
            Some(d) => Ok(d),
            None => Err(DecodeError),
        }
    }

}

} // verus!
