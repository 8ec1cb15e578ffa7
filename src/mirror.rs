//! The state of a mirror, as reported to the control plane.
use vstd::prelude::*;
use crate::wire::{
    all_bytes, avoids, bits_to_i32, bits_to_i64, bytes_values, decode_fields, fields_ok,
    fields_wire, get_bytes, get_joined, get_oneof, get_runs, get_varint, i32_bits, i32_to_bits,
    i64_bits, i64_to_bits, last_bytes, lemma_fields_ok, lemma_fields_wire_concat,
    lemma_int_bits, lemma_no_values, lemma_oneof_avoids, lemma_repeated_push,
    lemma_select_concat, lemma_select_uniform, lemma_tags_concat, lemma_values, message_values,
    models, oneof_value, put_bytes_scalar, put_message, put_varint_scalar, repeated_values,
    select, tags_ok, uniform, varint_values, DecodeError, Field, FieldModel, Value,
};
use crate::text::utf8_to_string;
use crate::opaque::{FlowConnectionConfigs, QRepConfig};
use crate::timestamp::{Timestamp, TimestampModel};
use crate::mirror_status_response::{Status, StatusModel};

verus! {

/// The progress of one partition of a query-replication mirror.
#[derive(Clone, Debug, PartialEq, Default)]
pub struct PartitionStatus {
    /// The id of the partition.
    pub partition_id: String,
    /// When copying the partition began, if it did.
    pub start_time: Option<Timestamp>,
    /// When copying the partition ended, if it did.
    pub end_time: Option<Timestamp>,
    /// How many rows were copied.
    pub num_rows: i32,
}

/// The mathematical value of a [`PartitionStatus`].
pub struct PartitionStatusModel {
    pub partition_id: Seq<char>,
    pub start_time: Option<TimestampModel>,
    pub end_time: Option<TimestampModel>,
    pub num_rows: i32,
}

impl View for PartitionStatus {
    type V = PartitionStatusModel;

    open spec fn view(&self) -> PartitionStatusModel {
        PartitionStatusModel {
            partition_id: self.partition_id@,
            start_time: match self.start_time {
                Some(x) => Some(x@),
                None => None,
            },
            end_time: match self.end_time {
                Some(x) => Some(x@),
                None => None,
            },
            num_rows: self.num_rows,
        }
    }
}

impl PartitionStatus {
    /// The values of the fields numbered `tag` in the encoding of `m`.
    pub open spec fn values(m: PartitionStatusModel, tag: u32) -> Seq<Value> {
        if tag == 1 {
            bytes_values(vstd::utf8::encode_utf8(m.partition_id))
        } else if tag == 2 {
            message_values(
                match m.start_time {
                    Some(x) => Some(Timestamp::wire(x)),
                    None => None,
                },
            )
        } else if tag == 3 {
            message_values(
                match m.end_time {
                    Some(x) => Some(Timestamp::wire(x)),
                    None => None,
                },
            )
        } else if tag == 4 {
            varint_values(i32_bits(m.num_rows))
        } else {
            seq![]
        }
    }

    /// The fields of the encoding of `m`, in order of their numbers; a scalar
    /// that holds its default value is left out.
    pub open spec fn wire_fields(m: PartitionStatusModel) -> Seq<FieldModel> {
        uniform(1, Self::values(m, 1)) + uniform(2, Self::values(m, 2)) + uniform(3, Self::values(m, 3)) + uniform(4, Self::values(m, 4))
    }

    /// The encoding of `m`.
    pub open spec fn wire(m: PartitionStatusModel) -> Seq<u8> {
        fields_wire(Self::wire_fields(m))
    }

    proof fn lemma_select(m: PartitionStatusModel, t: u32)
        ensures
            select(Self::wire_fields(m), t) == Self::values(m, t),
            tags_ok(Self::wire_fields(m)),
    {
        let s0 = uniform(1, Self::values(m, 1));
        lemma_select_uniform(1, Self::values(m, 1), t);
        assert(tags_ok(s0));
        let s1 = uniform(2, Self::values(m, 2));
        lemma_select_uniform(2, Self::values(m, 2), t);
        assert(tags_ok(s1));
        let s2 = uniform(3, Self::values(m, 3));
        lemma_select_uniform(3, Self::values(m, 3), t);
        assert(tags_ok(s2));
        let s3 = uniform(4, Self::values(m, 4));
        lemma_select_uniform(4, Self::values(m, 4), t);
        assert(tags_ok(s3));
        lemma_select_concat(s0, s1, t);
        lemma_tags_concat(s0, s1);
        lemma_select_concat(s0 + s1, s2, t);
        lemma_tags_concat(s0 + s1, s2);
        lemma_select_concat((s0 + s1) + s2, s3, t);
        lemma_tags_concat((s0 + s1) + s2, s3);
        assert(select(Self::wire_fields(m), t) =~= Self::values(m, t));
    }

    /// The protobuf encoding of the message.
    pub fn encode(&self) -> (r: Vec<u8>)
        ensures
            r@ == Self::wire(self@),
    {
        let mut buf: Vec<u8> = Vec::new();
        let ghost before1 = buf@;
        put_bytes_scalar(&mut buf, 1, self.partition_id.as_str().as_bytes());
        assert(buf@ =~= before1 + fields_wire(uniform(1, Self::values(self@, 1))));
        let ghost before2 = buf@;
        match &self.start_time {
            Some(x) => {
                let b = x.encode();
                put_message(&mut buf, 2, b.as_slice());
            },
            None => {
                proof {
                    lemma_no_values(2);
                }
                assert(buf@ =~= before2 + fields_wire(uniform(2, Self::values(self@, 2))));
            },
        }
        assert(buf@ =~= before2 + fields_wire(uniform(2, Self::values(self@, 2))));
        let ghost before3 = buf@;
        match &self.end_time {
            Some(x) => {
                let b = x.encode();
                put_message(&mut buf, 3, b.as_slice());
            },
            None => {
                proof {
                    lemma_no_values(3);
                }
                assert(buf@ =~= before3 + fields_wire(uniform(3, Self::values(self@, 3))));
            },
        }
        assert(buf@ =~= before3 + fields_wire(uniform(3, Self::values(self@, 3))));
        let ghost before4 = buf@;
        put_varint_scalar(&mut buf, 4, i32_to_bits(self.num_rows));
        assert(buf@ =~= before4 + fields_wire(uniform(4, Self::values(self@, 4))));
        proof {
            let s0 = uniform(1, Self::values(self@, 1));
            let s1 = uniform(2, Self::values(self@, 2));
            let s2 = uniform(3, Self::values(self@, 3));
            let s3 = uniform(4, Self::values(self@, 4));
            lemma_fields_wire_concat(s0, s1);
            lemma_fields_wire_concat(s0 + s1, s2);
            lemma_fields_wire_concat((s0 + s1) + s2, s3);
        }
        assert(buf@ =~= Self::wire(self@));
        buf
    }

    fn from_fields(fs: &Vec<Field>) -> (r: Option<Self>)
        ensures
            forall|m: PartitionStatusModel|
                #[trigger] Self::wire_fields(m) == models(fs@) ==> (r matches Some(d) && d@ == m),
    {
        let raw_partition_id = get_bytes(fs, 1);
        let raw_start_time = get_joined(fs, 2);
        let raw_end_time = get_joined(fs, 3);
        let raw_num_rows = get_varint(fs, 4);
        proof {
            assert forall|m: PartitionStatusModel| #[trigger] Self::wire_fields(m) == models(fs@) implies {
                &&& (raw_partition_id matches Some(b) && b@ == vstd::utf8::encode_utf8(m.partition_id))
                &&& (raw_start_time matches Some(o) && (o is Some <==> m.start_time is Some) && (m.start_time matches Some(x) ==> o matches Some(b) && b@ == Timestamp::wire(x)))
                &&& (raw_end_time matches Some(o) && (o is Some <==> m.end_time is Some) && (m.end_time matches Some(x) ==> o matches Some(b) && b@ == Timestamp::wire(x)))
                &&& (raw_num_rows == Some(i32_bits(m.num_rows)))
            } by {
                Self::lemma_select(m, 1);
                Self::lemma_select(m, 2);
                Self::lemma_select(m, 3);
                Self::lemma_select(m, 4);
                lemma_values(0, vstd::utf8::encode_utf8(m.partition_id), None, seq![]);
                lemma_values(0, seq![], match m.start_time {
                    Some(x) => Some(Timestamp::wire(x)),
                    None => None,
                }, seq![]);
                lemma_values(0, seq![], match m.end_time {
                    Some(x) => Some(Timestamp::wire(x)),
                    None => None,
                }, seq![]);
                lemma_values(i32_bits(m.num_rows), seq![], None, seq![]);
            }
        }
        let partition_id = match raw_partition_id {
            Some(b) => match utf8_to_string(b) {
                Some(s) => s,
                None => return None,
            },
            None => return None,
        };
        let start_time = match raw_start_time {
            Some(Some(b)) => match Timestamp::decode(b.as_slice()) {
                Ok(x) => Some(x),
                Err(_) => return None,
            },
            Some(None) => None,
            None => return None,
        };
        let end_time = match raw_end_time {
            Some(Some(b)) => match Timestamp::decode(b.as_slice()) {
                Ok(x) => Some(x),
                Err(_) => return None,
            },
            Some(None) => None,
            None => return None,
        };
        let num_rows = match raw_num_rows {
            Some(v) => bits_to_i32(v),
            None => return None,
        };
        let d = PartitionStatus { partition_id, start_time, end_time, num_rows };
        proof {
            assert forall|m: PartitionStatusModel| #[trigger] Self::wire_fields(m) == models(fs@) implies d@ == m by {
                lemma_int_bits(m.num_rows, 0);
            }
        }
        Some(d)
    }

    /// Reads a message from its protobuf encoding. Unknown fields are
    /// skipped; bytes that are not a well-formed encoding fail. The encoding
    /// of any message reads back as that message.
    pub fn decode(bytes: &[u8]) -> (r: Result<Self, DecodeError>)
        ensures
            forall|m: PartitionStatusModel| #[trigger] Self::wire(m) == bytes@ ==> (r matches Ok(d) && d@ == m),
    {
        proof {
            assert(bytes@.len() == bytes.len());
            assert forall|m: PartitionStatusModel| #[trigger] Self::wire(m) == bytes@ implies fields_ok(
                Self::wire_fields(m),
            ) by {
                Self::lemma_select(m, 0);
                lemma_fields_ok(Self::wire_fields(m));
            }
        }
        let fs = match decode_fields(bytes) {
            Some(fs) => fs,
            None => return Err(DecodeError),
        };
        match Self::from_fields(&fs) {
            Some(d) => Ok(d),
            None => Err(DecodeError),
        }
    }

}

impl PartitionStatus {
    /// Whether each run of bytes is the encoding of the message at its index.
    pub open spec fn runs_match(ms: Seq<PartitionStatusModel>, runs: Seq<Vec<u8>>) -> bool {
        &&& ms.len() == runs.len()
        &&& forall|j: int| 0 <= j < ms.len() ==> Self::wire(#[trigger] ms[j]) == runs[j]@
    }

    /// Reads one message from each run of bytes.
    pub fn decode_each(runs: &Vec<Vec<u8>>) -> (r: Option<Vec<Self>>)
        ensures
            forall|ms: Seq<PartitionStatusModel>|
                #[trigger] Self::runs_match(ms, runs@) ==> (r matches Some(v) && v@.map_values(
                    |x: Self| x@,
                ) == ms),
    {
        let mut out: Vec<Self> = Vec::new();
        let mut i: usize = 0;
        while i < runs.len()
            invariant
                i <= runs@.len(),
                out@.len() == i,
                forall|ms: Seq<PartitionStatusModel>|
                    #[trigger] Self::runs_match(ms, runs@) ==> (forall|j: int|
                        0 <= j < i ==> out@[j]@ == ms[j]),
            decreases runs@.len() - i,
        {
            match Self::decode(runs[i].as_slice()) {
                Ok(d) => {
                    proof {
                        assert forall|ms: Seq<PartitionStatusModel>| #[trigger]
                            Self::runs_match(ms, runs@) implies d@ == ms[i as int] by {
                            assert(Self::wire(ms[i as int]) == runs@[i as int]@);
                        }
                    }
                    out.push(d);
                },
                Err(_) => {
                    proof {
                        assert forall|ms: Seq<PartitionStatusModel>| #[trigger]
                            Self::runs_match(ms, runs@) implies false by {
                            assert(Self::wire(ms[i as int]) == runs@[i as int]@);
                        }
                    }
                    return None;
                },
            }
            i = i + 1;
        }
        proof {
            assert forall|ms: Seq<PartitionStatusModel>| #[trigger] Self::runs_match(ms, runs@) implies out@.map_values(
                |x: Self| x@,
            ) == ms by {
                assert(out@.map_values(|x: Self| x@) =~= ms);
            }
        }
        Some(out)
    }
}

/// The state of a query-replication mirror.
#[derive(Clone, Debug, PartialEq, Default)]
pub struct QRepMirrorStatus {
    /// The configuration of the mirror, if given.
    pub config: Option<QRepConfig>,
    /// The partitions, in order.
    pub partitions: Vec<PartitionStatus>,
}

/// The mathematical value of a [`QRepMirrorStatus`].
pub struct QRepMirrorStatusModel {
    pub config: Option<Seq<u8>>,
    pub partitions: Seq<PartitionStatusModel>,
}

impl View for QRepMirrorStatus {
    type V = QRepMirrorStatusModel;

    open spec fn view(&self) -> QRepMirrorStatusModel {
        QRepMirrorStatusModel {
            config: match self.config {
                Some(x) => Some(x@),
                None => None,
            },
            partitions: self.partitions@.map_values(|x: PartitionStatus| x@),
        }
    }
}

impl QRepMirrorStatus {
    /// The values of the fields numbered `tag` in the encoding of `m`.
    pub open spec fn values(m: QRepMirrorStatusModel, tag: u32) -> Seq<Value> {
        if tag == 1 {
            message_values(
                match m.config {
                    Some(x) => Some(QRepConfig::wire(x)),
                    None => None,
                },
            )
        } else if tag == 2 {
            repeated_values(Seq::new(m.partitions.len(), |i: int| PartitionStatus::wire(m.partitions[i])))
        } else {
            seq![]
        }
    }

    /// The fields of the encoding of `m`, in order of their numbers; a scalar
    /// that holds its default value is left out.
    pub open spec fn wire_fields(m: QRepMirrorStatusModel) -> Seq<FieldModel> {
        uniform(1, Self::values(m, 1)) + uniform(2, Self::values(m, 2))
    }

    /// The encoding of `m`.
    pub open spec fn wire(m: QRepMirrorStatusModel) -> Seq<u8> {
        fields_wire(Self::wire_fields(m))
    }

    proof fn lemma_select(m: QRepMirrorStatusModel, t: u32)
        ensures
            select(Self::wire_fields(m), t) == Self::values(m, t),
            tags_ok(Self::wire_fields(m)),
    {
        let s0 = uniform(1, Self::values(m, 1));
        lemma_select_uniform(1, Self::values(m, 1), t);
        assert(tags_ok(s0));
        let s1 = uniform(2, Self::values(m, 2));
        lemma_select_uniform(2, Self::values(m, 2), t);
        assert(tags_ok(s1));
        lemma_select_concat(s0, s1, t);
        lemma_tags_concat(s0, s1);
        assert(select(Self::wire_fields(m), t) =~= Self::values(m, t));
    }

    /// The protobuf encoding of the message.
    pub fn encode(&self) -> (r: Vec<u8>)
        ensures
            r@ == Self::wire(self@),
    {
        let mut buf: Vec<u8> = Vec::new();
        let ghost before1 = buf@;
        match &self.config {
            Some(x) => {
                let b = x.encode();
                put_message(&mut buf, 1, b.as_slice());
            },
            None => {
                proof {
                    lemma_no_values(1);
                }
                assert(buf@ =~= before1 + fields_wire(uniform(1, Self::values(self@, 1))));
            },
        }
        assert(buf@ =~= before1 + fields_wire(uniform(1, Self::values(self@, 1))));
        let ghost before2 = buf@;
        let mut i: usize = 0;
        proof {
            lemma_no_values(2);
            assert(Seq::new(0, |j: int| PartitionStatus::wire(self.partitions@[j]@)) =~= Seq::<Seq<u8>>::empty());
        }
        while i < self.partitions.len()
            invariant
                i <= self.partitions@.len(),
                buf@ == before2 + fields_wire(
                    uniform(2, repeated_values(Seq::new(i as nat, |j: int| PartitionStatus::wire(self.partitions@[j]@)))),
                ),
            decreases self.partitions@.len() - i,
        {
            let b = self.partitions[i].encode();
            proof {
                let ws = Seq::new(i as nat, |j: int| PartitionStatus::wire(self.partitions@[j]@));
                lemma_repeated_push(2, ws, b@);
                assert(ws.push(b@) =~= Seq::new((i + 1) as nat, |j: int| PartitionStatus::wire(self.partitions@[j]@)));
            }
            put_message(&mut buf, 2, b.as_slice());
            i = i + 1;
        }
        assert(Seq::new(i as nat, |j: int| PartitionStatus::wire(self.partitions@[j]@)) =~= Seq::new(
            self@.partitions.len(),
            |j: int| PartitionStatus::wire(self@.partitions[j]),
        ));
        assert(buf@ =~= before2 + fields_wire(uniform(2, Self::values(self@, 2))));
        proof {
            let s0 = uniform(1, Self::values(self@, 1));
            let s1 = uniform(2, Self::values(self@, 2));
            lemma_fields_wire_concat(s0, s1);
        }
        assert(buf@ =~= Self::wire(self@));
        buf
    }

    fn from_fields(fs: &Vec<Field>) -> (r: Option<Self>)
        ensures
            forall|m: QRepMirrorStatusModel|
                #[trigger] Self::wire_fields(m) == models(fs@) ==> (r matches Some(d) && d@ == m),
    {
        let raw_config = get_joined(fs, 1);
        let raw_partitions = get_runs(fs, 2);
        proof {
            assert forall|m: QRepMirrorStatusModel| #[trigger] Self::wire_fields(m) == models(fs@) implies {
                &&& (raw_config matches Some(o) && (o is Some <==> m.config is Some) && (m.config matches Some(x) ==> o matches Some(b) && b@ == QRepConfig::wire(x)))
                &&& (raw_partitions matches Some(rs) && PartitionStatus::runs_match(m.partitions, rs@))
            } by {
                Self::lemma_select(m, 1);
                Self::lemma_select(m, 2);
                lemma_values(0, seq![], match m.config {
                    Some(x) => Some(QRepConfig::wire(x)),
                    None => None,
                }, seq![]);
                lemma_values(0, seq![], None, Seq::new(m.partitions.len(), |i: int| PartitionStatus::wire(m.partitions[i])));
            }
        }
        let config = match raw_config {
            Some(Some(b)) => match QRepConfig::decode(b.as_slice()) {
                Ok(x) => Some(x),
                Err(_) => return None,
            },
            Some(None) => None,
            None => return None,
        };
        let partitions = match raw_partitions {
            Some(rs) => match PartitionStatus::decode_each(&rs) {
                Some(v) => v,
                None => return None,
            },
            None => return None,
        };
        let d = QRepMirrorStatus { config, partitions };
        proof {
            assert forall|m: QRepMirrorStatusModel| #[trigger] Self::wire_fields(m) == models(fs@) implies d@ == m by {
                assert(d@.partitions =~= m.partitions);
            }
        }
        Some(d)
    }

    /// Reads a message from its protobuf encoding. Unknown fields are
    /// skipped; bytes that are not a well-formed encoding fail. The encoding
    /// of any message reads back as that message.
    pub fn decode(bytes: &[u8]) -> (r: Result<Self, DecodeError>)
        ensures
            forall|m: QRepMirrorStatusModel| #[trigger] Self::wire(m) == bytes@ ==> (r matches Ok(d) && d@ == m),
    {
        proof {
            assert(bytes@.len() == bytes.len());
            assert forall|m: QRepMirrorStatusModel| #[trigger] Self::wire(m) == bytes@ implies fields_ok(
                Self::wire_fields(m),
            ) by {
                Self::lemma_select(m, 0);
                lemma_fields_ok(Self::wire_fields(m));
            }
        }
        let fs = match decode_fields(bytes) {
            Some(fs) => fs,
            None => return Err(DecodeError),
        };
        match Self::from_fields(&fs) {
            Some(d) => Ok(d),
            None => Err(DecodeError),
        }
    }

}

impl QRepMirrorStatus {
    /// Whether each run of bytes is the encoding of the message at its index.
    pub open spec fn runs_match(ms: Seq<QRepMirrorStatusModel>, runs: Seq<Vec<u8>>) -> bool {
        &&& ms.len() == runs.len()
        &&& forall|j: int| 0 <= j < ms.len() ==> Self::wire(#[trigger] ms[j]) == runs[j]@
    }

    /// Reads one message from each run of bytes.
    pub fn decode_each(runs: &Vec<Vec<u8>>) -> (r: Option<Vec<Self>>)
        ensures
            forall|ms: Seq<QRepMirrorStatusModel>|
                #[trigger] Self::runs_match(ms, runs@) ==> (r matches Some(v) && v@.map_values(
                    |x: Self| x@,
                ) == ms),
    {
        let mut out: Vec<Self> = Vec::new();
        let mut i: usize = 0;
        while i < runs.len()
            invariant
                i <= runs@.len(),
                out@.len() == i,
                forall|ms: Seq<QRepMirrorStatusModel>|
                    #[trigger] Self::runs_match(ms, runs@) ==> (forall|j: int|
                        0 <= j < i ==> out@[j]@ == ms[j]),
            decreases runs@.len() - i,
        {
            match Self::decode(runs[i].as_slice()) {
                Ok(d) => {
                    proof {
                        assert forall|ms: Seq<QRepMirrorStatusModel>| #[trigger]
                            Self::runs_match(ms, runs@) implies d@ == ms[i as int] by {
                            assert(Self::wire(ms[i as int]) == runs@[i as int]@);
                        }
                    }
                    out.push(d);
                },
                Err(_) => {
                    proof {
                        assert forall|ms: Seq<QRepMirrorStatusModel>| #[trigger]
                            Self::runs_match(ms, runs@) implies false by {
                            assert(Self::wire(ms[i as int]) == runs@[i as int]@);
                        }
                    }
                    return None;
                },
            }
            i = i + 1;
        }
        proof {
            assert forall|ms: Seq<QRepMirrorStatusModel>| #[trigger] Self::runs_match(ms, runs@) implies out@.map_values(
                |x: Self| x@,
            ) == ms by {
                assert(out@.map_values(|x: Self| x@) =~= ms);
            }
        }
        Some(out)
    }
}

/// One batch of a change-data-capture sync.
#[derive(Clone, Debug, PartialEq, Default)]
pub struct CdcSyncStatus {
    /// The log sequence number the batch starts at.
    pub start_lsn: i64,
    /// The log sequence number the batch ends at.
    pub end_lsn: i64,
    /// How many rows the batch carried.
    pub num_rows: i32,
    /// When the batch began, if it did.
    pub start_time: Option<Timestamp>,
    /// When the batch ended, if it did.
    pub end_time: Option<Timestamp>,
}

/// The mathematical value of a [`CdcSyncStatus`].
pub struct CdcSyncStatusModel {
    pub start_lsn: i64,
    pub end_lsn: i64,
    pub num_rows: i32,
    pub start_time: Option<TimestampModel>,
    pub end_time: Option<TimestampModel>,
}

impl View for CdcSyncStatus {
    type V = CdcSyncStatusModel;

    open spec fn view(&self) -> CdcSyncStatusModel {
        CdcSyncStatusModel {
            start_lsn: self.start_lsn,
            end_lsn: self.end_lsn,
            num_rows: self.num_rows,
            start_time: match self.start_time {
                Some(x) => Some(x@),
                None => None,
            },
            end_time: match self.end_time {
                Some(x) => Some(x@),
                None => None,
            },
        }
    }
}

impl CdcSyncStatus {
    /// The values of the fields numbered `tag` in the encoding of `m`.
    pub open spec fn values(m: CdcSyncStatusModel, tag: u32) -> Seq<Value> {
        if tag == 1 {
            varint_values(i64_bits(m.start_lsn))
        } else if tag == 2 {
            varint_values(i64_bits(m.end_lsn))
        } else if tag == 3 {
            varint_values(i32_bits(m.num_rows))
        } else if tag == 4 {
            message_values(
                match m.start_time {
                    Some(x) => Some(Timestamp::wire(x)),
                    None => None,
                },
            )
        } else if tag == 5 {
            message_values(
                match m.end_time {
                    Some(x) => Some(Timestamp::wire(x)),
                    None => None,
                },
            )
        } else {
            seq![]
        }
    }

    /// The fields of the encoding of `m`, in order of their numbers; a scalar
    /// that holds its default value is left out.
    pub open spec fn wire_fields(m: CdcSyncStatusModel) -> Seq<FieldModel> {
        uniform(1, Self::values(m, 1)) + uniform(2, Self::values(m, 2)) + uniform(3, Self::values(m, 3)) + uniform(4, Self::values(m, 4)) + uniform(5, Self::values(m, 5))
    }

    /// The encoding of `m`.
    pub open spec fn wire(m: CdcSyncStatusModel) -> Seq<u8> {
        fields_wire(Self::wire_fields(m))
    }

    proof fn lemma_select(m: CdcSyncStatusModel, t: u32)
        ensures
            select(Self::wire_fields(m), t) == Self::values(m, t),
            tags_ok(Self::wire_fields(m)),
    {
        let s0 = uniform(1, Self::values(m, 1));
        lemma_select_uniform(1, Self::values(m, 1), t);
        assert(tags_ok(s0));
        let s1 = uniform(2, Self::values(m, 2));
        lemma_select_uniform(2, Self::values(m, 2), t);
        assert(tags_ok(s1));
        let s2 = uniform(3, Self::values(m, 3));
        lemma_select_uniform(3, Self::values(m, 3), t);
        assert(tags_ok(s2));
        let s3 = uniform(4, Self::values(m, 4));
        lemma_select_uniform(4, Self::values(m, 4), t);
        assert(tags_ok(s3));
        let s4 = uniform(5, Self::values(m, 5));
        lemma_select_uniform(5, Self::values(m, 5), t);
        assert(tags_ok(s4));
        lemma_select_concat(s0, s1, t);
        lemma_tags_concat(s0, s1);
        lemma_select_concat(s0 + s1, s2, t);
        lemma_tags_concat(s0 + s1, s2);
        lemma_select_concat((s0 + s1) + s2, s3, t);
        lemma_tags_concat((s0 + s1) + s2, s3);
        lemma_select_concat(((s0 + s1) + s2) + s3, s4, t);
        lemma_tags_concat(((s0 + s1) + s2) + s3, s4);
        assert(select(Self::wire_fields(m), t) =~= Self::values(m, t));
    }

    /// The protobuf encoding of the message.
    pub fn encode(&self) -> (r: Vec<u8>)
        ensures
            r@ == Self::wire(self@),
    {
        let mut buf: Vec<u8> = Vec::new();
        let ghost before1 = buf@;
        put_varint_scalar(&mut buf, 1, i64_to_bits(self.start_lsn));
        assert(buf@ =~= before1 + fields_wire(uniform(1, Self::values(self@, 1))));
        let ghost before2 = buf@;
        put_varint_scalar(&mut buf, 2, i64_to_bits(self.end_lsn));
        assert(buf@ =~= before2 + fields_wire(uniform(2, Self::values(self@, 2))));
        let ghost before3 = buf@;
        put_varint_scalar(&mut buf, 3, i32_to_bits(self.num_rows));
        assert(buf@ =~= before3 + fields_wire(uniform(3, Self::values(self@, 3))));
        let ghost before4 = buf@;
        match &self.start_time {
            Some(x) => {
                let b = x.encode();
                put_message(&mut buf, 4, b.as_slice());
            },
            None => {
                proof {
                    lemma_no_values(4);
                }
                assert(buf@ =~= before4 + fields_wire(uniform(4, Self::values(self@, 4))));
            },
        }
        assert(buf@ =~= before4 + fields_wire(uniform(4, Self::values(self@, 4))));
        let ghost before5 = buf@;
        match &self.end_time {
            Some(x) => {
                let b = x.encode();
                put_message(&mut buf, 5, b.as_slice());
            },
            None => {
                proof {
                    lemma_no_values(5);
                }
                assert(buf@ =~= before5 + fields_wire(uniform(5, Self::values(self@, 5))));
            },
        }
        assert(buf@ =~= before5 + fields_wire(uniform(5, Self::values(self@, 5))));
        proof {
            let s0 = uniform(1, Self::values(self@, 1));
            let s1 = uniform(2, Self::values(self@, 2));
            let s2 = uniform(3, Self::values(self@, 3));
            let s3 = uniform(4, Self::values(self@, 4));
            let s4 = uniform(5, Self::values(self@, 5));
            lemma_fields_wire_concat(s0, s1);
            lemma_fields_wire_concat(s0 + s1, s2);
            lemma_fields_wire_concat((s0 + s1) + s2, s3);
            lemma_fields_wire_concat(((s0 + s1) + s2) + s3, s4);
        }
        assert(buf@ =~= Self::wire(self@));
        buf
    }

    fn from_fields(fs: &Vec<Field>) -> (r: Option<Self>)
        ensures
            forall|m: CdcSyncStatusModel|
                #[trigger] Self::wire_fields(m) == models(fs@) ==> (r matches Some(d) && d@ == m),
    {
        let raw_start_lsn = get_varint(fs, 1);
        let raw_end_lsn = get_varint(fs, 2);
        let raw_num_rows = get_varint(fs, 3);
        let raw_start_time = get_joined(fs, 4);
        let raw_end_time = get_joined(fs, 5);
        proof {
            assert forall|m: CdcSyncStatusModel| #[trigger] Self::wire_fields(m) == models(fs@) implies {
                &&& (raw_start_lsn == Some(i64_bits(m.start_lsn)))
                &&& (raw_end_lsn == Some(i64_bits(m.end_lsn)))
                &&& (raw_num_rows == Some(i32_bits(m.num_rows)))
                &&& (raw_start_time matches Some(o) && (o is Some <==> m.start_time is Some) && (m.start_time matches Some(x) ==> o matches Some(b) && b@ == Timestamp::wire(x)))
                &&& (raw_end_time matches Some(o) && (o is Some <==> m.end_time is Some) && (m.end_time matches Some(x) ==> o matches Some(b) && b@ == Timestamp::wire(x)))
            } by {
                Self::lemma_select(m, 1);
                Self::lemma_select(m, 2);
                Self::lemma_select(m, 3);
                Self::lemma_select(m, 4);
                Self::lemma_select(m, 5);
                lemma_values(i64_bits(m.start_lsn), seq![], None, seq![]);
                lemma_values(i64_bits(m.end_lsn), seq![], None, seq![]);
                lemma_values(i32_bits(m.num_rows), seq![], None, seq![]);
                lemma_values(0, seq![], match m.start_time {
                    Some(x) => Some(Timestamp::wire(x)),
                    None => None,
                }, seq![]);
                lemma_values(0, seq![], match m.end_time {
                    Some(x) => Some(Timestamp::wire(x)),
                    None => None,
                }, seq![]);
            }
        }
        let start_lsn = match raw_start_lsn {
            Some(v) => bits_to_i64(v),
            None => return None,
        };
        let end_lsn = match raw_end_lsn {
            Some(v) => bits_to_i64(v),
            None => return None,
        };
        let num_rows = match raw_num_rows {
            Some(v) => bits_to_i32(v),
            None => return None,
        };
        let start_time = match raw_start_time {
            Some(Some(b)) => match Timestamp::decode(b.as_slice()) {
                Ok(x) => Some(x),
                Err(_) => return None,
            },
            Some(None) => None,
            None => return None,
        };
        let end_time = match raw_end_time {
            Some(Some(b)) => match Timestamp::decode(b.as_slice()) {
                Ok(x) => Some(x),
                Err(_) => return None,
            },
            Some(None) => None,
            None => return None,
        };
        let d = CdcSyncStatus { start_lsn, end_lsn, num_rows, start_time, end_time };
        proof {
            assert forall|m: CdcSyncStatusModel| #[trigger] Self::wire_fields(m) == models(fs@) implies d@ == m by {
                lemma_int_bits(0, m.start_lsn);
                lemma_int_bits(0, m.end_lsn);
                lemma_int_bits(m.num_rows, 0);
            }
        }
        Some(d)
    }

    /// Reads a message from its protobuf encoding. Unknown fields are
    /// skipped; bytes that are not a well-formed encoding fail. The encoding
    /// of any message reads back as that message.
    pub fn decode(bytes: &[u8]) -> (r: Result<Self, DecodeError>)
        ensures
            forall|m: CdcSyncStatusModel| #[trigger] Self::wire(m) == bytes@ ==> (r matches Ok(d) && d@ == m),
    {
        proof {
            assert(bytes@.len() == bytes.len());
            assert forall|m: CdcSyncStatusModel| #[trigger] Self::wire(m) == bytes@ implies fields_ok(
                Self::wire_fields(m),
            ) by {
                Self::lemma_select(m, 0);
                lemma_fields_ok(Self::wire_fields(m));
            }
        }
        let fs = match decode_fields(bytes) {
            Some(fs) => fs,
            None => return Err(DecodeError),
        };
        match Self::from_fields(&fs) {
            Some(d) => Ok(d),
            None => Err(DecodeError),
        }
    }

}

impl CdcSyncStatus {
    /// Whether each run of bytes is the encoding of the message at its index.
    pub open spec fn runs_match(ms: Seq<CdcSyncStatusModel>, runs: Seq<Vec<u8>>) -> bool {
        &&& ms.len() == runs.len()
        &&& forall|j: int| 0 <= j < ms.len() ==> Self::wire(#[trigger] ms[j]) == runs[j]@
    }

    /// Reads one message from each run of bytes.
    pub fn decode_each(runs: &Vec<Vec<u8>>) -> (r: Option<Vec<Self>>)
        ensures
            forall|ms: Seq<CdcSyncStatusModel>|
                #[trigger] Self::runs_match(ms, runs@) ==> (r matches Some(v) && v@.map_values(
                    |x: Self| x@,
                ) == ms),
    {
        let mut out: Vec<Self> = Vec::new();
        let mut i: usize = 0;
        while i < runs.len()
            invariant
                i <= runs@.len(),
                out@.len() == i,
                forall|ms: Seq<CdcSyncStatusModel>|
                    #[trigger] Self::runs_match(ms, runs@) ==> (forall|j: int|
                        0 <= j < i ==> out@[j]@ == ms[j]),
            decreases runs@.len() - i,
        {
            match Self::decode(runs[i].as_slice()) {
                Ok(d) => {
                    proof {
                        assert forall|ms: Seq<CdcSyncStatusModel>| #[trigger]
                            Self::runs_match(ms, runs@) implies d@ == ms[i as int] by {
                            assert(Self::wire(ms[i as int]) == runs@[i as int]@);
                        }
                    }
                    out.push(d);
                },
                Err(_) => {
                    proof {
                        assert forall|ms: Seq<CdcSyncStatusModel>| #[trigger]
                            Self::runs_match(ms, runs@) implies false by {
                            assert(Self::wire(ms[i as int]) == runs@[i as int]@);
                        }
                    }
                    return None;
                },
            }
            i = i + 1;
        }
        proof {
            assert forall|ms: Seq<CdcSyncStatusModel>| #[trigger] Self::runs_match(ms, runs@) implies out@.map_values(
                |x: Self| x@,
            ) == ms by {
                assert(out@.map_values(|x: Self| x@) =~= ms);
            }
        }
        Some(out)
    }
}

/// The progress of the initial snapshot of a mirror.
#[derive(Clone, Debug, PartialEq, Default)]
pub struct SnapshotStatus {
    /// The tables being cloned, in order.
    pub clones: Vec<QRepMirrorStatus>,
}

/// The mathematical value of a [`SnapshotStatus`].
pub struct SnapshotStatusModel {
    pub clones: Seq<QRepMirrorStatusModel>,
}

impl View for SnapshotStatus {
    type V = SnapshotStatusModel;

    open spec fn view(&self) -> SnapshotStatusModel {
        SnapshotStatusModel {
            clones: self.clones@.map_values(|x: QRepMirrorStatus| x@),
        }
    }
}

impl SnapshotStatus {
    /// The values of the fields numbered `tag` in the encoding of `m`.
    pub open spec fn values(m: SnapshotStatusModel, tag: u32) -> Seq<Value> {
        if tag == 1 {
            repeated_values(Seq::new(m.clones.len(), |i: int| QRepMirrorStatus::wire(m.clones[i])))
        } else {
            seq![]
        }
    }

    /// The fields of the encoding of `m`, in order of their numbers; a scalar
    /// that holds its default value is left out.
    pub open spec fn wire_fields(m: SnapshotStatusModel) -> Seq<FieldModel> {
        uniform(1, Self::values(m, 1))
    }

    /// The encoding of `m`.
    pub open spec fn wire(m: SnapshotStatusModel) -> Seq<u8> {
        fields_wire(Self::wire_fields(m))
    }

    proof fn lemma_select(m: SnapshotStatusModel, t: u32)
        ensures
            select(Self::wire_fields(m), t) == Self::values(m, t),
            tags_ok(Self::wire_fields(m)),
    {
        let s0 = uniform(1, Self::values(m, 1));
        lemma_select_uniform(1, Self::values(m, 1), t);
        assert(tags_ok(s0));
        assert(select(Self::wire_fields(m), t) =~= Self::values(m, t));
    }

    /// The protobuf encoding of the message.
    pub fn encode(&self) -> (r: Vec<u8>)
        ensures
            r@ == Self::wire(self@),
    {
        let mut buf: Vec<u8> = Vec::new();
        let ghost before1 = buf@;
        let mut i: usize = 0;
        proof {
            lemma_no_values(1);
            assert(Seq::new(0, |j: int| QRepMirrorStatus::wire(self.clones@[j]@)) =~= Seq::<Seq<u8>>::empty());
        }
        while i < self.clones.len()
            invariant
                i <= self.clones@.len(),
                buf@ == before1 + fields_wire(
                    uniform(1, repeated_values(Seq::new(i as nat, |j: int| QRepMirrorStatus::wire(self.clones@[j]@)))),
                ),
            decreases self.clones@.len() - i,
        {
            let b = self.clones[i].encode();
            proof {
                let ws = Seq::new(i as nat, |j: int| QRepMirrorStatus::wire(self.clones@[j]@));
                lemma_repeated_push(1, ws, b@);
                assert(ws.push(b@) =~= Seq::new((i + 1) as nat, |j: int| QRepMirrorStatus::wire(self.clones@[j]@)));
            }
            put_message(&mut buf, 1, b.as_slice());
            i = i + 1;
        }
        assert(Seq::new(i as nat, |j: int| QRepMirrorStatus::wire(self.clones@[j]@)) =~= Seq::new(
            self@.clones.len(),
            |j: int| QRepMirrorStatus::wire(self@.clones[j]),
        ));
        assert(buf@ =~= before1 + fields_wire(uniform(1, Self::values(self@, 1))));
        proof {
            let s0 = uniform(1, Self::values(self@, 1));
        }
        assert(buf@ =~= Self::wire(self@));
        buf
    }

    fn from_fields(fs: &Vec<Field>) -> (r: Option<Self>)
        ensures
            forall|m: SnapshotStatusModel|
                #[trigger] Self::wire_fields(m) == models(fs@) ==> (r matches Some(d) && d@ == m),
    {
        let raw_clones = get_runs(fs, 1);
        proof {
            assert forall|m: SnapshotStatusModel| #[trigger] Self::wire_fields(m) == models(fs@) implies {
                &&& (raw_clones matches Some(rs) && QRepMirrorStatus::runs_match(m.clones, rs@))
            } by {
                Self::lemma_select(m, 1);
                lemma_values(0, seq![], None, Seq::new(m.clones.len(), |i: int| QRepMirrorStatus::wire(m.clones[i])));
            }
        }
        let clones = match raw_clones {
            Some(rs) => match QRepMirrorStatus::decode_each(&rs) {
                Some(v) => v,
                None => return None,
            },
            None => return None,
        };
        let d = SnapshotStatus { clones };
        proof {
            assert forall|m: SnapshotStatusModel| #[trigger] Self::wire_fields(m) == models(fs@) implies d@ == m by {
                assert(d@.clones =~= m.clones);
            }
        }
        Some(d)
    }

    /// Reads a message from its protobuf encoding. Unknown fields are
    /// skipped; bytes that are not a well-formed encoding fail. The encoding
    /// of any message reads back as that message.
    pub fn decode(bytes: &[u8]) -> (r: Result<Self, DecodeError>)
        ensures
            forall|m: SnapshotStatusModel| #[trigger] Self::wire(m) == bytes@ ==> (r matches Ok(d) && d@ == m),
    {
        proof {
            assert(bytes@.len() == bytes.len());
            assert forall|m: SnapshotStatusModel| #[trigger] Self::wire(m) == bytes@ implies fields_ok(
                Self::wire_fields(m),
            ) by {
                Self::lemma_select(m, 0);
                lemma_fields_ok(Self::wire_fields(m));
            }
        }
        let fs = match decode_fields(bytes) {
            Some(fs) => fs,
            None => return Err(DecodeError),
        };
        match Self::from_fields(&fs) {
            Some(d) => Ok(d),
            None => Err(DecodeError),
        }
    }

}

/// The state of a change-data-capture mirror.
#[derive(Clone, Debug, PartialEq, Default)]
pub struct CdcMirrorStatus {
    /// The configuration of the mirror, if given.
    pub config: Option<FlowConnectionConfigs>,
    /// The progress of the initial snapshot, if known.
    pub snapshot_status: Option<SnapshotStatus>,
    /// The sync batches, in order.
    pub cdc_syncs: Vec<CdcSyncStatus>,
}

/// The mathematical value of a [`CdcMirrorStatus`].
pub struct CdcMirrorStatusModel {
    pub config: Option<Seq<u8>>,
    pub snapshot_status: Option<SnapshotStatusModel>,
    pub cdc_syncs: Seq<CdcSyncStatusModel>,
}

impl View for CdcMirrorStatus {
    type V = CdcMirrorStatusModel;

    open spec fn view(&self) -> CdcMirrorStatusModel {
        CdcMirrorStatusModel {
            config: match self.config {
                Some(x) => Some(x@),
                None => None,
            },
            snapshot_status: match self.snapshot_status {
                Some(x) => Some(x@),
                None => None,
            },
            cdc_syncs: self.cdc_syncs@.map_values(|x: CdcSyncStatus| x@),
        }
    }
}

impl CdcMirrorStatus {
    /// The values of the fields numbered `tag` in the encoding of `m`.
    pub open spec fn values(m: CdcMirrorStatusModel, tag: u32) -> Seq<Value> {
        if tag == 1 {
            message_values(
                match m.config {
                    Some(x) => Some(FlowConnectionConfigs::wire(x)),
                    None => None,
                },
            )
        } else if tag == 2 {
            message_values(
                match m.snapshot_status {
                    Some(x) => Some(SnapshotStatus::wire(x)),
                    None => None,
                },
            )
        } else if tag == 3 {
            repeated_values(Seq::new(m.cdc_syncs.len(), |i: int| CdcSyncStatus::wire(m.cdc_syncs[i])))
        } else {
            seq![]
        }
    }

    /// The fields of the encoding of `m`, in order of their numbers; a scalar
    /// that holds its default value is left out.
    pub open spec fn wire_fields(m: CdcMirrorStatusModel) -> Seq<FieldModel> {
        uniform(1, Self::values(m, 1)) + uniform(2, Self::values(m, 2)) + uniform(3, Self::values(m, 3))
    }

    /// The encoding of `m`.
    pub open spec fn wire(m: CdcMirrorStatusModel) -> Seq<u8> {
        fields_wire(Self::wire_fields(m))
    }

    proof fn lemma_select(m: CdcMirrorStatusModel, t: u32)
        ensures
            select(Self::wire_fields(m), t) == Self::values(m, t),
            tags_ok(Self::wire_fields(m)),
    {
        let s0 = uniform(1, Self::values(m, 1));
        lemma_select_uniform(1, Self::values(m, 1), t);
        assert(tags_ok(s0));
        let s1 = uniform(2, Self::values(m, 2));
        lemma_select_uniform(2, Self::values(m, 2), t);
        assert(tags_ok(s1));
        let s2 = uniform(3, Self::values(m, 3));
        lemma_select_uniform(3, Self::values(m, 3), t);
        assert(tags_ok(s2));
        lemma_select_concat(s0, s1, t);
        lemma_tags_concat(s0, s1);
        lemma_select_concat(s0 + s1, s2, t);
        lemma_tags_concat(s0 + s1, s2);
        assert(select(Self::wire_fields(m), t) =~= Self::values(m, t));
    }

    /// The protobuf encoding of the message.
    pub fn encode(&self) -> (r: Vec<u8>)
        ensures
            r@ == Self::wire(self@),
    {
        let mut buf: Vec<u8> = Vec::new();
        let ghost before1 = buf@;
        match &self.config {
            Some(x) => {
                let b = x.encode();
                put_message(&mut buf, 1, b.as_slice());
            },
            None => {
                proof {
                    lemma_no_values(1);
                }
                assert(buf@ =~= before1 + fields_wire(uniform(1, Self::values(self@, 1))));
            },
        }
        assert(buf@ =~= before1 + fields_wire(uniform(1, Self::values(self@, 1))));
        let ghost before2 = buf@;
        match &self.snapshot_status {
            Some(x) => {
                let b = x.encode();
                put_message(&mut buf, 2, b.as_slice());
            },
            None => {
                proof {
                    lemma_no_values(2);
                }
                assert(buf@ =~= before2 + fields_wire(uniform(2, Self::values(self@, 2))));
            },
        }
        assert(buf@ =~= before2 + fields_wire(uniform(2, Self::values(self@, 2))));
        let ghost before3 = buf@;
        let mut i: usize = 0;
        proof {
            lemma_no_values(3);
            assert(Seq::new(0, |j: int| CdcSyncStatus::wire(self.cdc_syncs@[j]@)) =~= Seq::<Seq<u8>>::empty());
        }
        while i < self.cdc_syncs.len()
            invariant
                i <= self.cdc_syncs@.len(),
                buf@ == before3 + fields_wire(
                    uniform(3, repeated_values(Seq::new(i as nat, |j: int| CdcSyncStatus::wire(self.cdc_syncs@[j]@)))),
                ),
            decreases self.cdc_syncs@.len() - i,
        {
            let b = self.cdc_syncs[i].encode();
            proof {
                let ws = Seq::new(i as nat, |j: int| CdcSyncStatus::wire(self.cdc_syncs@[j]@));
                lemma_repeated_push(3, ws, b@);
                assert(ws.push(b@) =~= Seq::new((i + 1) as nat, |j: int| CdcSyncStatus::wire(self.cdc_syncs@[j]@)));
            }
            put_message(&mut buf, 3, b.as_slice());
            i = i + 1;
        }
        assert(Seq::new(i as nat, |j: int| CdcSyncStatus::wire(self.cdc_syncs@[j]@)) =~= Seq::new(
            self@.cdc_syncs.len(),
            |j: int| CdcSyncStatus::wire(self@.cdc_syncs[j]),
        ));
        assert(buf@ =~= before3 + fields_wire(uniform(3, Self::values(self@, 3))));
        proof {
            let s0 = uniform(1, Self::values(self@, 1));
            let s1 = uniform(2, Self::values(self@, 2));
            let s2 = uniform(3, Self::values(self@, 3));
            lemma_fields_wire_concat(s0, s1);
            lemma_fields_wire_concat(s0 + s1, s2);
        }
        assert(buf@ =~= Self::wire(self@));
        buf
    }

    fn from_fields(fs: &Vec<Field>) -> (r: Option<Self>)
        ensures
            forall|m: CdcMirrorStatusModel|
                #[trigger] Self::wire_fields(m) == models(fs@) ==> (r matches Some(d) && d@ == m),
    {
        let raw_config = get_joined(fs, 1);
        let raw_snapshot_status = get_joined(fs, 2);
        let raw_cdc_syncs = get_runs(fs, 3);
        proof {
            assert forall|m: CdcMirrorStatusModel| #[trigger] Self::wire_fields(m) == models(fs@) implies {
                &&& (raw_config matches Some(o) && (o is Some <==> m.config is Some) && (m.config matches Some(x) ==> o matches Some(b) && b@ == FlowConnectionConfigs::wire(x)))
                &&& (raw_snapshot_status matches Some(o) && (o is Some <==> m.snapshot_status is Some) && (m.snapshot_status matches Some(x) ==> o matches Some(b) && b@ == SnapshotStatus::wire(x)))
                &&& (raw_cdc_syncs matches Some(rs) && CdcSyncStatus::runs_match(m.cdc_syncs, rs@))
            } by {
                Self::lemma_select(m, 1);
                Self::lemma_select(m, 2);
                Self::lemma_select(m, 3);
                lemma_values(0, seq![], match m.config {
                    Some(x) => Some(FlowConnectionConfigs::wire(x)),
                    None => None,
                }, seq![]);
                lemma_values(0, seq![], match m.snapshot_status {
                    Some(x) => Some(SnapshotStatus::wire(x)),
                    None => None,
                }, seq![]);
                lemma_values(0, seq![], None, Seq::new(m.cdc_syncs.len(), |i: int| CdcSyncStatus::wire(m.cdc_syncs[i])));
            }
        }
        let config = match raw_config {
            Some(Some(b)) => match FlowConnectionConfigs::decode(b.as_slice()) {
                Ok(x) => Some(x),
                Err(_) => return None,
            },
            Some(None) => None,
            None => return None,
        };
        let snapshot_status = match raw_snapshot_status {
            Some(Some(b)) => match SnapshotStatus::decode(b.as_slice()) {
                Ok(x) => Some(x),
                Err(_) => return None,
            },
            Some(None) => None,
            None => return None,
        };
        let cdc_syncs = match raw_cdc_syncs {
            Some(rs) => match CdcSyncStatus::decode_each(&rs) {
                Some(v) => v,
                None => return None,
            },
            None => return None,
        };
        let d = CdcMirrorStatus { config, snapshot_status, cdc_syncs };
        proof {
            assert forall|m: CdcMirrorStatusModel| #[trigger] Self::wire_fields(m) == models(fs@) implies d@ == m by {
                assert(d@.cdc_syncs =~= m.cdc_syncs);
            }
        }
        Some(d)
    }

    /// Reads a message from its protobuf encoding. Unknown fields are
    /// skipped; bytes that are not a well-formed encoding fail. The encoding
    /// of any message reads back as that message.
    pub fn decode(bytes: &[u8]) -> (r: Result<Self, DecodeError>)
        ensures
            forall|m: CdcMirrorStatusModel| #[trigger] Self::wire(m) == bytes@ ==> (r matches Ok(d) && d@ == m),
    {
        proof {
            assert(bytes@.len() == bytes.len());
            assert forall|m: CdcMirrorStatusModel| #[trigger] Self::wire(m) == bytes@ implies fields_ok(
                Self::wire_fields(m),
            ) by {
                Self::lemma_select(m, 0);
                lemma_fields_ok(Self::wire_fields(m));
            }
        }
        let fs = match decode_fields(bytes) {
            Some(fs) => fs,
            None => return Err(DecodeError),
        };
        match Self::from_fields(&fs) {
            Some(d) => Ok(d),
            None => Err(DecodeError),
        }
    }

}

/// Answers a request for the state of a mirror.
#[derive(Clone, Debug, PartialEq, Default)]
pub struct MirrorStatusResponse {
    /// The name of the flow job of the mirror.
    pub flow_job_name: String,
    /// The state of the mirror, of whichever kind it is, if known.
    pub status: Option<Status>,
    /// What went wrong, where something did.
    pub error_message: String,
}

/// The mathematical value of a [`MirrorStatusResponse`].
pub struct MirrorStatusResponseModel {
    pub flow_job_name: Seq<char>,
    pub status: Option<StatusModel>,
    pub error_message: Seq<char>,
}

impl View for MirrorStatusResponse {
    type V = MirrorStatusResponseModel;

    open spec fn view(&self) -> MirrorStatusResponseModel {
        MirrorStatusResponseModel {
            flow_job_name: self.flow_job_name@,
            status: match self.status {
                Some(x) => Some(x@),
                None => None,
            },
            error_message: self.error_message@,
        }
    }
}

impl MirrorStatusResponse {
    /// The values of the fields numbered `tag` in the encoding of `m`.
    pub open spec fn values(m: MirrorStatusResponseModel, tag: u32) -> Seq<Value> {
        if tag == 1 {
            bytes_values(vstd::utf8::encode_utf8(m.flow_job_name))
        } else if tag == 2 {
            message_values(
                match m.status {
                    Some(StatusModel::QrepStatus(x)) => Some(QRepMirrorStatus::wire(x)),
                    _ => None,
                },
            )
        } else if tag == 3 {
            message_values(
                match m.status {
                    Some(StatusModel::CdcStatus(x)) => Some(CdcMirrorStatus::wire(x)),
                    _ => None,
                },
            )
        } else if tag == 4 {
            bytes_values(vstd::utf8::encode_utf8(m.error_message))
        } else {
            seq![]
        }
    }

    /// The fields of the encoding of `m`, in order of their numbers; a scalar
    /// that holds its default value is left out.
    pub open spec fn wire_fields(m: MirrorStatusResponseModel) -> Seq<FieldModel> {
        uniform(1, Self::values(m, 1)) + uniform(2, Self::values(m, 2)) + uniform(3, Self::values(m, 3)) + uniform(4, Self::values(m, 4))
    }

    /// The encoding of `m`.
    pub open spec fn wire(m: MirrorStatusResponseModel) -> Seq<u8> {
        fields_wire(Self::wire_fields(m))
    }

    proof fn lemma_select(m: MirrorStatusResponseModel, t: u32)
        ensures
            select(Self::wire_fields(m), t) == Self::values(m, t),
            tags_ok(Self::wire_fields(m)),
    {
        let s0 = uniform(1, Self::values(m, 1));
        lemma_select_uniform(1, Self::values(m, 1), t);
        assert(tags_ok(s0));
        let s1 = uniform(2, Self::values(m, 2));
        lemma_select_uniform(2, Self::values(m, 2), t);
        assert(tags_ok(s1));
        let s2 = uniform(3, Self::values(m, 3));
        lemma_select_uniform(3, Self::values(m, 3), t);
        assert(tags_ok(s2));
        let s3 = uniform(4, Self::values(m, 4));
        lemma_select_uniform(4, Self::values(m, 4), t);
        assert(tags_ok(s3));
        lemma_select_concat(s0, s1, t);
        lemma_tags_concat(s0, s1);
        lemma_select_concat(s0 + s1, s2, t);
        lemma_tags_concat(s0 + s1, s2);
        lemma_select_concat((s0 + s1) + s2, s3, t);
        lemma_tags_concat((s0 + s1) + s2, s3);
        assert(select(Self::wire_fields(m), t) =~= Self::values(m, t));
    }

    /// The protobuf encoding of the message.
    pub fn encode(&self) -> (r: Vec<u8>)
        ensures
            r@ == Self::wire(self@),
    {
        let mut buf: Vec<u8> = Vec::new();
        let ghost before1 = buf@;
        put_bytes_scalar(&mut buf, 1, self.flow_job_name.as_str().as_bytes());
        assert(buf@ =~= before1 + fields_wire(uniform(1, Self::values(self@, 1))));
        let ghost before2 = buf@;
        match &self.status {
            Some(Status::QrepStatus(x)) => {
                let b = x.encode();
                put_message(&mut buf, 2, b.as_slice());
                let ghost before3 = buf@;
                proof {
                    lemma_no_values(3);
                }
                assert(buf@ =~= before3 + fields_wire(uniform(3, Self::values(self@, 3))));
            },
            Some(Status::CdcStatus(x)) => {
                proof {
                    lemma_no_values(2);
                }
                assert(buf@ =~= before2 + fields_wire(uniform(2, Self::values(self@, 2))));
                let b = x.encode();
                put_message(&mut buf, 3, b.as_slice());
            },
            None => {
                proof {
                    lemma_no_values(2);
                    lemma_no_values(3);
                }
                assert(buf@ =~= before2 + fields_wire(uniform(2, Self::values(self@, 2))) + fields_wire(uniform(3, Self::values(self@, 3))));
            },
        }
        assert(buf@ =~= before2 + fields_wire(uniform(2, Self::values(self@, 2))) + fields_wire(uniform(3, Self::values(self@, 3))));
        let ghost before4 = buf@;
        put_bytes_scalar(&mut buf, 4, self.error_message.as_str().as_bytes());
        assert(buf@ =~= before4 + fields_wire(uniform(4, Self::values(self@, 4))));
        proof {
            let s0 = uniform(1, Self::values(self@, 1));
            let s1 = uniform(2, Self::values(self@, 2));
            let s2 = uniform(3, Self::values(self@, 3));
            let s3 = uniform(4, Self::values(self@, 4));
            lemma_fields_wire_concat(s0, s1);
            lemma_fields_wire_concat(s0 + s1, s2);
            lemma_fields_wire_concat((s0 + s1) + s2, s3);
        }
        assert(buf@ =~= Self::wire(self@));
        buf
    }

    /// `m` with its status replaced by `s`.
    pub open spec fn with_status(m: MirrorStatusResponseModel, s: Option<StatusModel>) -> MirrorStatusResponseModel {
        MirrorStatusResponseModel { flow_job_name: m.flow_job_name, status: s, error_message: m.error_message }
    }

    /// A response that carries a status and nothing else.
    pub open spec fn status_only(s: Option<StatusModel>) -> MirrorStatusResponseModel {
        MirrorStatusResponseModel { flow_job_name: seq![], status: s, error_message: seq![] }
    }

    fn from_fields(fs: &Vec<Field>) -> (r: Option<Self>)
        ensures
            forall|m: MirrorStatusResponseModel|
                #[trigger] Self::wire_fields(m) == models(fs@) ==> (r matches Some(d) && d@ == m),
            forall|m: MirrorStatusResponseModel, c: CdcMirrorStatusModel|
                m.status matches Some(StatusModel::QrepStatus(_)) && #[trigger] (Self::wire_fields(m)
                    + Self::wire_fields(Self::status_only(Some(StatusModel::CdcStatus(c)))))
                    == models(fs@) ==> (r matches Some(d) && d@ == Self::with_status(
                    m,
                    Some(StatusModel::CdcStatus(c)),
                )),
    {
        let raw_flow_job_name = get_bytes(fs, 1);
        let raw_status = get_oneof(fs, 2, 3);
        let raw_error_message = get_bytes(fs, 4);
        proof {
            assert forall|m: MirrorStatusResponseModel| #[trigger] Self::wire_fields(m) == models(fs@) implies {
                &&& (raw_flow_job_name matches Some(b) && b@ == vstd::utf8::encode_utf8(m.flow_job_name))
                &&& (raw_status matches Some(o) && (o is Some <==> m.status is Some) && (m.status matches Some(StatusModel::QrepStatus(x)) ==> o matches Some(p) && p.0 == 2 && p.1@ == QRepMirrorStatus::wire(x)) && (m.status matches Some(StatusModel::CdcStatus(x)) ==> o matches Some(p) && p.0 == 3 && p.1@ == CdcMirrorStatus::wire(x)))
                &&& (raw_error_message matches Some(b) && b@ == vstd::utf8::encode_utf8(m.error_message))
            } by {
                Self::lemma_select(m, 1);
                Self::lemma_select(m, 2);
                Self::lemma_select(m, 3);
                Self::lemma_select(m, 4);
                lemma_values(0, vstd::utf8::encode_utf8(m.flow_job_name), None, seq![]);
                Self::lemma_oneof(m);
                lemma_values(0, seq![], match m.status {
                    Some(StatusModel::QrepStatus(x)) => Some(QRepMirrorStatus::wire(x)),
                    _ => None,
                }, seq![]);
                lemma_values(0, seq![], match m.status {
                    Some(StatusModel::CdcStatus(x)) => Some(CdcMirrorStatus::wire(x)),
                    _ => None,
                }, seq![]);
                lemma_values(0, vstd::utf8::encode_utf8(m.error_message), None, seq![]);
            }
            assert forall|m: MirrorStatusResponseModel, c: CdcMirrorStatusModel|
                m.status matches Some(StatusModel::QrepStatus(_)) && #[trigger] (Self::wire_fields(m)
                    + Self::wire_fields(Self::status_only(Some(StatusModel::CdcStatus(c)))))
                    == models(fs@) implies {
                &&& (raw_flow_job_name matches Some(b) && b@ == vstd::utf8::encode_utf8(m.flow_job_name))
                &&& (raw_status matches Some(Some(p)) && p.0 == 3 && p.1@ == CdcMirrorStatus::wire(c))
                &&& (raw_error_message matches Some(b) && b@ == vstd::utf8::encode_utf8(m.error_message))
            } by {
                Self::lemma_last_status_wins(m, c);
            }
        }
        let flow_job_name = match raw_flow_job_name {
            Some(b) => match utf8_to_string(b) {
                Some(s) => s,
                None => return None,
            },
            None => return None,
        };
        let status = match raw_status {
            Some(Some((t, b))) => if t == 2 {
                match QRepMirrorStatus::decode(b.as_slice()) {
                    Ok(x) => Some(Status::QrepStatus(x)),
                    Err(_) => return None,
                }
            } else {
                match CdcMirrorStatus::decode(b.as_slice()) {
                    Ok(x) => Some(Status::CdcStatus(x)),
                    Err(_) => return None,
                }
            },
            Some(None) => None,
            None => return None,
        };
        let error_message = match raw_error_message {
            Some(b) => match utf8_to_string(b) {
                Some(s) => s,
                None => return None,
            },
            None => return None,
        };
        let d = MirrorStatusResponse { flow_job_name, status, error_message };
        proof {
            assert forall|m: MirrorStatusResponseModel| #[trigger] Self::wire_fields(m) == models(fs@) implies d@ == m by {
            }
        }
        proof {
            assert forall|m: MirrorStatusResponseModel, c: CdcMirrorStatusModel|
                m.status matches Some(StatusModel::QrepStatus(_)) && #[trigger] (Self::wire_fields(m)
                    + Self::wire_fields(Self::status_only(Some(StatusModel::CdcStatus(c)))))
                    == models(fs@) implies d@ == Self::with_status(m, Some(StatusModel::CdcStatus(c))) by {
            }
        }
        Some(d)
    }

    /// Reads a message from its protobuf encoding. Unknown fields are
    /// skipped; bytes that are not a well-formed encoding fail. The encoding
    /// of any message reads back as that message.
    pub fn decode(bytes: &[u8]) -> (r: Result<Self, DecodeError>)
        ensures
            forall|m: MirrorStatusResponseModel| #[trigger] Self::wire(m) == bytes@ ==> (r matches Ok(d) && d@ == m),
            forall|m: MirrorStatusResponseModel, c: CdcMirrorStatusModel|
                m.status matches Some(StatusModel::QrepStatus(_)) && #[trigger] (Self::wire(m) + Self::wire(
                    Self::status_only(Some(StatusModel::CdcStatus(c))),
                )) == bytes@ ==> (r matches Ok(d) && d@ == Self::with_status(
                    m,
                    Some(StatusModel::CdcStatus(c)),
                )),
    {
        proof {
            assert(bytes@.len() == bytes.len());
            assert forall|m: MirrorStatusResponseModel, c: CdcMirrorStatusModel|
                m.status matches Some(StatusModel::QrepStatus(_)) && #[trigger] (Self::wire(m) + Self::wire(
                    Self::status_only(Some(StatusModel::CdcStatus(c))),
                )) == bytes@ implies fields_ok(
                Self::wire_fields(m) + Self::wire_fields(Self::status_only(Some(StatusModel::CdcStatus(c)))),
            ) && fields_wire(
                Self::wire_fields(m) + Self::wire_fields(Self::status_only(Some(StatusModel::CdcStatus(c)))),
            ) == bytes@ by {
                let a = Self::wire_fields(m);
                let b = Self::wire_fields(Self::status_only(Some(StatusModel::CdcStatus(c))));
                Self::lemma_select(m, 0);
                Self::lemma_select(Self::status_only(Some(StatusModel::CdcStatus(c))), 0);
                lemma_tags_concat(a, b);
                lemma_fields_wire_concat(a, b);
                lemma_fields_ok(a + b);
            }
            assert forall|m: MirrorStatusResponseModel| #[trigger] Self::wire(m) == bytes@ implies fields_ok(
                Self::wire_fields(m),
            ) by {
                Self::lemma_select(m, 0);
                lemma_fields_ok(Self::wire_fields(m));
            }
        }
        let fs = match decode_fields(bytes) {
            Some(fs) => fs,
            None => return Err(DecodeError),
        };
        match Self::from_fields(&fs) {
            Some(d) => Ok(d),
            None => Err(DecodeError),
        }
    }

}

impl MirrorStatusResponse {
    proof fn lemma_oneof(m: MirrorStatusResponseModel)
        ensures
            oneof_value(Self::wire_fields(m), 2, 3) == match m.status {
                Some(StatusModel::QrepStatus(x)) => Some((2u32, QRepMirrorStatus::wire(x))),
                Some(StatusModel::CdcStatus(x)) => Some((3u32, CdcMirrorStatus::wire(x))),
                None => None,
            },
    {
        let s0 = uniform(1, Self::values(m, 1));
        let s1 = uniform(2, Self::values(m, 2));
        let s2 = uniform(3, Self::values(m, 3));
        let s3 = uniform(4, Self::values(m, 4));
        let e = Seq::<FieldModel>::empty();
        assert(avoids(s0, 2, 3));
        assert(avoids(s3, 2, 3));
        lemma_oneof_avoids((s0 + s1) + s2, s3, 2, 3);
        lemma_oneof_avoids(e, s0, 2, 3);
        assert(e + s0 =~= s0);
        match m.status {
            Some(StatusModel::QrepStatus(x)) => {
                assert(avoids(s2, 2, 3));
                lemma_oneof_avoids(s0 + s1, s2, 2, 3);
                let f = FieldModel { tag: 2, value: Value::Bytes(QRepMirrorStatus::wire(x)) };
                assert(s0 + s1 =~= s0.push(f));
                assert(s0.push(f).drop_last() =~= s0);
                assert(s0.push(f).last() == f);
            },
            Some(StatusModel::CdcStatus(x)) => {
                assert(avoids(s1, 2, 3));
                lemma_oneof_avoids(s0, s1, 2, 3);
                let g = FieldModel { tag: 3, value: Value::Bytes(CdcMirrorStatus::wire(x)) };
                assert((s0 + s1) + s2 =~= (s0 + s1).push(g));
                assert((s0 + s1).push(g).drop_last() =~= s0 + s1);
                assert((s0 + s1).push(g).last() == g);
            },
            None => {
                assert(avoids(s1, 2, 3));
                assert(avoids(s2, 2, 3));
                lemma_oneof_avoids(s0, s1, 2, 3);
                lemma_oneof_avoids(s0 + s1, s2, 2, 3);
            },
        }
    }

    /// Where a response whose status is of the query-replication kind is
    /// followed on the wire by one that carries only a change-data-capture
    /// status, the fields read as those of the first, but for a status that
    /// is the second's: the last variant of a oneof on the wire wins.
    pub proof fn lemma_last_status_wins(m: MirrorStatusResponseModel, c: CdcMirrorStatusModel)
        requires
            m.status matches Some(StatusModel::QrepStatus(_)),
        ensures
            ({
                let fs = Self::wire_fields(m) + Self::wire_fields(
                    Self::status_only(Some(StatusModel::CdcStatus(c))),
                );
                &&& all_bytes(select(fs, 1)) && last_bytes(select(fs, 1)) == vstd::utf8::encode_utf8(
                    m.flow_job_name,
                )
                &&& all_bytes(select(fs, 2)) && all_bytes(select(fs, 3))
                &&& oneof_value(fs, 2, 3) == Some((3u32, CdcMirrorStatus::wire(c)))
                &&& all_bytes(select(fs, 4)) && last_bytes(select(fs, 4)) == vstd::utf8::encode_utf8(
                    m.error_message,
                )
            }),
    {
        let so = Self::status_only(Some(StatusModel::CdcStatus(c)));
        let a = Self::wire_fields(m);
        let b = Self::wire_fields(so);
        let g = FieldModel { tag: 3, value: Value::Bytes(CdcMirrorStatus::wire(c)) };
        let e = Seq::<char>::empty();
        assert(vstd::utf8::encode_utf8(e) =~= Seq::<u8>::empty());
        assert(so.flow_job_name =~= e);
        assert(so.error_message =~= e);
        lemma_select_concat(a, b, 1);
        lemma_select_concat(a, b, 2);
        lemma_select_concat(a, b, 3);
        lemma_select_concat(a, b, 4);
        Self::lemma_select(m, 1);
        Self::lemma_select(m, 2);
        Self::lemma_select(m, 3);
        Self::lemma_select(m, 4);
        Self::lemma_select(so, 1);
        Self::lemma_select(so, 2);
        Self::lemma_select(so, 3);
        Self::lemma_select(so, 4);
        assert(Self::values(so, 1) =~= Seq::<Value>::empty());
        assert(Self::values(so, 4) =~= Seq::<Value>::empty());
        assert(select(a + b, 1) =~= Self::values(m, 1));
        assert(select(a + b, 4) =~= Self::values(m, 4));
        lemma_values(0, vstd::utf8::encode_utf8(m.flow_job_name), None, seq![]);
        lemma_values(0, vstd::utf8::encode_utf8(m.error_message), None, seq![]);
        assert(all_bytes(select(a + b, 2)));
        assert(all_bytes(select(a + b, 3)));
        assert(b =~= seq![g]);
        assert(a + b =~= a.push(g));
        assert(a.push(g).drop_last() =~= a);
        assert(a.push(g).last() == g);
        Self::lemma_oneof(m);
    }
}

} // verus!
