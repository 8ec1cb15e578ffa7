//! Requests and responses of the flow control service.
use vstd::prelude::*;
use crate::wire::{
    bits_to_i32, bytes_values, decode_fields, fields_ok, fields_wire, get_bytes, get_joined,
    get_varint, i32_bits, i32_to_bits, lemma_fields_ok, lemma_fields_wire_concat,
    lemma_int_bits, lemma_no_values, lemma_select_concat, lemma_select_uniform,
    lemma_tags_concat, lemma_values, message_values, models, put_bytes_scalar, put_message,
    put_varint_scalar, select, tags_ok, uniform, varint_values, DecodeError, Field, FieldModel,
    Value,
};
use crate::text::utf8_to_string;
use crate::opaque::{FlowConnectionConfigs, Peer, QRepConfig};

verus! {

/// Asks for a change-data-capture flow to be started.
#[derive(Clone, Debug, PartialEq, Default)]
pub struct CreateCdcFlowRequest {
    /// The configuration of the flow, if given.
    pub connection_configs: Option<FlowConnectionConfigs>,
    /// Whether to record the flow in the catalog.
    pub create_catalog_entry: bool,
}

/// The mathematical value of a [`CreateCdcFlowRequest`].
pub struct CreateCdcFlowRequestModel {
    pub connection_configs: Option<Seq<u8>>,
    pub create_catalog_entry: bool,
}

impl View for CreateCdcFlowRequest {
    type V = CreateCdcFlowRequestModel;

    open spec fn view(&self) -> CreateCdcFlowRequestModel {
        CreateCdcFlowRequestModel {
            connection_configs: match self.connection_configs {
                Some(x) => Some(x@),
                None => None,
            },
            create_catalog_entry: self.create_catalog_entry,
        }
    }
}

impl CreateCdcFlowRequest {
    /// The values of the fields numbered `tag` in the encoding of `m`.
    pub open spec fn values(m: CreateCdcFlowRequestModel, tag: u32) -> Seq<Value> {
        if tag == 1 {
            message_values(
                match m.connection_configs {
                    Some(x) => Some(FlowConnectionConfigs::wire(x)),
                    None => None,
                },
            )
        } else if tag == 2 {
            varint_values(if m.create_catalog_entry { 1 } else { 0 })
        } else {
            seq![]
        }
    }

    /// The fields of the encoding of `m`, in order of their numbers; a scalar
    /// that holds its default value is left out.
    pub open spec fn wire_fields(m: CreateCdcFlowRequestModel) -> Seq<FieldModel> {
        uniform(1, Self::values(m, 1)) + uniform(2, Self::values(m, 2))
    }

    /// The encoding of `m`.
    pub open spec fn wire(m: CreateCdcFlowRequestModel) -> Seq<u8> {
        fields_wire(Self::wire_fields(m))
    }

    proof fn lemma_select(m: CreateCdcFlowRequestModel, t: u32)
        ensures
            select(Self::wire_fields(m), t) == Self::values(m, t),
            tags_ok(Self::wire_fields(m)),
    {
        let s0 = uniform(1, Self::values(m, 1));
        lemma_select_uniform(1, Self::values(m, 1), t);
        assert(tags_ok(s0));
        let s1 = uniform(2, Self::values(m, 2));
        lemma_select_uniform(2, Self::values(m, 2), t);
        assert(tags_ok(s1));
        lemma_select_concat(s0, s1, t);
        lemma_tags_concat(s0, s1);
        assert(select(Self::wire_fields(m), t) =~= Self::values(m, t));
    }

    /// The protobuf encoding of the message.
    pub fn encode(&self) -> (r: Vec<u8>)
        ensures
            r@ == Self::wire(self@),
    {
        let mut buf: Vec<u8> = Vec::new();
        let ghost before1 = buf@;
        match &self.connection_configs {
            Some(x) => {
                let b = x.encode();
                put_message(&mut buf, 1, b.as_slice());
            },
            None => {
                proof {
                    lemma_no_values(1);
                }
                assert(buf@ =~= before1 + fields_wire(uniform(1, Self::values(self@, 1))));
            },
        }
        assert(buf@ =~= before1 + fields_wire(uniform(1, Self::values(self@, 1))));
        let ghost before2 = buf@;
        put_varint_scalar(&mut buf, 2, if self.create_catalog_entry { 1 } else { 0 });
        assert(buf@ =~= before2 + fields_wire(uniform(2, Self::values(self@, 2))));
        proof {
            let s0 = uniform(1, Self::values(self@, 1));
            let s1 = uniform(2, Self::values(self@, 2));
            lemma_fields_wire_concat(s0, s1);
        }
        assert(buf@ =~= Self::wire(self@));
        buf
    }

    fn from_fields(fs: &Vec<Field>) -> (r: Option<Self>)
        ensures
            forall|m: CreateCdcFlowRequestModel|
                #[trigger] Self::wire_fields(m) == models(fs@) ==> (r matches Some(d) && d@ == m),
    {
        let raw_connection_configs = get_joined(fs, 1);
        let raw_create_catalog_entry = get_varint(fs, 2);
        proof {
            assert forall|m: CreateCdcFlowRequestModel| #[trigger] Self::wire_fields(m) == models(fs@) implies {
                &&& (raw_connection_configs matches Some(o) && (o is Some <==> m.connection_configs is Some) && (m.connection_configs matches Some(x) ==> o matches Some(b) && b@ == FlowConnectionConfigs::wire(x)))
                &&& (raw_create_catalog_entry == Some((if m.create_catalog_entry { 1u64 } else { 0u64 })))
            } by {
                Self::lemma_select(m, 1);
                Self::lemma_select(m, 2);
                lemma_values(0, seq![], match m.connection_configs {
                    Some(x) => Some(FlowConnectionConfigs::wire(x)),
                    None => None,
                }, seq![]);
                lemma_values(if m.create_catalog_entry { 1 } else { 0 }, seq![], None, seq![]);
            }
        }
        let connection_configs = match raw_connection_configs {
            Some(Some(b)) => match FlowConnectionConfigs::decode(b.as_slice()) {
                Ok(x) => Some(x),
                Err(_) => return None,
            },
            Some(None) => None,
            None => return None,
        };
        let create_catalog_entry = match raw_create_catalog_entry {
            Some(v) => v != 0,
            None => return None,
        };
        let d = CreateCdcFlowRequest { connection_configs, create_catalog_entry };
        proof {
            assert forall|m: CreateCdcFlowRequestModel| #[trigger] Self::wire_fields(m) == models(fs@) implies d@ == m by {
            }
        }
        Some(d)
    }

    /// Reads a message from its protobuf encoding. Unknown fields are
    /// skipped; bytes that are not a well-formed encoding fail. The encoding
    /// of any message reads back as that message.
    pub fn decode(bytes: &[u8]) -> (r: Result<Self, DecodeError>)
        ensures
            forall|m: CreateCdcFlowRequestModel| #[trigger] Self::wire(m) == bytes@ ==> (r matches Ok(d) && d@ == m),
    {
        proof {
            assert(bytes@.len() == bytes.len());
            assert forall|m: CreateCdcFlowRequestModel| #[trigger] Self::wire(m) == bytes@ implies fields_ok(
                Self::wire_fields(m),
            ) by {
                Self::lemma_select(m, 0);
                lemma_fields_ok(Self::wire_fields(m));
            }
        }
        let fs = match decode_fields(bytes) {
            Some(fs) => fs,
            None => return Err(DecodeError),
        };
        match Self::from_fields(&fs) {
            Some(d) => Ok(d),
            None => Err(DecodeError),
        }
    }

}

/// Answers a request to start a change-data-capture flow.
#[derive(Clone, Debug, PartialEq, Default)]
pub struct CreateCdcFlowResponse {
    /// The id of the workflow that runs the flow.
    pub worflow_id: String,
}

/// The mathematical value of a [`CreateCdcFlowResponse`].
pub struct CreateCdcFlowResponseModel {
    pub worflow_id: Seq<char>,
}

impl View for CreateCdcFlowResponse {
    type V = CreateCdcFlowResponseModel;

    open spec fn view(&self) -> CreateCdcFlowResponseModel {
        CreateCdcFlowResponseModel {
            worflow_id: self.worflow_id@,
        }
    }
}

impl CreateCdcFlowResponse {
    /// The values of the fields numbered `tag` in the encoding of `m`.
    pub open spec fn values(m: CreateCdcFlowResponseModel, tag: u32) -> Seq<Value> {
        if tag == 1 {
            bytes_values(vstd::utf8::encode_utf8(m.worflow_id))
        } else {
            seq![]
        }
    }

    /// The fields of the encoding of `m`, in order of their numbers; a scalar
    /// that holds its default value is left out.
    pub open spec fn wire_fields(m: CreateCdcFlowResponseModel) -> Seq<FieldModel> {
        uniform(1, Self::values(m, 1))
    }

    /// The encoding of `m`.
    pub open spec fn wire(m: CreateCdcFlowResponseModel) -> Seq<u8> {
        fields_wire(Self::wire_fields(m))
    }

    proof fn lemma_select(m: CreateCdcFlowResponseModel, t: u32)
        ensures
            select(Self::wire_fields(m), t) == Self::values(m, t),
            tags_ok(Self::wire_fields(m)),
    {
        let s0 = uniform(1, Self::values(m, 1));
        lemma_select_uniform(1, Self::values(m, 1), t);
        assert(tags_ok(s0));
        assert(select(Self::wire_fields(m), t) =~= Self::values(m, t));
    }

    /// The protobuf encoding of the message.
    pub fn encode(&self) -> (r: Vec<u8>)
        ensures
            r@ == Self::wire(self@),
    {
        let mut buf: Vec<u8> = Vec::new();
        let ghost before1 = buf@;
        put_bytes_scalar(&mut buf, 1, self.worflow_id.as_str().as_bytes());
        assert(buf@ =~= before1 + fields_wire(uniform(1, Self::values(self@, 1))));
        proof {
            let s0 = uniform(1, Self::values(self@, 1));
        }
        assert(buf@ =~= Self::wire(self@));
        buf
    }

    fn from_fields(fs: &Vec<Field>) -> (r: Option<Self>)
        ensures
            forall|m: CreateCdcFlowResponseModel|
                #[trigger] Self::wire_fields(m) == models(fs@) ==> (r matches Some(d) && d@ == m),
    {
        let raw_worflow_id = get_bytes(fs, 1);
        proof {
            assert forall|m: CreateCdcFlowResponseModel| #[trigger] Self::wire_fields(m) == models(fs@) implies {
                &&& (raw_worflow_id matches Some(b) && b@ == vstd::utf8::encode_utf8(m.worflow_id))
            } by {
                Self::lemma_select(m, 1);
                lemma_values(0, vstd::utf8::encode_utf8(m.worflow_id), None, seq![]);
            }
        }
        let worflow_id = match raw_worflow_id {
            Some(b) => match utf8_to_string(b) {
                Some(s) => s,
                None => return None,
            },
            None => return None,
        };
        let d = CreateCdcFlowResponse { worflow_id };
        proof {
            assert forall|m: CreateCdcFlowResponseModel| #[trigger] Self::wire_fields(m) == models(fs@) implies d@ == m by {
            }
        }
        Some(d)
    }

    /// Reads a message from its protobuf encoding. Unknown fields are
    /// skipped; bytes that are not a well-formed encoding fail. The encoding
    /// of any message reads back as that message.
    pub fn decode(bytes: &[u8]) -> (r: Result<Self, DecodeError>)
        ensures
            forall|m: CreateCdcFlowResponseModel| #[trigger] Self::wire(m) == bytes@ ==> (r matches Ok(d) && d@ == m),
    {
        proof {
            assert(bytes@.len() == bytes.len());
            assert forall|m: CreateCdcFlowResponseModel| #[trigger] Self::wire(m) == bytes@ implies fields_ok(
                Self::wire_fields(m),
            ) by {
                Self::lemma_select(m, 0);
                lemma_fields_ok(Self::wire_fields(m));
            }
        }
        let fs = match decode_fields(bytes) {
            Some(fs) => fs,
            None => return Err(DecodeError),
        };
        match Self::from_fields(&fs) {
            Some(d) => Ok(d),
            None => Err(DecodeError),
        }
    }

}

/// Asks for a query-replication flow to be started.
#[derive(Clone, Debug, PartialEq, Default)]
pub struct CreateQRepFlowRequest {
    /// The configuration of the flow, if given.
    pub qrep_config: Option<QRepConfig>,
    /// Whether to record the flow in the catalog.
    pub create_catalog_entry: bool,
}

/// The mathematical value of a [`CreateQRepFlowRequest`].
pub struct CreateQRepFlowRequestModel {
    pub qrep_config: Option<Seq<u8>>,
    pub create_catalog_entry: bool,
}

impl View for CreateQRepFlowRequest {
    type V = CreateQRepFlowRequestModel;

    open spec fn view(&self) -> CreateQRepFlowRequestModel {
        CreateQRepFlowRequestModel {
            qrep_config: match self.qrep_config {
                Some(x) => Some(x@),
                None => None,
            },
            create_catalog_entry: self.create_catalog_entry,
        }
    }
}

impl CreateQRepFlowRequest {
    /// The values of the fields numbered `tag` in the encoding of `m`.
    pub open spec fn values(m: CreateQRepFlowRequestModel, tag: u32) -> Seq<Value> {
        if tag == 1 {
            message_values(
                match m.qrep_config {
                    Some(x) => Some(QRepConfig::wire(x)),
                    None => None,
                },
            )
        } else if tag == 2 {
            varint_values(if m.create_catalog_entry { 1 } else { 0 })
        } else {
            seq![]
        }
    }

    /// The fields of the encoding of `m`, in order of their numbers; a scalar
    /// that holds its default value is left out.
    pub open spec fn wire_fields(m: CreateQRepFlowRequestModel) -> Seq<FieldModel> {
        uniform(1, Self::values(m, 1)) + uniform(2, Self::values(m, 2))
    }

    /// The encoding of `m`.
    pub open spec fn wire(m: CreateQRepFlowRequestModel) -> Seq<u8> {
        fields_wire(Self::wire_fields(m))
    }

    proof fn lemma_select(m: CreateQRepFlowRequestModel, t: u32)
        ensures
            select(Self::wire_fields(m), t) == Self::values(m, t),
            tags_ok(Self::wire_fields(m)),
    {
        let s0 = uniform(1, Self::values(m, 1));
        lemma_select_uniform(1, Self::values(m, 1), t);
        assert(tags_ok(s0));
        let s1 = uniform(2, Self::values(m, 2));
        lemma_select_uniform(2, Self::values(m, 2), t);
        assert(tags_ok(s1));
        lemma_select_concat(s0, s1, t);
        lemma_tags_concat(s0, s1);
        assert(select(Self::wire_fields(m), t) =~= Self::values(m, t));
    }

    /// The protobuf encoding of the message.
    pub fn encode(&self) -> (r: Vec<u8>)
        ensures
            r@ == Self::wire(self@),
    {
        let mut buf: Vec<u8> = Vec::new();
        let ghost before1 = buf@;
        match &self.qrep_config {
            Some(x) => {
                let b = x.encode();
                put_message(&mut buf, 1, b.as_slice());
            },
            None => {
                proof {
                    lemma_no_values(1);
                }
                assert(buf@ =~= before1 + fields_wire(uniform(1, Self::values(self@, 1))));
            },
        }
        assert(buf@ =~= before1 + fields_wire(uniform(1, Self::values(self@, 1))));
        let ghost before2 = buf@;
        put_varint_scalar(&mut buf, 2, if self.create_catalog_entry { 1 } else { 0 });
        assert(buf@ =~= before2 + fields_wire(uniform(2, Self::values(self@, 2))));
        proof {
            let s0 = uniform(1, Self::values(self@, 1));
            let s1 = uniform(2, Self::values(self@, 2));
            lemma_fields_wire_concat(s0, s1);
        }
        assert(buf@ =~= Self::wire(self@));
        buf
    }

    fn from_fields(fs: &Vec<Field>) -> (r: Option<Self>)
        ensures
            forall|m: CreateQRepFlowRequestModel|
                #[trigger] Self::wire_fields(m) == models(fs@) ==> (r matches Some(d) && d@ == m),
    {
        let raw_qrep_config = get_joined(fs, 1);
        let raw_create_catalog_entry = get_varint(fs, 2);
        proof {
            assert forall|m: CreateQRepFlowRequestModel| #[trigger] Self::wire_fields(m) == models(fs@) implies {
                &&& (raw_qrep_config matches Some(o) && (o is Some <==> m.qrep_config is Some) && (m.qrep_config matches Some(x) ==> o matches Some(b) && b@ == QRepConfig::wire(x)))
                &&& (raw_create_catalog_entry == Some((if m.create_catalog_entry { 1u64 } else { 0u64 })))
            } by {
                Self::lemma_select(m, 1);
                Self::lemma_select(m, 2);
                lemma_values(0, seq![], match m.qrep_config {
                    Some(x) => Some(QRepConfig::wire(x)),
                    None => None,
                }, seq![]);
                lemma_values(if m.create_catalog_entry { 1 } else { 0 }, seq![], None, seq![]);
            }
        }
        let qrep_config = match raw_qrep_config {
            Some(Some(b)) => match QRepConfig::decode(b.as_slice()) {
                Ok(x) => Some(x),
                Err(_) => return None,
            },
            Some(None) => None,
            None => return None,
        };
        let create_catalog_entry = match raw_create_catalog_entry {
            Some(v) => v != 0,
            None => return None,
        };
        let d = CreateQRepFlowRequest { qrep_config, create_catalog_entry };
        proof {
            assert forall|m: CreateQRepFlowRequestModel| #[trigger] Self::wire_fields(m) == models(fs@) implies d@ == m by {
            }
        }
        Some(d)
    }

    /// Reads a message from its protobuf encoding. Unknown fields are
    /// skipped; bytes that are not a well-formed encoding fail. The encoding
    /// of any message reads back as that message.
    pub fn decode(bytes: &[u8]) -> (r: Result<Self, DecodeError>)
        ensures
            forall|m: CreateQRepFlowRequestModel| #[trigger] Self::wire(m) == bytes@ ==> (r matches Ok(d) && d@ == m),
    {
        proof {
            assert(bytes@.len() == bytes.len());
            assert forall|m: CreateQRepFlowRequestModel| #[trigger] Self::wire(m) == bytes@ implies fields_ok(
                Self::wire_fields(m),
            ) by {
                Self::lemma_select(m, 0);
                lemma_fields_ok(Self::wire_fields(m));
            }
        }
        let fs = match decode_fields(bytes) {
            Some(fs) => fs,
            None => return Err(DecodeError),
        };
        match Self::from_fields(&fs) {
            Some(d) => Ok(d),
            None => Err(DecodeError),
        }
    }

}

/// Answers a request to start a query-replication flow.
#[derive(Clone, Debug, PartialEq, Default)]
pub struct CreateQRepFlowResponse {
    /// The id of the workflow that runs the flow.
    pub worflow_id: String,
}

/// The mathematical value of a [`CreateQRepFlowResponse`].
pub struct CreateQRepFlowResponseModel {
    pub worflow_id: Seq<char>,
}

impl View for CreateQRepFlowResponse {
    type V = CreateQRepFlowResponseModel;

    open spec fn view(&self) -> CreateQRepFlowResponseModel {
        CreateQRepFlowResponseModel {
            worflow_id: self.worflow_id@,
        }
    }
}

impl CreateQRepFlowResponse {
    /// The values of the fields numbered `tag` in the encoding of `m`.
    pub open spec fn values(m: CreateQRepFlowResponseModel, tag: u32) -> Seq<Value> {
        if tag == 1 {
            bytes_values(vstd::utf8::encode_utf8(m.worflow_id))
        } else {
            seq![]
        }
    }

    /// The fields of the encoding of `m`, in order of their numbers; a scalar
    /// that holds its default value is left out.
    pub open spec fn wire_fields(m: CreateQRepFlowResponseModel) -> Seq<FieldModel> {
        uniform(1, Self::values(m, 1))
    }

    /// The encoding of `m`.
    pub open spec fn wire(m: CreateQRepFlowResponseModel) -> Seq<u8> {
        fields_wire(Self::wire_fields(m))
    }

    proof fn lemma_select(m: CreateQRepFlowResponseModel, t: u32)
        ensures
            select(Self::wire_fields(m), t) == Self::values(m, t),
            tags_ok(Self::wire_fields(m)),
    {
        let s0 = uniform(1, Self::values(m, 1));
        lemma_select_uniform(1, Self::values(m, 1), t);
        assert(tags_ok(s0));
        assert(select(Self::wire_fields(m), t) =~= Self::values(m, t));
    }

    /// The protobuf encoding of the message.
    pub fn encode(&self) -> (r: Vec<u8>)
        ensures
            r@ == Self::wire(self@),
    {
        let mut buf: Vec<u8> = Vec::new();
        let ghost before1 = buf@;
        put_bytes_scalar(&mut buf, 1, self.worflow_id.as_str().as_bytes());
        assert(buf@ =~= before1 + fields_wire(uniform(1, Self::values(self@, 1))));
        proof {
            let s0 = uniform(1, Self::values(self@, 1));
        }
        assert(buf@ =~= Self::wire(self@));
        buf
    }

    fn from_fields(fs: &Vec<Field>) -> (r: Option<Self>)
        ensures
            forall|m: CreateQRepFlowResponseModel|
                #[trigger] Self::wire_fields(m) == models(fs@) ==> (r matches Some(d) && d@ == m),
    {
        let raw_worflow_id = get_bytes(fs, 1);
        proof {
            assert forall|m: CreateQRepFlowResponseModel| #[trigger] Self::wire_fields(m) == models(fs@) implies {
                &&& (raw_worflow_id matches Some(b) && b@ == vstd::utf8::encode_utf8(m.worflow_id))
            } by {
                Self::lemma_select(m, 1);
                lemma_values(0, vstd::utf8::encode_utf8(m.worflow_id), None, seq![]);
            }
        }
        let worflow_id = match raw_worflow_id {
            Some(b) => match utf8_to_string(b) {
                Some(s) => s,
                None => return None,
            },
            None => return None,
        };
        let d = CreateQRepFlowResponse { worflow_id };
        proof {
            assert forall|m: CreateQRepFlowResponseModel| #[trigger] Self::wire_fields(m) == models(fs@) implies d@ == m by {
            }
        }
        Some(d)
    }

    /// Reads a message from its protobuf encoding. Unknown fields are
    /// skipped; bytes that are not a well-formed encoding fail. The encoding
    /// of any message reads back as that message.
    pub fn decode(bytes: &[u8]) -> (r: Result<Self, DecodeError>)
        ensures
            forall|m: CreateQRepFlowResponseModel| #[trigger] Self::wire(m) == bytes@ ==> (r matches Ok(d) && d@ == m),
    {
        proof {
            assert(bytes@.len() == bytes.len());
            assert forall|m: CreateQRepFlowResponseModel| #[trigger] Self::wire(m) == bytes@ implies fields_ok(
                Self::wire_fields(m),
            ) by {
                Self::lemma_select(m, 0);
                lemma_fields_ok(Self::wire_fields(m));
            }
        }
        let fs = match decode_fields(bytes) {
            Some(fs) => fs,
            None => return Err(DecodeError),
        };
        match Self::from_fields(&fs) {
            Some(d) => Ok(d),
            None => Err(DecodeError),
        }
    }

}

/// Asks for a running flow to be shut down.
#[derive(Clone, Debug, PartialEq, Default)]
pub struct ShutdownRequest {
    /// The id of the workflow that runs the flow.
    pub workflow_id: String,
    /// The name of the flow job.
    pub flow_job_name: String,
    /// The peer the flow reads from, if given.
    pub source_peer: Option<Peer>,
    /// The peer the flow writes to, if given.
    pub destination_peer: Option<Peer>,
}

/// The mathematical value of a [`ShutdownRequest`].
pub struct ShutdownRequestModel {
    pub workflow_id: Seq<char>,
    pub flow_job_name: Seq<char>,
    pub source_peer: Option<Seq<u8>>,
    pub destination_peer: Option<Seq<u8>>,
}

impl View for ShutdownRequest {
    type V = ShutdownRequestModel;

    open spec fn view(&self) -> ShutdownRequestModel {
        ShutdownRequestModel {
            workflow_id: self.workflow_id@,
            flow_job_name: self.flow_job_name@,
            source_peer: match self.source_peer {
                Some(x) => Some(x@),
                None => None,
            },
            destination_peer: match self.destination_peer {
                Some(x) => Some(x@),
                None => None,
            },
        }
    }
}

impl ShutdownRequest {
    /// The values of the fields numbered `tag` in the encoding of `m`.
    pub open spec fn values(m: ShutdownRequestModel, tag: u32) -> Seq<Value> {
        if tag == 1 {
            bytes_values(vstd::utf8::encode_utf8(m.workflow_id))
        } else if tag == 2 {
            bytes_values(vstd::utf8::encode_utf8(m.flow_job_name))
        } else if tag == 3 {
            message_values(
                match m.source_peer {
                    Some(x) => Some(Peer::wire(x)),
                    None => None,
                },
            )
        } else if tag == 4 {
            message_values(
                match m.destination_peer {
                    Some(x) => Some(Peer::wire(x)),
                    None => None,
                },
            )
        } else {
            seq![]
        }
    }

    /// The fields of the encoding of `m`, in order of their numbers; a scalar
    /// that holds its default value is left out.
    pub open spec fn wire_fields(m: ShutdownRequestModel) -> Seq<FieldModel> {
        uniform(1, Self::values(m, 1)) + uniform(2, Self::values(m, 2)) + uniform(3, Self::values(m, 3)) + uniform(4, Self::values(m, 4))
    }

    /// The encoding of `m`.
    pub open spec fn wire(m: ShutdownRequestModel) -> Seq<u8> {
        fields_wire(Self::wire_fields(m))
    }

    proof fn lemma_select(m: ShutdownRequestModel, t: u32)
        ensures
            select(Self::wire_fields(m), t) == Self::values(m, t),
            tags_ok(Self::wire_fields(m)),
    {
        let s0 = uniform(1, Self::values(m, 1));
        lemma_select_uniform(1, Self::values(m, 1), t);
        assert(tags_ok(s0));
        let s1 = uniform(2, Self::values(m, 2));
        lemma_select_uniform(2, Self::values(m, 2), t);
        assert(tags_ok(s1));
        let s2 = uniform(3, Self::values(m, 3));
        lemma_select_uniform(3, Self::values(m, 3), t);
        assert(tags_ok(s2));
        let s3 = uniform(4, Self::values(m, 4));
        lemma_select_uniform(4, Self::values(m, 4), t);
        assert(tags_ok(s3));
        lemma_select_concat(s0, s1, t);
        lemma_tags_concat(s0, s1);
        lemma_select_concat(s0 + s1, s2, t);
        lemma_tags_concat(s0 + s1, s2);
        lemma_select_concat((s0 + s1) + s2, s3, t);
        lemma_tags_concat((s0 + s1) + s2, s3);
        assert(select(Self::wire_fields(m), t) =~= Self::values(m, t));
    }

    /// The protobuf encoding of the message.
    pub fn encode(&self) -> (r: Vec<u8>)
        ensures
            r@ == Self::wire(self@),
    {
        let mut buf: Vec<u8> = Vec::new();
        let ghost before1 = buf@;
        put_bytes_scalar(&mut buf, 1, self.workflow_id.as_str().as_bytes());
        assert(buf@ =~= before1 + fields_wire(uniform(1, Self::values(self@, 1))));
        let ghost before2 = buf@;
        put_bytes_scalar(&mut buf, 2, self.flow_job_name.as_str().as_bytes());
        assert(buf@ =~= before2 + fields_wire(uniform(2, Self::values(self@, 2))));
        let ghost before3 = buf@;
        match &self.source_peer {
            Some(x) => {
                let b = x.encode();
                put_message(&mut buf, 3, b.as_slice());
            },
            None => {
                proof {
                    lemma_no_values(3);
                }
                assert(buf@ =~= before3 + fields_wire(uniform(3, Self::values(self@, 3))));
            },
        }
        assert(buf@ =~= before3 + fields_wire(uniform(3, Self::values(self@, 3))));
        let ghost before4 = buf@;
        match &self.destination_peer {
            Some(x) => {
                let b = x.encode();
                put_message(&mut buf, 4, b.as_slice());
            },
            None => {
                proof {
                    lemma_no_values(4);
                }
                assert(buf@ =~= before4 + fields_wire(uniform(4, Self::values(self@, 4))));
            },
        }
        assert(buf@ =~= before4 + fields_wire(uniform(4, Self::values(self@, 4))));
        proof {
            let s0 = uniform(1, Self::values(self@, 1));
            let s1 = uniform(2, Self::values(self@, 2));
            let s2 = uniform(3, Self::values(self@, 3));
            let s3 = uniform(4, Self::values(self@, 4));
            lemma_fields_wire_concat(s0, s1);
            lemma_fields_wire_concat(s0 + s1, s2);
            lemma_fields_wire_concat((s0 + s1) + s2, s3);
        }
        assert(buf@ =~= Self::wire(self@));
        buf
    }

    fn from_fields(fs: &Vec<Field>) -> (r: Option<Self>)
        ensures
            forall|m: ShutdownRequestModel|
                #[trigger] Self::wire_fields(m) == models(fs@) ==> (r matches Some(d) && d@ == m),
    {
        let raw_workflow_id = get_bytes(fs, 1);
        let raw_flow_job_name = get_bytes(fs, 2);
        let raw_source_peer = get_joined(fs, 3);
        let raw_destination_peer = get_joined(fs, 4);
        proof {
            assert forall|m: ShutdownRequestModel| #[trigger] Self::wire_fields(m) == models(fs@) implies {
                &&& (raw_workflow_id matches Some(b) && b@ == vstd::utf8::encode_utf8(m.workflow_id))
                &&& (raw_flow_job_name matches Some(b) && b@ == vstd::utf8::encode_utf8(m.flow_job_name))
                &&& (raw_source_peer matches Some(o) && (o is Some <==> m.source_peer is Some) && (m.source_peer matches Some(x) ==> o matches Some(b) && b@ == Peer::wire(x)))
                &&& (raw_destination_peer matches Some(o) && (o is Some <==> m.destination_peer is Some) && (m.destination_peer matches Some(x) ==> o matches Some(b) && b@ == Peer::wire(x)))
            } by {
                Self::lemma_select(m, 1);
                Self::lemma_select(m, 2);
                Self::lemma_select(m, 3);
                Self::lemma_select(m, 4);
                lemma_values(0, vstd::utf8::encode_utf8(m.workflow_id), None, seq![]);
                lemma_values(0, vstd::utf8::encode_utf8(m.flow_job_name), None, seq![]);
                lemma_values(0, seq![], match m.source_peer {
                    Some(x) => Some(Peer::wire(x)),
                    None => None,
                }, seq![]);
                lemma_values(0, seq![], match m.destination_peer {
                    Some(x) => Some(Peer::wire(x)),
                    None => None,
                }, seq![]);
            }
        }
        let workflow_id = match raw_workflow_id {
            Some(b) => match utf8_to_string(b) {
                Some(s) => s,
                None => return None,
            },
            None => return None,
        };
        let flow_job_name = match raw_flow_job_name {
            Some(b) => match utf8_to_string(b) {
                Some(s) => s,
                None => return None,
            },
            None => return None,
        };
        let source_peer = match raw_source_peer {
            Some(Some(b)) => match Peer::decode(b.as_slice()) {
                Ok(x) => Some(x),
                Err(_) => return None,
            },
            Some(None) => None,
            None => return None,
        };
        let destination_peer = match raw_destination_peer {
            Some(Some(b)) => match Peer::decode(b.as_slice()) {
                Ok(x) => Some(x),
                Err(_) => return None,
            },
            Some(None) => None,
            None => return None,
        };
        let d = ShutdownRequest { workflow_id, flow_job_name, source_peer, destination_peer };
        proof {
            assert forall|m: ShutdownRequestModel| #[trigger] Self::wire_fields(m) == models(fs@) implies d@ == m by {
            }
        }
        Some(d)
    }

    /// Reads a message from its protobuf encoding. Unknown fields are
    /// skipped; bytes that are not a well-formed encoding fail. The encoding
    /// of any message reads back as that message.
    pub fn decode(bytes: &[u8]) -> (r: Result<Self, DecodeError>)
        ensures
            forall|m: ShutdownRequestModel| #[trigger] Self::wire(m) == bytes@ ==> (r matches Ok(d) && d@ == m),
    {
        proof {
            assert(bytes@.len() == bytes.len());
            assert forall|m: ShutdownRequestModel| #[trigger] Self::wire(m) == bytes@ implies fields_ok(
                Self::wire_fields(m),
            ) by {
                Self::lemma_select(m, 0);
                lemma_fields_ok(Self::wire_fields(m));
            }
        }
        let fs = match decode_fields(bytes) {
            Some(fs) => fs,
            None => return Err(DecodeError),
        };
        match Self::from_fields(&fs) {
            Some(d) => Ok(d),
            None => Err(DecodeError),
        }
    }

}

/// Answers a shutdown request.
#[derive(Clone, Debug, PartialEq, Default)]
pub struct ShutdownResponse {
    /// Whether the flow was shut down.
    pub ok: bool,
    /// What went wrong, where something did.
    pub error_message: String,
}

/// The mathematical value of a [`ShutdownResponse`].
pub struct ShutdownResponseModel {
    pub ok: bool,
    pub error_message: Seq<char>,
}

impl View for ShutdownResponse {
    type V = ShutdownResponseModel;

    open spec fn view(&self) -> ShutdownResponseModel {
        ShutdownResponseModel {
            ok: self.ok,
            error_message: self.error_message@,
        }
    }
}

impl ShutdownResponse {
    /// The values of the fields numbered `tag` in the encoding of `m`.
    pub open spec fn values(m: ShutdownResponseModel, tag: u32) -> Seq<Value> {
        if tag == 1 {
            varint_values(if m.ok { 1 } else { 0 })
        } else if tag == 2 {
            bytes_values(vstd::utf8::encode_utf8(m.error_message))
        } else {
            seq![]
        }
    }

    /// The fields of the encoding of `m`, in order of their numbers; a scalar
    /// that holds its default value is left out.
    pub open spec fn wire_fields(m: ShutdownResponseModel) -> Seq<FieldModel> {
        uniform(1, Self::values(m, 1)) + uniform(2, Self::values(m, 2))
    }

    /// The encoding of `m`.
    pub open spec fn wire(m: ShutdownResponseModel) -> Seq<u8> {
        fields_wire(Self::wire_fields(m))
    }

    proof fn lemma_select(m: ShutdownResponseModel, t: u32)
        ensures
            select(Self::wire_fields(m), t) == Self::values(m, t),
            tags_ok(Self::wire_fields(m)),
    {
        let s0 = uniform(1, Self::values(m, 1));
        lemma_select_uniform(1, Self::values(m, 1), t);
        assert(tags_ok(s0));
        let s1 = uniform(2, Self::values(m, 2));
        lemma_select_uniform(2, Self::values(m, 2), t);
        assert(tags_ok(s1));
        lemma_select_concat(s0, s1, t);
        lemma_tags_concat(s0, s1);
        assert(select(Self::wire_fields(m), t) =~= Self::values(m, t));
    }

    /// The protobuf encoding of the message.
    pub fn encode(&self) -> (r: Vec<u8>)
        ensures
            r@ == Self::wire(self@),
    {
        let mut buf: Vec<u8> = Vec::new();
        let ghost before1 = buf@;
        put_varint_scalar(&mut buf, 1, if self.ok { 1 } else { 0 });
        assert(buf@ =~= before1 + fields_wire(uniform(1, Self::values(self@, 1))));
        let ghost before2 = buf@;
        put_bytes_scalar(&mut buf, 2, self.error_message.as_str().as_bytes());
        assert(buf@ =~= before2 + fields_wire(uniform(2, Self::values(self@, 2))));
        proof {
            let s0 = uniform(1, Self::values(self@, 1));
            let s1 = uniform(2, Self::values(self@, 2));
            lemma_fields_wire_concat(s0, s1);
        }
        assert(buf@ =~= Self::wire(self@));
        buf
    }

    fn from_fields(fs: &Vec<Field>) -> (r: Option<Self>)
        ensures
            forall|m: ShutdownResponseModel|
                #[trigger] Self::wire_fields(m) == models(fs@) ==> (r matches Some(d) && d@ == m),
    {
        let raw_ok = get_varint(fs, 1);
        let raw_error_message = get_bytes(fs, 2);
        proof {
            assert forall|m: ShutdownResponseModel| #[trigger] Self::wire_fields(m) == models(fs@) implies {
                &&& (raw_ok == Some((if m.ok { 1u64 } else { 0u64 })))
                &&& (raw_error_message matches Some(b) && b@ == vstd::utf8::encode_utf8(m.error_message))
            } by {
                Self::lemma_select(m, 1);
                Self::lemma_select(m, 2);
                lemma_values(if m.ok { 1 } else { 0 }, seq![], None, seq![]);
                lemma_values(0, vstd::utf8::encode_utf8(m.error_message), None, seq![]);
            }
        }
        let ok = match raw_ok {
            Some(v) => v != 0,
            None => return None,
        };
        let error_message = match raw_error_message {
            Some(b) => match utf8_to_string(b) {
                Some(s) => s,
                None => return None,
            },
            None => return None,
        };
        let d = ShutdownResponse { ok, error_message };
        proof {
            assert forall|m: ShutdownResponseModel| #[trigger] Self::wire_fields(m) == models(fs@) implies d@ == m by {
            }
        }
        Some(d)
    }

    /// Reads a message from its protobuf encoding. Unknown fields are
    /// skipped; bytes that are not a well-formed encoding fail. The encoding
    /// of any message reads back as that message.
    pub fn decode(bytes: &[u8]) -> (r: Result<Self, DecodeError>)
        ensures
            forall|m: ShutdownResponseModel| #[trigger] Self::wire(m) == bytes@ ==> (r matches Ok(d) && d@ == m),
    {
        proof {
            assert(bytes@.len() == bytes.len());
            assert forall|m: ShutdownResponseModel| #[trigger] Self::wire(m) == bytes@ implies fields_ok(
                Self::wire_fields(m),
            ) by {
                Self::lemma_select(m, 0);
                lemma_fields_ok(Self::wire_fields(m));
            }
        }
        let fs = match decode_fields(bytes) {
            Some(fs) => fs,
            None => return Err(DecodeError),
        };
        match Self::from_fields(&fs) {
            Some(d) => Ok(d),
            None => Err(DecodeError),
        }
    }

}

/// Asks for a peer to be checked before use.
#[derive(Clone, Debug, PartialEq, Default)]
pub struct ValidatePeerRequest {
    /// The peer to check, if given.
    pub peer: Option<Peer>,
}

/// The mathematical value of a [`ValidatePeerRequest`].
pub struct ValidatePeerRequestModel {
    pub peer: Option<Seq<u8>>,
}

impl View for ValidatePeerRequest {
    type V = ValidatePeerRequestModel;

    open spec fn view(&self) -> ValidatePeerRequestModel {
        ValidatePeerRequestModel {
            peer: match self.peer {
                Some(x) => Some(x@),
                None => None,
            },
        }
    }
}

impl ValidatePeerRequest {
    /// The values of the fields numbered `tag` in the encoding of `m`.
    pub open spec fn values(m: ValidatePeerRequestModel, tag: u32) -> Seq<Value> {
        if tag == 1 {
            message_values(
                match m.peer {
                    Some(x) => Some(Peer::wire(x)),
                    None => None,
                },
            )
        } else {
            seq![]
        }
    }

    /// The fields of the encoding of `m`, in order of their numbers; a scalar
    /// that holds its default value is left out.
    pub open spec fn wire_fields(m: ValidatePeerRequestModel) -> Seq<FieldModel> {
        uniform(1, Self::values(m, 1))
    }

    /// The encoding of `m`.
    pub open spec fn wire(m: ValidatePeerRequestModel) -> Seq<u8> {
        fields_wire(Self::wire_fields(m))
    }

    proof fn lemma_select(m: ValidatePeerRequestModel, t: u32)
        ensures
            select(Self::wire_fields(m), t) == Self::values(m, t),
            tags_ok(Self::wire_fields(m)),
    {
        let s0 = uniform(1, Self::values(m, 1));
        lemma_select_uniform(1, Self::values(m, 1), t);
        assert(tags_ok(s0));
        assert(select(Self::wire_fields(m), t) =~= Self::values(m, t));
    }

    /// The protobuf encoding of the message.
    pub fn encode(&self) -> (r: Vec<u8>)
        ensures
            r@ == Self::wire(self@),
    {
        let mut buf: Vec<u8> = Vec::new();
        let ghost before1 = buf@;
        match &self.peer {
            Some(x) => {
                let b = x.encode();
                put_message(&mut buf, 1, b.as_slice());
            },
            None => {
                proof {
                    lemma_no_values(1);
                }
                assert(buf@ =~= before1 + fields_wire(uniform(1, Self::values(self@, 1))));
            },
        }
        assert(buf@ =~= before1 + fields_wire(uniform(1, Self::values(self@, 1))));
        proof {
            let s0 = uniform(1, Self::values(self@, 1));
        }
        assert(buf@ =~= Self::wire(self@));
        buf
    }

    fn from_fields(fs: &Vec<Field>) -> (r: Option<Self>)
        ensures
            forall|m: ValidatePeerRequestModel|
                #[trigger] Self::wire_fields(m) == models(fs@) ==> (r matches Some(d) && d@ == m),
    {
        let raw_peer = get_joined(fs, 1);
        proof {
            assert forall|m: ValidatePeerRequestModel| #[trigger] Self::wire_fields(m) == models(fs@) implies {
                &&& (raw_peer matches Some(o) && (o is Some <==> m.peer is Some) && (m.peer matches Some(x) ==> o matches Some(b) && b@ == Peer::wire(x)))
            } by {
                Self::lemma_select(m, 1);
                lemma_values(0, seq![], match m.peer {
                    Some(x) => Some(Peer::wire(x)),
                    None => None,
                }, seq![]);
            }
        }
        let peer = match raw_peer {
            Some(Some(b)) => match Peer::decode(b.as_slice()) {
                Ok(x) => Some(x),
                Err(_) => return None,
            },
            Some(None) => None,
            None => return None,
        };
        let d = ValidatePeerRequest { peer };
        proof {
            assert forall|m: ValidatePeerRequestModel| #[trigger] Self::wire_fields(m) == models(fs@) implies d@ == m by {
            }
        }
        Some(d)
    }

    /// Reads a message from its protobuf encoding. Unknown fields are
    /// skipped; bytes that are not a well-formed encoding fail. The encoding
    /// of any message reads back as that message.
    pub fn decode(bytes: &[u8]) -> (r: Result<Self, DecodeError>)
        ensures
            forall|m: ValidatePeerRequestModel| #[trigger] Self::wire(m) == bytes@ ==> (r matches Ok(d) && d@ == m),
    {
        proof {
            assert(bytes@.len() == bytes.len());
            assert forall|m: ValidatePeerRequestModel| #[trigger] Self::wire(m) == bytes@ implies fields_ok(
                Self::wire_fields(m),
            ) by {
                Self::lemma_select(m, 0);
                lemma_fields_ok(Self::wire_fields(m));
            }
        }
        let fs = match decode_fields(bytes) {
            Some(fs) => fs,
            None => return Err(DecodeError),
        };
        match Self::from_fields(&fs) {
            Some(d) => Ok(d),
            None => Err(DecodeError),
        }
    }

}

/// Asks for a peer to be registered.
#[derive(Clone, Debug, PartialEq, Default)]
pub struct CreatePeerRequest {
    /// The peer to register, if given.
    pub peer: Option<Peer>,
}

/// The mathematical value of a [`CreatePeerRequest`].
pub struct CreatePeerRequestModel {
    pub peer: Option<Seq<u8>>,
}

impl View for CreatePeerRequest {
    type V = CreatePeerRequestModel;

    open spec fn view(&self) -> CreatePeerRequestModel {
        CreatePeerRequestModel {
            peer: match self.peer {
                Some(x) => Some(x@),
                None => None,
            },
        }
    }
}

impl CreatePeerRequest {
    /// The values of the fields numbered `tag` in the encoding of `m`.
    pub open spec fn values(m: CreatePeerRequestModel, tag: u32) -> Seq<Value> {
        if tag == 1 {
            message_values(
                match m.peer {
                    Some(x) => Some(Peer::wire(x)),
                    None => None,
                },
            )
        } else {
            seq![]
        }
    }

    /// The fields of the encoding of `m`, in order of their numbers; a scalar
    /// that holds its default value is left out.
    pub open spec fn wire_fields(m: CreatePeerRequestModel) -> Seq<FieldModel> {
        uniform(1, Self::values(m, 1))
    }

    /// The encoding of `m`.
    pub open spec fn wire(m: CreatePeerRequestModel) -> Seq<u8> {
        fields_wire(Self::wire_fields(m))
    }

    proof fn lemma_select(m: CreatePeerRequestModel, t: u32)
        ensures
            select(Self::wire_fields(m), t) == Self::values(m, t),
            tags_ok(Self::wire_fields(m)),
    {
        let s0 = uniform(1, Self::values(m, 1));
        lemma_select_uniform(1, Self::values(m, 1), t);
        assert(tags_ok(s0));
        assert(select(Self::wire_fields(m), t) =~= Self::values(m, t));
    }

    /// The protobuf encoding of the message.
    pub fn encode(&self) -> (r: Vec<u8>)
        ensures
            r@ == Self::wire(self@),
    {
        let mut buf: Vec<u8> = Vec::new();
        let ghost before1 = buf@;
        match &self.peer {
            Some(x) => {
                let b = x.encode();
                put_message(&mut buf, 1, b.as_slice());
            },
            None => {
                proof {
                    lemma_no_values(1);
                }
                assert(buf@ =~= before1 + fields_wire(uniform(1, Self::values(self@, 1))));
            },
        }
        assert(buf@ =~= before1 + fields_wire(uniform(1, Self::values(self@, 1))));
        proof {
            let s0 = uniform(1, Self::values(self@, 1));
        }
        assert(buf@ =~= Self::wire(self@));
        buf
    }

    fn from_fields(fs: &Vec<Field>) -> (r: Option<Self>)
        ensures
            forall|m: CreatePeerRequestModel|
                #[trigger] Self::wire_fields(m) == models(fs@) ==> (r matches Some(d) && d@ == m),
    {
        let raw_peer = get_joined(fs, 1);
        proof {
            assert forall|m: CreatePeerRequestModel| #[trigger] Self::wire_fields(m) == models(fs@) implies {
                &&& (raw_peer matches Some(o) && (o is Some <==> m.peer is Some) && (m.peer matches Some(x) ==> o matches Some(b) && b@ == Peer::wire(x)))
            } by {
                Self::lemma_select(m, 1);
                lemma_values(0, seq![], match m.peer {
                    Some(x) => Some(Peer::wire(x)),
                    None => None,
                }, seq![]);
            }
        }
        let peer = match raw_peer {
            Some(Some(b)) => match Peer::decode(b.as_slice()) {
                Ok(x) => Some(x),
                Err(_) => return None,
            },
            Some(None) => None,
            None => return None,
        };
        let d = CreatePeerRequest { peer };
        proof {
            assert forall|m: CreatePeerRequestModel| #[trigger] Self::wire_fields(m) == models(fs@) implies d@ == m by {
            }
        }
        Some(d)
    }

    /// Reads a message from its protobuf encoding. Unknown fields are
    /// skipped; bytes that are not a well-formed encoding fail. The encoding
    /// of any message reads back as that message.
    pub fn decode(bytes: &[u8]) -> (r: Result<Self, DecodeError>)
        ensures
            forall|m: CreatePeerRequestModel| #[trigger] Self::wire(m) == bytes@ ==> (r matches Ok(d) && d@ == m),
    {
        proof {
            assert(bytes@.len() == bytes.len());
            assert forall|m: CreatePeerRequestModel| #[trigger] Self::wire(m) == bytes@ implies fields_ok(
                Self::wire_fields(m),
            ) by {
                Self::lemma_select(m, 0);
                lemma_fields_ok(Self::wire_fields(m));
            }
        }
        let fs = match decode_fields(bytes) {
            Some(fs) => fs,
            None => return Err(DecodeError),
        };
        match Self::from_fields(&fs) {
            Some(d) => Ok(d),
            None => Err(DecodeError),
        }
    }

}

/// Answers a request to check a peer.
#[derive(Clone, Debug, PartialEq, Default)]
pub struct ValidatePeerResponse {
    /// The outcome, as the number of a `ValidatePeerStatus`; a number that
    /// names no value is kept as it is.
    pub status: i32,
    /// A message on the outcome.
    pub message: String,
}

/// The mathematical value of a [`ValidatePeerResponse`].
pub struct ValidatePeerResponseModel {
    pub status: i32,
    pub message: Seq<char>,
}

impl View for ValidatePeerResponse {
    type V = ValidatePeerResponseModel;

    open spec fn view(&self) -> ValidatePeerResponseModel {
        ValidatePeerResponseModel {
            status: self.status,
            message: self.message@,
        }
    }
}

impl ValidatePeerResponse {
    /// The values of the fields numbered `tag` in the encoding of `m`.
    pub open spec fn values(m: ValidatePeerResponseModel, tag: u32) -> Seq<Value> {
        if tag == 1 {
            varint_values(i32_bits(m.status))
        } else if tag == 2 {
            bytes_values(vstd::utf8::encode_utf8(m.message))
        } else {
            seq![]
        }
    }

    /// The fields of the encoding of `m`, in order of their numbers; a scalar
    /// that holds its default value is left out.
    pub open spec fn wire_fields(m: ValidatePeerResponseModel) -> Seq<FieldModel> {
        uniform(1, Self::values(m, 1)) + uniform(2, Self::values(m, 2))
    }

    /// The encoding of `m`.
    pub open spec fn wire(m: ValidatePeerResponseModel) -> Seq<u8> {
        fields_wire(Self::wire_fields(m))
    }

    proof fn lemma_select(m: ValidatePeerResponseModel, t: u32)
        ensures
            select(Self::wire_fields(m), t) == Self::values(m, t),
            tags_ok(Self::wire_fields(m)),
    {
        let s0 = uniform(1, Self::values(m, 1));
        lemma_select_uniform(1, Self::values(m, 1), t);
        assert(tags_ok(s0));
        let s1 = uniform(2, Self::values(m, 2));
        lemma_select_uniform(2, Self::values(m, 2), t);
        assert(tags_ok(s1));
        lemma_select_concat(s0, s1, t);
        lemma_tags_concat(s0, s1);
        assert(select(Self::wire_fields(m), t) =~= Self::values(m, t));
    }

    /// The protobuf encoding of the message.
    pub fn encode(&self) -> (r: Vec<u8>)
        ensures
            r@ == Self::wire(self@),
    {
        let mut buf: Vec<u8> = Vec::new();
        let ghost before1 = buf@;
        put_varint_scalar(&mut buf, 1, i32_to_bits(self.status));
        assert(buf@ =~= before1 + fields_wire(uniform(1, Self::values(self@, 1))));
        let ghost before2 = buf@;
        put_bytes_scalar(&mut buf, 2, self.message.as_str().as_bytes());
        assert(buf@ =~= before2 + fields_wire(uniform(2, Self::values(self@, 2))));
        proof {
            let s0 = uniform(1, Self::values(self@, 1));
            let s1 = uniform(2, Self::values(self@, 2));
            lemma_fields_wire_concat(s0, s1);
        }
        assert(buf@ =~= Self::wire(self@));
        buf
    }

    fn from_fields(fs: &Vec<Field>) -> (r: Option<Self>)
        ensures
            forall|m: ValidatePeerResponseModel|
                #[trigger] Self::wire_fields(m) == models(fs@) ==> (r matches Some(d) && d@ == m),
    {
        let raw_status = get_varint(fs, 1);
        let raw_message = get_bytes(fs, 2);
        proof {
            assert forall|m: ValidatePeerResponseModel| #[trigger] Self::wire_fields(m) == models(fs@) implies {
                &&& (raw_status == Some(i32_bits(m.status)))
                &&& (raw_message matches Some(b) && b@ == vstd::utf8::encode_utf8(m.message))
            } by {
                Self::lemma_select(m, 1);
                Self::lemma_select(m, 2);
                lemma_values(i32_bits(m.status), seq![], None, seq![]);
                lemma_values(0, vstd::utf8::encode_utf8(m.message), None, seq![]);
            }
        }
        let status = match raw_status {
            Some(v) => bits_to_i32(v),
            None => return None,
        };
        let message = match raw_message {
            Some(b) => match utf8_to_string(b) {
                Some(s) => s,
                None => return None,
            },
            None => return None,
        };
        let d = ValidatePeerResponse { status, message };
        proof {
            assert forall|m: ValidatePeerResponseModel| #[trigger] Self::wire_fields(m) == models(fs@) implies d@ == m by {
                lemma_int_bits(m.status, 0);
            }
        }
        Some(d)
    }

    /// Reads a message from its protobuf encoding. Unknown fields are
    /// skipped; bytes that are not a well-formed encoding fail. The encoding
    /// of any message reads back as that message.
    pub fn decode(bytes: &[u8]) -> (r: Result<Self, DecodeError>)
        ensures
            forall|m: ValidatePeerResponseModel| #[trigger] Self::wire(m) == bytes@ ==> (r matches Ok(d) && d@ == m),
    {
        proof {
            assert(bytes@.len() == bytes.len());
            assert forall|m: ValidatePeerResponseModel| #[trigger] Self::wire(m) == bytes@ implies fields_ok(
                Self::wire_fields(m),
            ) by {
                Self::lemma_select(m, 0);
                lemma_fields_ok(Self::wire_fields(m));
            }
        }
        let fs = match decode_fields(bytes) {
            Some(fs) => fs,
            None => return Err(DecodeError),
        };
        match Self::from_fields(&fs) {
            Some(d) => Ok(d),
            None => Err(DecodeError),
        }
    }

}

/// Answers a request to register a peer.
#[derive(Clone, Debug, PartialEq, Default)]
pub struct CreatePeerResponse {
    /// The outcome, as the number of a `CreatePeerStatus`; a number that
    /// names no value is kept as it is.
    pub status: i32,
    /// A message on the outcome.
    pub message: String,
}

/// The mathematical value of a [`CreatePeerResponse`].
pub struct CreatePeerResponseModel {
    pub status: i32,
    pub message: Seq<char>,
}

impl View for CreatePeerResponse {
    type V = CreatePeerResponseModel;

    open spec fn view(&self) -> CreatePeerResponseModel {
        CreatePeerResponseModel {
            status: self.status,
            message: self.message@,
        }
    }
}

impl CreatePeerResponse {
    /// The values of the fields numbered `tag` in the encoding of `m`.
    pub open spec fn values(m: CreatePeerResponseModel, tag: u32) -> Seq<Value> {
        if tag == 1 {
            varint_values(i32_bits(m.status))
        } else if tag == 2 {
            bytes_values(vstd::utf8::encode_utf8(m.message))
        } else {
            seq![]
        }
    }

    /// The fields of the encoding of `m`, in order of their numbers; a scalar
    /// that holds its default value is left out.
    pub open spec fn wire_fields(m: CreatePeerResponseModel) -> Seq<FieldModel> {
        uniform(1, Self::values(m, 1)) + uniform(2, Self::values(m, 2))
    }

    /// The encoding of `m`.
    pub open spec fn wire(m: CreatePeerResponseModel) -> Seq<u8> {
        fields_wire(Self::wire_fields(m))
    }

    proof fn lemma_select(m: CreatePeerResponseModel, t: u32)
        ensures
            select(Self::wire_fields(m), t) == Self::values(m, t),
            tags_ok(Self::wire_fields(m)),
    {
        let s0 = uniform(1, Self::values(m, 1));
        lemma_select_uniform(1, Self::values(m, 1), t);
        assert(tags_ok(s0));
        let s1 = uniform(2, Self::values(m, 2));
        lemma_select_uniform(2, Self::values(m, 2), t);
        assert(tags_ok(s1));
        lemma_select_concat(s0, s1, t);
        lemma_tags_concat(s0, s1);
        assert(select(Self::wire_fields(m), t) =~= Self::values(m, t));
    }

    /// The protobuf encoding of the message.
    pub fn encode(&self) -> (r: Vec<u8>)
        ensures
            r@ == Self::wire(self@),
    {
        let mut buf: Vec<u8> = Vec::new();
        let ghost before1 = buf@;
        put_varint_scalar(&mut buf, 1, i32_to_bits(self.status));
        assert(buf@ =~= before1 + fields_wire(uniform(1, Self::values(self@, 1))));
        let ghost before2 = buf@;
        put_bytes_scalar(&mut buf, 2, self.message.as_str().as_bytes());
        assert(buf@ =~= before2 + fields_wire(uniform(2, Self::values(self@, 2))));
        proof {
            let s0 = uniform(1, Self::values(self@, 1));
            let s1 = uniform(2, Self::values(self@, 2));
            lemma_fields_wire_concat(s0, s1);
        }
        assert(buf@ =~= Self::wire(self@));
        buf
    }

    fn from_fields(fs: &Vec<Field>) -> (r: Option<Self>)
        ensures
            forall|m: CreatePeerResponseModel|
                #[trigger] Self::wire_fields(m) == models(fs@) ==> (r matches Some(d) && d@ == m),
    {
        let raw_status = get_varint(fs, 1);
        let raw_message = get_bytes(fs, 2);
        proof {
            assert forall|m: CreatePeerResponseModel| #[trigger] Self::wire_fields(m) == models(fs@) implies {
                &&& (raw_status == Some(i32_bits(m.status)))
                &&& (raw_message matches Some(b) && b@ == vstd::utf8::encode_utf8(m.message))
            } by {
                Self::lemma_select(m, 1);
                Self::lemma_select(m, 2);
                lemma_values(i32_bits(m.status), seq![], None, seq![]);
                lemma_values(0, vstd::utf8::encode_utf8(m.message), None, seq![]);
            }
        }
        let status = match raw_status {
            Some(v) => bits_to_i32(v),
            None => return None,
        };
        let message = match raw_message {
            Some(b) => match utf8_to_string(b) {
                Some(s) => s,
                None => return None,
            },
            None => return None,
        };
        let d = CreatePeerResponse { status, message };
        proof {
            assert forall|m: CreatePeerResponseModel| #[trigger] Self::wire_fields(m) == models(fs@) implies d@ == m by {
                lemma_int_bits(m.status, 0);
            }
        }
        Some(d)
    }

    /// Reads a message from its protobuf encoding. Unknown fields are
    /// skipped; bytes that are not a well-formed encoding fail. The encoding
    /// of any message reads back as that message.
    pub fn decode(bytes: &[u8]) -> (r: Result<Self, DecodeError>)
        ensures
            forall|m: CreatePeerResponseModel| #[trigger] Self::wire(m) == bytes@ ==> (r matches Ok(d) && d@ == m),
    {
        proof {
            assert(bytes@.len() == bytes.len());
            assert forall|m: CreatePeerResponseModel| #[trigger] Self::wire(m) == bytes@ implies fields_ok(
                Self::wire_fields(m),
            ) by {
                Self::lemma_select(m, 0);
                lemma_fields_ok(Self::wire_fields(m));
            }
        }
        let fs = match decode_fields(bytes) {
            Some(fs) => fs,
            None => return Err(DecodeError),
        };
        match Self::from_fields(&fs) {
            Some(d) => Ok(d),
            None => Err(DecodeError),
        }
    }

}

/// Asks for the state of a mirror.
#[derive(Clone, Debug, PartialEq, Default)]
pub struct MirrorStatusRequest {
    /// The name of the flow job of the mirror.
    pub flow_job_name: String,
}

/// The mathematical value of a [`MirrorStatusRequest`].
pub struct MirrorStatusRequestModel {
    pub flow_job_name: Seq<char>,
}

impl View for MirrorStatusRequest {
    type V = MirrorStatusRequestModel;

    open spec fn view(&self) -> MirrorStatusRequestModel {
        MirrorStatusRequestModel {
            flow_job_name: self.flow_job_name@,
        }
    }
}

impl MirrorStatusRequest {
    /// The values of the fields numbered `tag` in the encoding of `m`.
    pub open spec fn values(m: MirrorStatusRequestModel, tag: u32) -> Seq<Value> {
        if tag == 1 {
            bytes_values(vstd::utf8::encode_utf8(m.flow_job_name))
        } else {
            seq![]
        }
    }

    /// The fields of the encoding of `m`, in order of their numbers; a scalar
    /// that holds its default value is left out.
    pub open spec fn wire_fields(m: MirrorStatusRequestModel) -> Seq<FieldModel> {
        uniform(1, Self::values(m, 1))
    }

    /// The encoding of `m`.
    pub open spec fn wire(m: MirrorStatusRequestModel) -> Seq<u8> {
        fields_wire(Self::wire_fields(m))
    }

    proof fn lemma_select(m: MirrorStatusRequestModel, t: u32)
        ensures
            select(Self::wire_fields(m), t) == Self::values(m, t),
            tags_ok(Self::wire_fields(m)),
    {
        let s0 = uniform(1, Self::values(m, 1));
        lemma_select_uniform(1, Self::values(m, 1), t);
        assert(tags_ok(s0));
        assert(select(Self::wire_fields(m), t) =~= Self::values(m, t));
    }

    /// The protobuf encoding of the message.
    pub fn encode(&self) -> (r: Vec<u8>)
        ensures
            r@ == Self::wire(self@),
    {
        let mut buf: Vec<u8> = Vec::new();
        let ghost before1 = buf@;
        put_bytes_scalar(&mut buf, 1, self.flow_job_name.as_str().as_bytes());
        assert(buf@ =~= before1 + fields_wire(uniform(1, Self::values(self@, 1))));
        proof {
            let s0 = uniform(1, Self::values(self@, 1));
        }
        assert(buf@ =~= Self::wire(self@));
        buf
    }

    fn from_fields(fs: &Vec<Field>) -> (r: Option<Self>)
        ensures
            forall|m: MirrorStatusRequestModel|
                #[trigger] Self::wire_fields(m) == models(fs@) ==> (r matches Some(d) && d@ == m),
    {
        let raw_flow_job_name = get_bytes(fs, 1);
        proof {
            assert forall|m: MirrorStatusRequestModel| #[trigger] Self::wire_fields(m) == models(fs@) implies {
                &&& (raw_flow_job_name matches Some(b) && b@ == vstd::utf8::encode_utf8(m.flow_job_name))
            } by {
                Self::lemma_select(m, 1);
                lemma_values(0, vstd::utf8::encode_utf8(m.flow_job_name), None, seq![]);
            }
        }
        let flow_job_name = match raw_flow_job_name {
            Some(b) => match utf8_to_string(b) {
                Some(s) => s,
                None => return None,
            },
            None => return None,
        };
        let d = MirrorStatusRequest { flow_job_name };
        proof {
            assert forall|m: MirrorStatusRequestModel| #[trigger] Self::wire_fields(m) == models(fs@) implies d@ == m by {
            }
        }
        Some(d)
    }

    /// Reads a message from its protobuf encoding. Unknown fields are
    /// skipped; bytes that are not a well-formed encoding fail. The encoding
    /// of any message reads back as that message.
    pub fn decode(bytes: &[u8]) -> (r: Result<Self, DecodeError>)
        ensures
            forall|m: MirrorStatusRequestModel| #[trigger] Self::wire(m) == bytes@ ==> (r matches Ok(d) && d@ == m),
    {
        proof {
            assert(bytes@.len() == bytes.len());
            assert forall|m: MirrorStatusRequestModel| #[trigger] Self::wire(m) == bytes@ implies fields_ok(
                Self::wire_fields(m),
            ) by {
                Self::lemma_select(m, 0);
                lemma_fields_ok(Self::wire_fields(m));
            }
        }
        let fs = match decode_fields(bytes) {
            Some(fs) => fs,
            None => return Err(DecodeError),
        };
        match Self::from_fields(&fs) {
            Some(d) => Ok(d),
            None => Err(DecodeError),
        }
    }

}

} // verus!
