//! Nested types of `MirrorStatusResponse`.
use vstd::prelude::*;
use crate::mirror::{CdcMirrorStatus, CdcMirrorStatusModel, QRepMirrorStatus, QRepMirrorStatusModel};

verus! {

/// The state of a mirror: of a query-replication mirror or of a
/// change-data-capture one, never both.
#[derive(Clone, Debug, PartialEq)]
pub enum Status {
    QrepStatus(QRepMirrorStatus),
    CdcStatus(CdcMirrorStatus),
}

/// The mathematical value of a [`Status`].
pub enum StatusModel {
    QrepStatus(QRepMirrorStatusModel),
    CdcStatus(CdcMirrorStatusModel),
}

impl View for Status {
    type V = StatusModel;

    open spec fn view(&self) -> StatusModel {
        match self {
            Status::QrepStatus(x) => StatusModel::QrepStatus(x@),
            Status::CdcStatus(x) => StatusModel::CdcStatus(x@),
        }
    }
}

} // verus!
