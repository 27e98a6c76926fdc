//! The messages that feed an entity database: store infos, chunks of data, and blueprint
//! activation commands.
use std::sync::Arc;
use vstd::prelude::*;

use crate::chunk::Chunk;
use crate::entity_db::SetStoreInfo;
use crate::types::{StoreId, TimePoint};

verus! {

/// Asks the viewer to activate a blueprint.
#[derive(Debug)]
pub struct BlueprintActivationCommand {
    pub blueprint_id: StoreId,
    /// Make the blueprint the active one.
    pub make_active: bool,
    /// Make the blueprint the default one.
    pub make_default: bool,
}

impl BlueprintActivationCommand {
    /// Activates `blueprint_id` without making it the default.
    pub fn make_active(blueprint_id: StoreId) -> (r: BlueprintActivationCommand)
        ensures
            r.blueprint_id@ == blueprint_id@,
            r.make_active,
            !r.make_default,
    {
        BlueprintActivationCommand { blueprint_id, make_active: true, make_default: false }
    }
}

/// One chunk of data, with the largest time it holds on each timeline.
#[derive(Debug)]
pub struct ArrowMsg {
    pub table_id: u128,
    pub timepoint_max: TimePoint,
    pub chunk: Arc<Chunk>,
}

/// A message for a store.
#[derive(Debug)]
pub enum LogMsg {
    SetStoreInfo(SetStoreInfo),
    ArrowMsg(StoreId, ArrowMsg),
    BlueprintActivationCommand(BlueprintActivationCommand),
}

/// The store a message is for.
pub open spec fn msg_store_id(msg: LogMsg) -> (crate::types::StoreKind, Seq<char>) {
    match msg {
        LogMsg::SetStoreInfo(m) => m.info.store_id@,
        LogMsg::ArrowMsg(id, _) => id@,
        LogMsg::BlueprintActivationCommand(c) => c.blueprint_id@,
    }
}

impl LogMsg {
    /// The store this message is for.
    pub fn store_id(&self) -> (r: &StoreId)
        ensures
            r@ == msg_store_id(*self),
    {
        match self {
            LogMsg::SetStoreInfo(m) => &m.info.store_id,
            LogMsg::ArrowMsg(id, _) => id,
            LogMsg::BlueprintActivationCommand(c) => &c.blueprint_id,
        }
    }
}

} // verus!
