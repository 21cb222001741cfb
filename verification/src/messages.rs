//! The messages of the connection handshake and of model management that
//! carry no floating-point data.
use vstd::prelude::*;
use std::collections::HashMap;

verus! {

/// Id of a block type on the server.
pub type BlockId = u16;

/// Sent by client to notify the server that it has processed all assets and is ready to be served.
#[derive(Debug, Clone)]
pub struct ClientReady;

/// Initial server configuration needed for client setup.
#[derive(Debug, Clone)]
pub struct ServerConfig {
    /// Hash of the assets the server wants used.
    pub assets_hash: u64,
    /// Map from block name to id on the server.
    pub block_ids: HashMap<String, BlockId>,
    /// Map from model name to id on the server.
    pub model_ids: HashMap<String, u32>,
    /// Map from item name to id on the server.
    pub item_ids: HashMap<String, u32>,
    /// Maximum render distance allowed by server, measured in chunks.
    pub render_distance: u32,
}

/// Clients send this immediately on established connection to identify themselves.
#[derive(Debug)]
pub struct ClientIdentification {
    /// The name the player wants to use.
    pub name: String,
}

/// Forceful disconnection by the server.
#[derive(Debug)]
pub struct Disconnect {
    /// Reason for the disconnect, optional
    pub message: String,
}

/// A set of assets from the server
#[derive(Debug)]
pub struct AssetResponse {
    /// Assets stored as a tarball
    pub file: Vec<u8>,
}

/// Sent by clients if they don't have assets (or the wrong ones).
#[derive(Debug, Clone, Copy)]
pub struct AssetRequest;

/// Delete an existing model.
#[derive(Debug, Clone, Copy)]
pub struct DeleteModel {
    /// Id of the model
    pub id: u32,
}

/// Update the asset used by a model.
#[derive(Debug, Clone, Copy)]
pub struct ModelUpdateAsset {
    /// Id of the model
    pub id: u32,
    /// Asset id
    pub asset: u32,
}

/// Play an animation of a model
#[derive(Debug, Clone, Copy)]
pub struct ModelPlayAnimation {
    /// Id of the model
    pub model_id: u32,
    /// Index of the animation
    pub animation_index: u32,
    /// Makes the animation loop
    pub repeat: bool,
}

} // verus!
