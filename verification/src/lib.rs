//! Networking core of a voxel-game server: length-prefixed framing of
//! packets, their encoding, the connection handshake, the receiving side of a
//! connection, the table of established connections, and the registry that
//! queues received messages by kind until they are consumed.
pub mod assoc;
pub mod connections;
pub mod framing;
pub mod handshake;
pub mod messages;
pub mod packet;
pub mod receive;
pub mod registry;
