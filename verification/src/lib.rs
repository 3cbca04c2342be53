//! Wire formats and login-forwarding logic of a Minecraft Java server:
//! the VarInt and primitive codecs, light-update and configuration packets,
//! and the checks that a Vine proxy's signed forwarding reply must pass.

pub mod version;
pub mod var_int;
pub mod ser;
pub mod bit_set;
pub mod light_arrays;
pub mod light_update;
pub mod config;
pub mod crypto;
pub mod vine;
pub mod plugin_response;
pub mod protocol_packet;
