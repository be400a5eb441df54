//! Ogg container (RFC 3533): page parsing, packet reassembly, seeking.

pub mod bytes;
pub mod crc;
pub mod page;
pub mod granule;
pub mod theora;
pub mod reassembly;
pub mod text;
pub mod damage;
pub mod seek_index;
pub mod media;
pub mod codec_id;
pub mod message;
pub mod skeleton;
pub mod error;
pub mod ogm;
pub mod ident;
pub mod private;
pub mod comment;
pub mod demux;
pub mod reader;
pub mod register;
pub mod process;
pub mod session;
pub mod scan;
pub mod seek;
pub mod resume;
pub mod duration;
pub mod info;
pub mod laws;
pub mod whole;
pub mod tracks;
pub mod journey;
pub mod search;
pub mod single;
pub mod links;
pub mod keyframes;
pub mod timing;
pub mod axis;
pub mod stamps;
pub mod formats;
pub mod faults;
pub mod setup;
