pub mod channel;
pub mod common;
pub mod compact;
pub mod config;
pub mod decode;
pub mod fastpath;
pub mod maxmind;
pub mod node;
pub mod packet;
pub mod theorems;
pub mod value;

pub use common::MaxmindDbType;
pub use common::ProgramParameters;
pub use config::Config;
pub use config::Db;
pub use fastpath::should_block;
pub use maxmind::MaxmindDB;
pub use maxmind::Metadata;
pub use maxmind::ProcessedDb;
pub use node::BLOCK_MARKER;
pub use packet::geofw;
pub use value::Data;
