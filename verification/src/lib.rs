pub mod bytes;
pub mod flags;
pub mod handle;
pub mod packet;
pub mod usermessage;
pub mod reliable;
pub mod ingress;
pub mod stringtable;
pub mod sizing;
pub mod server;
pub mod game;
pub mod entities;
pub mod link;
pub mod world;
pub mod outbound;
