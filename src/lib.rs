pub mod consistency;
pub mod database;
pub mod packet;
pub mod schema;
pub mod session;
pub mod value;
