pub mod addr;
pub mod bytes_util;
pub mod cache;
pub mod dns_class;
pub mod dns_type;
pub mod duration;
pub mod errors;
pub mod handler;
pub mod header;
pub mod packet;
pub mod pair;
pub mod parser;
pub mod query_class;
pub mod query_type;
pub mod question;
pub mod record;
pub mod resolver;
pub mod result_code;
pub mod root;
pub mod util;
pub mod writer;
pub mod zone;
