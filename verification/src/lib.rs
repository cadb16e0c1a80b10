pub mod autoindex;
pub mod bytes;
pub mod cache;
pub mod cache_index;
pub mod cache_manager;
pub mod config;
pub mod conn;
pub mod ctx;
pub mod decorate;
pub mod dispatch;
pub mod fastcgi;
pub mod fcache;
pub mod fcgi_proto;
pub mod files;
pub mod handler;
pub mod http;
pub mod laws;
pub mod limit_conn;
pub mod limit_req;
pub mod log;
pub mod modsec;
pub mod msgpack;
pub mod pattern;
pub mod preread;
pub mod proxy;
pub mod quic;
pub mod reply;
pub mod shm;
pub mod sorting;
pub mod server;
pub mod stats;
pub mod stream;
pub mod text;
pub mod transport;
pub mod udp;
pub mod upstream;
pub mod uri;
pub mod waf;
