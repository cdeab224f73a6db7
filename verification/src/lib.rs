//! Two-block MD5 collision search in the style of Klima's tunnelling method,
//! together with the MD5 step arithmetic it rests on.

pub mod md5;
pub mod bits;
pub mod block_1;
pub mod block_2;
pub mod search;
pub mod cond_file;
pub mod collision;
pub mod forcing;

