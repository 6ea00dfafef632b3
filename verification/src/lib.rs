pub mod calendar;
pub mod decode;
pub mod encoding;
pub mod hex;
pub mod import;
pub mod library;
pub mod markdown;
pub mod note;
pub mod proto;
pub mod text;
pub mod update;
