//! Small building blocks shared by the server and the downloader.

pub mod multierr;
pub mod text;
