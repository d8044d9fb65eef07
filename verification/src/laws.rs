//! What the library promises, said of its inputs and results alone.

pub mod alerts;
pub mod answers;
pub mod counts;
pub mod feed;
pub mod labels;
pub mod maps;
pub mod notices;
pub mod places;
pub mod posts;
pub mod settings;
pub mod stations;
pub mod texts;
