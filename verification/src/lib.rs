//! A Japanese input method engine: romaji input, dictionary lookup, segment
//! conversion, selection history and the session state machine.

pub mod candidate;
pub mod cli;
pub mod conversion_laws;
pub mod dict_builder;
pub mod dictionary;
pub mod dictionary_laws;
pub mod eval;
pub mod ffi;
pub mod interface_laws;
pub mod kana;
pub mod learning;
pub mod learning_laws;
pub mod number;
pub mod order;
pub mod romaji;
pub mod romaji_laws;
pub mod romaji_table;
pub mod segmenter;
pub mod session;
pub mod session_laws;
pub mod session_model;
pub mod skk;
pub mod skk_laws;
pub mod text;
pub mod text_laws;
pub mod user_dict;
