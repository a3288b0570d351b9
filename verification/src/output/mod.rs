//! Text, XML and DOCX content built from recognised lines.
pub mod docx;
pub mod text;
pub mod xml;
