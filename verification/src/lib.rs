//! Converts lyrics annotated with per-syllable LRC timestamps into an
//! Advanced SubStation Alpha (ASS) karaoke subtitle text.

pub mod lrc;
pub mod subtitle_gen;
pub mod subtitle_style;
pub mod text;
