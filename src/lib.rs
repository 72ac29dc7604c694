//! Model registry and feature alignment for multi-voice speech synthesis.
//!
//! The registry keeps voice models addressable by identifier; the aligner
//! turns analyzer output (phonemes, tones, language ids, per-character
//! phoneme counts) into the interspersed sequences and the per-phoneme
//! embedding row map that a synthesis model expects.

mod align;
mod ident;
mod registry;

pub use align::{
    adjust_word2ph, adjusted, align_text, as_ints, expand_rows, expanded, fitting_total,
    intersperse, interspersed, lemma_intersperse_shape, total, AlignError, AlignedText,
};
pub use ident::TTSIdent;
pub use registry::{
    idents_of, lemma_load_twice_lists_once, load_effect, select_style_row, Error, TTSModel,
    TTSModelHolder,
};
