//! Whisper speech-to-text around a CTranslate2 model.
//!
//! The model itself, the signal processing and the boundary to the host
//! language are outside. This crate decides: how audio is cut into chunks,
//! which prompts the model is given, what its tokens say, when each segment
//! and each word is spoken, and which error is reported for what.
//!
//! - [`pcm`], [`preprocessor`]: audio as bytes, windows and frames.
//! - [`batch`], [`language`], [`options`], [`device`]: what a transcription
//!   is asked for and made with.
//! - [`pipeline`], [`tokenizer`], [`tokens`]: text as tokens, prompts,
//!   timestamps.
//! - [`align`], [`words`], [`timing`]: words and their times.
//! - [`transcribe`], [`segments`], [`job`]: the course of a transcription.
//! - [`errors`], [`text`], [`time`]: what everything is built on.
//!
//! Real numbers do not occur. Times are whole numbers of a unit that every
//! instant is a multiple of, samples are bit patterns, and probabilities
//! and scores are carried along without being looked at.

pub mod align;
pub mod batch;
pub mod device;
pub mod errors;
pub mod job;
pub mod language;
pub mod options;
pub mod pcm;
pub mod pipeline;
pub mod preprocessor;
pub mod segments;
pub mod text;
pub mod time;
pub mod timing;
pub mod tokenizer;
pub mod tokens;
pub mod transcribe;
pub mod words;
