//! MOSS-TTS-Nano text-to-speech: everything around the neural models.
//!
//! The library turns text into the rows that the models read, and the logits
//! that they give back into frames of audio tokens. What it computes is stated
//! in contracts over plain values and proved:
//!
//! - [`wire`], [`sp_model`], [`vocabulary`], [`bpe`], [`unigram`] and
//!   [`encoding`] read a SentencePiece model and encode text with it;
//! - [`tokenizer`] and [`chunking`] make text ready and cut it into chunks;
//! - [`json`] and [`config`] read the configuration;
//! - [`tensor`], [`models`] and [`audio`] lay out tokens and samples;
//! - [`seed_sequence`], [`rng`], [`ranking`] and [`sampling`] pick tokens by their scores;
//! - [`generation`], [`speech_end`], [`codec`] and [`synthesis`] decide which
//!   model runs when, and on what;
//! - [`builder`] sets the engine up.
//!
//! What holds across functions is proved in [`file_laws`], [`model_laws`],
//! [`text_laws`], [`split_laws`], [`chunk_laws`], [`sampling_laws`],
//! [`step_laws`], [`synth_laws`] and [`viterbi`], and beside the functions
//! themselves. Scores and probabilities are computed by [`float`], on bit
//! patterns. The exponential is handed in by the caller, and nothing is taken
//! for granted of it.

pub mod audio;
pub mod bpe;
pub mod builder;
pub mod chunk_laws;
pub mod chunking;
pub mod codec;
pub mod config;
pub mod encoding;
pub mod error;
pub mod file_laws;
pub mod float;
pub mod generation;
pub mod json;
pub mod model_laws;
pub mod models;
pub mod ranking;
pub mod rng;
pub mod sampling;
pub mod sampling_laws;
pub mod seed_sequence;
pub mod sp_model;
pub mod speech_end;
pub mod split_laws;
pub mod step_laws;
pub mod synth_laws;
pub mod synthesis;
pub mod tensor;
pub mod text;
pub mod text_laws;
pub mod token;
pub mod tokenizer;
pub mod unigram;
pub mod viterbi;
pub mod vocabulary;
pub mod whitespace;
pub mod wire;
