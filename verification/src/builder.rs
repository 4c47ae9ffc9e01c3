//! Setting up the engine, and choosing its voice.

use crate::config::{
    ascii_lower, generation_in, lowercase, mode_named, AppConfig, BuiltinVoice, GenerationConfig,
};
use crate::error::TtsError;
use crate::float::number::Binary32;
use crate::synthesis::MossTtsNano;
use crate::tensor::{fits, has_room, holds_rows, rows_of, Tensor3};
use crate::text::{joined, same_text};
use crate::tokenizer::Tokenizer;
use crate::whitespace::trimmed;
use vstd::prelude::*;

verus! {

/// Builder for the engine. `P` is the type of paths.
pub struct MossTtsNanoBuilder<P> {
    pub model_dir: P,
    pub codec_dir: P,
    pub voice: String,
    pub prompt_audio_path: Option<P>,
    pub sample_mode: String,
    pub seed: u64,
    pub audio_repetition_penalty: Binary32,
    pub voice_clone_max_text_tokens: usize,
}

/// The directory of the TTS models by default.
pub fn default_model_dir() -> (r: &'static str)
    ensures
        r@ == "models/MOSS-TTS-Nano-100M-ONNX"@,
{
    "models/MOSS-TTS-Nano-100M-ONNX"
}

/// The directory of the codec models by default.
pub fn default_codec_dir() -> (r: &'static str)
    ensures
        r@ == "models/MOSS-Audio-Tokenizer-Nano-ONNX"@,
{
    "models/MOSS-Audio-Tokenizer-Nano-ONNX"
}

impl<P> MossTtsNanoBuilder<P> {
    /// Default settings, with directories.
    pub fn new(model_dir: P, codec_dir: P) -> (r: Self)
        ensures
            r.model_dir == model_dir,
            r.codec_dir == codec_dir,
            r.voice@ == "Junhao"@,
            r.prompt_audio_path is None,
            r.sample_mode@ == "fixed"@,
            r.seed == 1234,
            r.audio_repetition_penalty.bits == 0x3f99_999a,
            r.voice_clone_max_text_tokens == 75,
    {
        MossTtsNanoBuilder {
            model_dir,
            codec_dir,
            voice: "Junhao".to_owned(),
            prompt_audio_path: None,
            sample_mode: "fixed".to_owned(),
            seed: 1234,
            audio_repetition_penalty: Binary32 { bits: 0x3f99_999a },
            voice_clone_max_text_tokens: 75,
        }
    }

    /// Path to the TTS ONNX model directory.
    pub fn model_dir(self, path: P) -> (r: Self)
        ensures
            r == (MossTtsNanoBuilder { model_dir: path, ..self }),
    {
        MossTtsNanoBuilder { model_dir: path, ..self }
    }

    /// Path to the codec ONNX model directory.
    pub fn codec_dir(self, path: P) -> (r: Self)
        ensures
            r == (MossTtsNanoBuilder { codec_dir: path, ..self }),
    {
        MossTtsNanoBuilder { codec_dir: path, ..self }
    }

    /// Built-in voice preset name (default: "Junhao").
    pub fn voice(self, name: String) -> (r: Self)
        ensures
            r == (MossTtsNanoBuilder { voice: name, ..self }),
    {
        MossTtsNanoBuilder { voice: name, ..self }
    }

    /// Path to reference audio for voice cloning (overrides built-in voice).
    pub fn prompt_audio_path(self, path: P) -> (r: Self)
        ensures
            r == (MossTtsNanoBuilder { prompt_audio_path: Some(path), ..self }),
    {
        MossTtsNanoBuilder { prompt_audio_path: Some(path), ..self }
    }

    /// Sample mode: "greedy", "fixed", or "full" (default: "fixed").
    pub fn sample_mode(self, mode: String) -> (r: Self)
        ensures
            r == (MossTtsNanoBuilder { sample_mode: mode, ..self }),
    {
        MossTtsNanoBuilder { sample_mode: mode, ..self }
    }

    /// Random seed for reproducibility (default: 1234).
    pub fn seed(self, seed: u64) -> (r: Self)
        ensures
            r == (MossTtsNanoBuilder { seed, ..self }),
    {
        MossTtsNanoBuilder { seed, ..self }
    }

    /// Audio-layer repetition penalty (default: 1.2).
    pub fn audio_repetition_penalty(self, penalty: Binary32) -> (r: Self)
        ensures
            r == (MossTtsNanoBuilder { audio_repetition_penalty: penalty, ..self }),
    {
        MossTtsNanoBuilder { audio_repetition_penalty: penalty, ..self }
    }

    /// Max text tokens per chunk for voice cloning (default: 75).
    pub fn voice_clone_max_text_tokens(self, max: usize) -> (r: Self)
        ensures
            r == (MossTtsNanoBuilder { voice_clone_max_text_tokens: max, ..self }),
    {
        MossTtsNanoBuilder { voice_clone_max_text_tokens: max, ..self }
    }

    /// The configuration of generation: that of the sample mode, with the penalty.
    pub fn gen_config(&self) -> (r: GenerationConfig)
        ensures
            r == (GenerationConfig {
                audio_repetition_penalty: self.audio_repetition_penalty,
                ..generation_in(
                    mode_named(
                        lowercase(trimmed(self.sample_mode@)),
                        self.sample_mode@ != "greedy"@,
                    ),
                )
            }),
            (forall|i: int|
                0 <= i < trimmed(self.sample_mode@).len() ==> #[trigger] trimmed(
                    self.sample_mode@,
                )[i] <= '\u{7F}') ==> r == (GenerationConfig {
                audio_repetition_penalty: self.audio_repetition_penalty,
                ..generation_in(
                    mode_named(
                        trimmed(self.sample_mode@).map_values(|c: char| ascii_lower(c)),
                        self.sample_mode@ != "greedy"@,
                    ),
                )
            }),
    {
        let mut gen_config = GenerationConfig::with_sample_mode(self.sample_mode.as_str());
        gen_config.audio_repetition_penalty = self.audio_repetition_penalty;
        gen_config
    }

    /// The codes of the voice: those of the prompt audio if a path to it is set,
    /// whatever the name of the voice; else those of the preset with that name,
    /// or none if there is no such preset.
    pub fn reference_codes(&self, app_config: &AppConfig, prompt_codes: Option<Tensor3>) -> (r:
        Option<Tensor3>)
        requires
            self.prompt_audio_path is None ==> voice_fits(*app_config, self.voice@),
        ensures
            is_voice(*self, *app_config, prompt_codes, r),
    {
        if self.prompt_audio_path.is_some() {
            prompt_codes
        } else {
            resolve_preset_codes(app_config, self.voice.as_str())
        }
    }

    /// Builds the engine out of what was loaded; `prompt_codes` are the codes of
    /// the prompt audio, if a path to it is set.
    pub fn build(&self, app_config: AppConfig, tokenizer: Tokenizer, prompt_codes: Option<Tensor3>)
        -> (r: MossTtsNano)
        requires
            tokenizer.wf(),
            self.prompt_audio_path is None ==> voice_fits(app_config, self.voice@),
        ensures
            r.wf(),
            r.app_config == app_config,
            r.tokenizer == tokenizer,
            is_voice(*self, app_config, prompt_codes, r.ref_codes),
            r.seed == self.seed,
            r.voice_clone_max_text_tokens == self.voice_clone_max_text_tokens,
            r.gen_config == (GenerationConfig {
                audio_repetition_penalty: self.audio_repetition_penalty,
                ..generation_in(
                    mode_named(
                        lowercase(trimmed(self.sample_mode@)),
                        self.sample_mode@ != "greedy"@,
                    ),
                )
            }),
            (forall|i: int|
                0 <= i < trimmed(self.sample_mode@).len() ==> #[trigger] trimmed(
                    self.sample_mode@,
                )[i] <= '\u{7F}') ==> r.gen_config == (GenerationConfig {
                audio_repetition_penalty: self.audio_repetition_penalty,
                ..generation_in(
                    mode_named(
                        trimmed(self.sample_mode@).map_values(|c: char| ascii_lower(c)),
                        self.sample_mode@ != "greedy"@,
                    ),
                )
            }),
    {
        let ref_codes = self.reference_codes(&app_config, prompt_codes);
        MossTtsNano {
            app_config,
            tokenizer,
            gen_config: self.gen_config(),
            ref_codes,
            seed: self.seed,
            voice_clone_max_text_tokens: self.voice_clone_max_text_tokens,
        }
    }
}

/// Whether codes are those of the voice that is set up: of the prompt audio if a
/// path to it is set, else of the preset with the voice's name.
pub open spec fn is_voice<P>(
    settings: MossTtsNanoBuilder<P>,
    config: AppConfig,
    prompt_codes: Option<Tensor3>,
    codes: Option<Tensor3>,
) -> bool {
    if settings.prompt_audio_path is Some {
        codes == prompt_codes
    } else {
        match first_voice(config.builtin_voices@, settings.voice@) {
            Some(i) => codes matches Some(t) && holds_rows(
                t,
                rows_of(config.builtin_voices@[i as int].codes@),
                config.tts_config.n_vq as nat,
            ),
            None => codes is None,
        }
    }
}

/// The first of the voices with a name.
pub open spec fn first_voice(voices: Seq<BuiltinVoice>, name: Seq<char>) -> Option<nat>
    decreases voices.len(),
{
    if voices.len() == 0 {
        None
    } else {
        match first_voice(voices.drop_last(), name) {
            Some(i) => Some(i),
            None => if voices.last().name@ == name {
                Some((voices.len() - 1) as nat)
            } else {
                None
            },
        }
    }
}

/// A found voice is the first with its name, and none means that there is none.
pub proof fn voice_is_found_by_name(voices: Seq<BuiltinVoice>, name: Seq<char>)
    ensures
        match first_voice(voices, name) {
            Some(i) => i < voices.len() && voices[i as int].name@ == name && forall|j: int|
                0 <= j < i ==> (#[trigger] voices[j]).name@ != name,
            None => forall|j: int| 0 <= j < voices.len() ==> (#[trigger] voices[j]).name@ != name,
        },
    decreases voices.len(),
{
    if voices.len() > 0 {
        let front = voices.drop_last();
        voice_is_found_by_name(front, name);
        assert forall|j: int| 0 <= j < front.len() implies #[trigger] voices[j] == front[j] by {}
    }
}

/// Whether the codes of a voice can be laid out.
pub open spec fn voice_fits(config: AppConfig, name: Seq<char>) -> bool {
    first_voice(config.builtin_voices@, name) matches Some(i) ==> has_room(
        1,
        config.builtin_voices@[i as int].codes@.len(),
        config.tts_config.n_vq as nat,
    )
}

fn find_voice(voices: &Vec<BuiltinVoice>, name: &str) -> (r: Option<usize>)
    ensures
        match first_voice(voices@, name@) {
            Some(i) => r == Some(i as usize) && i < voices@.len() && i <= usize::MAX,
            None => r is None,
        },
{
    let mut i: usize = 0;
    while i < voices.len()
        invariant
            i <= voices@.len(),
            first_voice(voices@.take(i as int), name@) is None,
        decreases voices.len() - i,
    {
        proof {
            assert(voices@.take(i + 1).drop_last() == voices@.take(i as int));
        }
        if same_text(voices[i].name.as_str(), name) {
            proof {
                assert(first_voice(voices@.take(i + 1), name@) == Some(i as nat));
                lemma_first_voice_stays(voices@, name@, (i + 1) as nat);
            }
            return Some(i);
        }
        i = i + 1;
    }
    proof {
        assert(voices@.take(i as int) == voices@);
    }
    None
}

proof fn lemma_first_voice_stays(voices: Seq<BuiltinVoice>, name: Seq<char>, n: nat)
    requires
        n <= voices.len(),
        first_voice(voices.take(n as int), name) is Some,
    ensures
        first_voice(voices, name) == first_voice(voices.take(n as int), name),
    decreases voices.len() - n,
{
    if n == voices.len() {
        assert(voices.take(n as int) == voices);
    } else {
        assert(voices.take((n + 1) as int).drop_last() == voices.take(n as int));
        lemma_first_voice_stays(voices, name, n + 1);
    }
}

/// Whether the codes of a voice can be laid out.
pub fn can_lay_out(app_config: &AppConfig, voice: &str) -> (r: bool)
    ensures
        r == voice_fits(*app_config, voice@),
{
    match find_voice(&app_config.builtin_voices, voice) {
        Some(i) => fits(
            1,
            app_config.builtin_voices[i].codes.len(),
            app_config.tts_config.n_vq,
        ),
        None => true,
    }
}

/// Resolve a built-in voice preset name to its reference codes. Returns `None`
/// if no preset matches `voice`.
pub fn resolve_preset_codes(app_config: &AppConfig, voice: &str) -> (r: Option<Tensor3>)
    requires
        voice_fits(*app_config, voice@),
    ensures
        match first_voice(app_config.builtin_voices@, voice@) {
            Some(i) => r matches Some(codes) && holds_rows(
                codes,
                rows_of(app_config.builtin_voices@[i as int].codes@),
                app_config.tts_config.n_vq as nat,
            ),
            None => r is None,
        },
{
    match find_voice(&app_config.builtin_voices, voice) {
        Some(i) => Some(
            Tensor3::from_rows(
                &app_config.builtin_voices[i].codes,
                app_config.tts_config.n_vq,
            ),
        ),
        None => None,
    }
}

/// Whether reference audio can be loaded at a sample rate.
pub open spec fn is_supported_rate(rate: u32) -> bool {
    ||| rate == 16000
    ||| rate == 22050
    ||| rate == 24000
    ||| rate == 32000
    ||| rate == 44100
    ||| rate == 48000
}

/// Refuses the sample rates that reference audio cannot be loaded at.
pub fn check_sample_rate(target_sr: u32) -> (r: Result<(), TtsError>)
    ensures
        match r {
            Ok(_) => is_supported_rate(target_sr),
            Err(e) => !is_supported_rate(target_sr) && (e matches TtsError::Config(m) && m@
                == "Unsupported sample rate"@),
        },
{
    if target_sr == 16000 || target_sr == 22050 || target_sr == 24000 || target_sr == 32000
        || target_sr == 44100 || target_sr == 48000 {
        Ok(())
    } else {
        Err(TtsError::Config("Unsupported sample rate".to_owned()))
    }
}

impl MossTtsNano {
    /// Create a builder with default settings.
    pub fn builder() -> (r: MossTtsNanoBuilder<String>)
        ensures
            r.model_dir@ == "models/MOSS-TTS-Nano-100M-ONNX"@,
            r.codec_dir@ == "models/MOSS-Audio-Tokenizer-Nano-ONNX"@,
            r.voice@ == "Junhao"@,
            r.prompt_audio_path is None,
            r.sample_mode@ == "fixed"@,
            r.seed == 1234,
            r.audio_repetition_penalty.bits == 0x3f99_999a,
            r.voice_clone_max_text_tokens == 75,
    {
        MossTtsNanoBuilder::new(default_model_dir().to_owned(), default_codec_dir().to_owned())
    }

    /// Switch to a built-in voice preset. Returns [`TtsError::Config`] if `name`
    /// is not a known built-in voice (the current voice is left unchanged in
    /// that case).
    pub fn set_voice(&mut self, name: &str) -> (r: Result<(), TtsError>)
        requires
            voice_fits(old(self).app_config, name@),
        ensures
            final(self).app_config == old(self).app_config,
            final(self).tokenizer == old(self).tokenizer,
            final(self).gen_config == old(self).gen_config,
            final(self).seed == old(self).seed,
            final(self).voice_clone_max_text_tokens == old(self).voice_clone_max_text_tokens,
            match first_voice(old(self).app_config.builtin_voices@, name@) {
                Some(i) => r is Ok && (final(self).ref_codes matches Some(codes) && holds_rows(
                    codes,
                    rows_of(old(self).app_config.builtin_voices@[i as int].codes@),
                    old(self).app_config.tts_config.n_vq as nat,
                )),
                None => final(self).ref_codes == old(self).ref_codes && (r matches Err(
                    TtsError::Config(m),
                ) && m@ == "built-in voice '"@ + name@ + "' not found"@),
            },
    {
        match resolve_preset_codes(&self.app_config, name) {
            Some(codes) => {
                self.ref_codes = Some(codes);
                Ok(())
            },
            None => Err(
                TtsError::Config(
                    joined(joined("built-in voice '", name).as_str(), "' not found"),
                ),
            ),
        }
    }

    /// Switch to a cloned voice, given the codes of the reference audio.
    pub fn set_prompt_audio(&mut self, codes: Tensor3)
        ensures
            *final(self) == (MossTtsNano { ref_codes: Some(codes), ..*old(self) }),
    {
        self.ref_codes = Some(codes);
    }
}

} // verus!
