# moss-tts-nano

Text-to-speech with the MOSS-TTS-Nano models on ONNX Runtime.

`src/` is the front end, written in Verus: SentencePiece encoding, text
chunking, configuration, sampling, end-of-speech detection and the course of a
streaming synthesis. Every function there states what it returns, and Verus
proves it. `app/` is the engine around it: it loads the models, runs them and
streams the audio.

A synthesis is a state machine. `MossTtsNano::synth_stream` starts one; each
method of `Synthesis` takes what a model gave back and answers with the next
`Step`. `app/engine.rs` carries the steps out.

Scores are held as bit patterns (`float::number::Binary32` and `Binary64`) and
rounded as IEEE 754 asks, so that sampling is exact and can be reasoned about.

Sampling modes: `greedy` takes the best token of every channel, `fixed` makes a
frame with one call, `full` samples channel by channel.
