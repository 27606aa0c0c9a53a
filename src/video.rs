//! A video under analysis: where it comes from, how long it is, and which of
//! its audio blocks are silent.
use vstd::prelude::*;
use crate::replies::{as_nat, duration_millis, probe_duration_millis};
use crate::analysis::{
    classification, classify, has_empty_block, loudness_of_blocks, loudness_seq, AnalysisError,
    ThresholdFraction,
};

verus! {

/// `std::io::Error`, carried opaquely by the error types.
#[verifier::external_type_specification]
#[verifier::external_body]
pub struct ExIoError(std::io::Error);

/// `std::string::FromUtf8Error`, carried opaquely by `VideoProcessingError`.
#[verifier::external_type_specification]
#[verifier::external_body]
pub struct ExFromUtf8Error(std::string::FromUtf8Error);

/// Source of video. Either path to file or stream of bytes from stdin.
#[derive(Debug)]
pub enum VideoSource {
    FilePath(String),
    StdinStream(Vec<u8>),
}

/// Parameters of the silence classification.
#[derive(Debug, Clone, Copy, PartialEq, Eq, Structural)]
pub struct AnalysisSettings {
    /// Values below this fraction of the loudest one are silent.
    pub silence_threshold: ThresholdFraction,
    /// Number of smoothing passes that turn silence next to loud audio loud.
    pub frame_margin: usize,
}

/// Why a video could not be probed or analysed.
#[derive(Debug)]
pub enum VideoProcessingError {
    /// Spawning or talking to ffmpeg/ffprobe failed.
    ExternalIOError(std::io::Error),
    /// ffmpeg/ffprobe printed text that is not UTF-8.
    FaieldToReadOutput(std::string::FromUtf8Error),
    /// The duration that ffprobe printed is not a decimal number of seconds.
    BadOutputFromFFprobe(Vec<u8>),
    FailedToExtractAudio,
    /// The decoded audio cannot be classified.
    Analysis(AnalysisError),
}

/// A video under analysis: its source, and what has been learnt about it.
pub struct Video {
    pub source: VideoSource,
    /// Length of the video in milliseconds, once known.
    pub length_millis: Option<usize>,
    /// One label per decoded audio block, `true` for silent, once analysed.
    pub silent_frames: Option<Vec<bool>>,
}

/// The sample blocks that an MP3 stream decodes to, in order; `None` when the
/// decoder reports an error before the end of the stream.
pub uninterp spec fn mp3_frames(bytes: Seq<u8>) -> Option<Seq<Seq<i16>>>;

/// Relies on `minimp3::Decoder::next_frame`: called until it reports `Eof`, it
/// yields the stream's frames in order, each with its interleaved samples in
/// `data`; any other error ends the decode. The result depends on the bytes
/// alone.
#[verifier::external_body]
fn decode_mp3(bytes: &Vec<u8>) -> (r: Option<Vec<Vec<i16>>>)
    ensures
        r is None <==> mp3_frames(bytes@) is None,
        r is Some ==> mp3_frames(bytes@) == Some(r->Some_0.deep_view()),
{
    let mut decoder = minimp3::Decoder::new(&bytes[..]);
    let mut blocks = Vec::new();
    loop {
        match decoder.next_frame() {
            Ok(frame) => blocks.push(frame.data),
            Err(minimp3::Error::Eof) => return Some(blocks),
            Err(_) => return None,
        }
    }
}

/// The classification of decoded blocks: their loudness, thresholded and
/// smoothed.
pub open spec fn blocks_classification(blocks: Seq<Vec<i16>>, settings: AnalysisSettings) -> Seq<
    bool,
> {
    classification(
        Seq::new(blocks.len(), |i: int| loudness_seq(blocks)[i] as u64),
        settings.silence_threshold,
        settings.frame_margin as nat,
    )
}

/// Classifies decoded sample blocks as silent (`true`) or loud. Fails with
/// `EmptyBlock` when a block is empty, else with `InsufficientAudioData` when
/// fewer than two blocks are given.
pub fn analyze_blocks(blocks: &Vec<Vec<i16>>, settings: AnalysisSettings) -> (r: Result<
    Vec<bool>,
    AnalysisError,
>)
    requires
        settings.silence_threshold.wf(),
    ensures
        has_empty_block(blocks@) <==> r == Err::<Vec<bool>, AnalysisError>(
            AnalysisError::EmptyBlock,
        ),
        (!has_empty_block(blocks@) && blocks@.len() < 2) <==> r == Err::<Vec<bool>, AnalysisError>(
            AnalysisError::InsufficientAudioData,
        ),
        (!has_empty_block(blocks@) && blocks@.len() >= 2) ==> r is Ok,
        r is Ok ==> r->Ok_0@ == blocks_classification(blocks@, settings),
{
    match loudness_of_blocks(blocks) {
        Ok(loudness) => {
            assert(loudness@ =~= Seq::new(
                blocks@.len(),
                |i: int| loudness_seq(blocks@)[i] as u64,
            ));
            classify(&loudness, settings.silence_threshold, settings.frame_margin)
        },
        Err(e) => Err(e),
    }
}

impl Video {
    pub fn new(source: VideoSource) -> (r: Video)
        ensures
            r.source == source,
            r.length_millis is None,
            r.silent_frames is None,
    {
        Video { source, length_millis: None, silent_frames: None }
    }

    /// Records the length that a probe printed in seconds (`2838.919000`), in
    /// milliseconds. Output that is not such a number gives
    /// `BadOutputFromFFprobe` with the output, and nothing changes.
    pub fn set_length_from_probe(&mut self, output: Vec<u8>) -> (r: Result<
        (),
        VideoProcessingError,
    >)
        ensures
            final(self).source == old(self).source,
            final(self).silent_frames == old(self).silent_frames,
            probe_duration_millis(output@) is Some <==> r is Ok,
            r is Ok ==> as_nat(final(self).length_millis) == probe_duration_millis(output@),
            r is Err ==> final(self).length_millis == old(self).length_millis && (r matches Err(
                VideoProcessingError::BadOutputFromFFprobe(o),
            ) && o@ == output@),
    {
        match duration_millis(&output) {
            Some(ms) => {
                self.length_millis = Some(ms);
                Ok(())
            },
            None => Err(VideoProcessingError::BadOutputFromFFprobe(output)),
        }
    }

    /// Decodes the MP3 audio of the video and records which of its blocks are
    /// silent. A stream that does not decode gives `FailedToExtractAudio`; audio
    /// that cannot be classified gives `Analysis`. On error nothing changes.
    pub fn recognize_silent_and_loud_frames(
        &mut self,
        sound: &Vec<u8>,
        settings: AnalysisSettings,
    ) -> (r: Result<(), VideoProcessingError>)
        requires
            settings.silence_threshold.wf(),
        ensures
            final(self).source == old(self).source,
            final(self).length_millis == old(self).length_millis,
            mp3_frames(sound@) is None ==> (r matches Err(VideoProcessingError::FailedToExtractAudio)),
            r is Err ==> final(self).silent_frames == old(self).silent_frames,
            mp3_frames(sound@) is Some ==> {
                let blocks = mp3_frames(sound@)->Some_0;
                &&& (exists|i: int| 0 <= i < blocks.len() && #[trigger] blocks[i].len() == 0)
                    ==> (r matches Err(VideoProcessingError::Analysis(AnalysisError::EmptyBlock)))
                &&& ((forall|i: int| 0 <= i < blocks.len() ==> #[trigger] blocks[i].len() > 0)
                    && blocks.len() < 2) ==> (r matches Err(
                    VideoProcessingError::Analysis(AnalysisError::InsufficientAudioData),
                ))
                &&& ((forall|i: int| 0 <= i < blocks.len() ==> #[trigger] blocks[i].len() > 0)
                    && blocks.len() >= 2) ==> r is Ok
            },
            r is Ok ==> exists|blocks: Seq<Vec<i16>>|
                mp3_frames(sound@) == Some(blocks.map_values(|b: Vec<i16>| b@))
                    && final(self).silent_frames is Some && final(self).silent_frames->Some_0@
                    == #[trigger] blocks_classification(blocks, settings),
    {
        match decode_mp3(sound) {
            None => Err(VideoProcessingError::FailedToExtractAudio),
            Some(blocks) => {
                proof {
                    let d = mp3_frames(sound@)->Some_0;
                    assert(d == blocks.deep_view());
                    assert forall|i: int| 0 <= i < blocks@.len() implies #[trigger] d[i]
                        =~= blocks@[i]@ by {}
                    assert(d =~= blocks@.map_values(|b: Vec<i16>| b@));
                    if has_empty_block(blocks@) {
                        let i = choose|i: int|
                            0 <= i < blocks@.len() && #[trigger] blocks@[i]@.len() == 0;
                        assert(d[i].len() == 0);
                    }
                    if exists|i: int| 0 <= i < d.len() && #[trigger] d[i].len() == 0 {
                        let i = choose|i: int| 0 <= i < d.len() && #[trigger] d[i].len() == 0;
                        assert(blocks@[i]@.len() == 0);
                    }
                }
                match analyze_blocks(&blocks, settings) {
                    Ok(frames) => {
                        self.silent_frames = Some(frames);
                        Ok(())
                    },
                    Err(e) => Err(VideoProcessingError::Analysis(e)),
                }
            },
        }
    }
}

} // verus!
