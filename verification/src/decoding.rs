use vstd::prelude::*;

verus! {

/// The error type of symphonia (`symphonia::core::errors::Error`), carried
/// through unopened.
#[verifier::external_type_specification]
#[verifier::external_body]
pub struct ExSymphoniaError(symphonia::core::errors::Error);

/// Symphonia's format reader (`Box<dyn symphonia::core::formats::FormatReader>`).
/// Verus sees nothing inside it; a trait object cannot be declared as an
/// outside type.
#[verifier::external_body]
struct FormatHandle {
    format: Box<dyn symphonia::core::formats::FormatReader>,
}

/// A probed media stream: its format reader and the bytes it was probed from.
struct ProbedFormat {
    handle: FormatHandle,
    bytes: Ghost<Seq<u8>>,
}

/// A stream being decoded: symphonia's format reader and the decoder
/// (`Box<dyn symphonia::core::codecs::Decoder>`) of its default track.
/// Verus sees nothing inside it; a trait object cannot be declared as an
/// outside type.
#[verifier::external_body]
pub struct Mp3Source {
    format: Box<dyn symphonia::core::formats::FormatReader>,
    decoder: Box<dyn symphonia::core::codecs::Decoder>,
}

/// Why a stream cannot be opened for decoding.
#[derive(Debug)]
pub enum Mp3Error {
    /// No format reader accepts the bytes.
    Probe(symphonia::core::errors::Error),
    /// The stream has no default track.
    NoDefaultTrack,
    /// No decoder can be made for the default track.
    Codec(symphonia::core::errors::Error),
}

/// What reading and decoding the next packet of a stream gave.
#[derive(Debug)]
pub enum PacketOutcome {
    /// No packet could be read (at the end of the stream, or on a read
    /// error).
    Unreadable(symphonia::core::errors::Error),
    /// A packet was read but could not be decoded.
    Undecodable(symphonia::core::errors::Error),
    /// A packet was decoded: its sample rate and its samples, channels
    /// interleaved.
    Decoded { rate: u32, samples: Vec<i16> },
}

/// The samples decoded so far and the sample rate of the first decoded
/// packet.
pub struct DecodeState {
    pub samples: Vec<i16>,
    pub rate: Option<u32>,
}

impl DecodeState {
    /// Nothing decoded yet.
    pub fn new() -> (state: DecodeState)
        ensures
            state.samples@ == Seq::<i16>::empty(),
            state.rate == None::<u32>,
    {
        DecodeState { samples: Vec::new(), rate: None }
    }
}

/// Whether symphonia's probe (`get_probe().format` with the `mp3` hint and
/// default options) finds a format reader for these bytes.
pub uninterp spec fn mp3_probes(bytes: Seq<u8>) -> bool;

/// Whether the format reader that the probe finds for these bytes has a
/// default track (`FormatReader::default_track`).
pub uninterp spec fn has_default_track(bytes: Seq<u8>) -> bool;

/// Whether symphonia's codec registry (`get_codecs().make` with default
/// options) makes a decoder for the default track of these bytes.
pub uninterp spec fn track_decodable(bytes: Seq<u8>) -> bool;

/// Probes `bytes` with symphonia (`symphonia::default::get_probe().format`),
/// hinting at the `mp3` extension, with default format and metadata options.
/// Claims only that success is `mp3_probes` of the bytes and that the
/// probed stream records them; nothing of the reader or of the error.
#[verifier::external_body]
fn probe_mp3(bytes: Vec<u8>) -> (probed: Result<ProbedFormat, symphonia::core::errors::Error>)
    ensures
        probed is Ok == mp3_probes(bytes@),
        probed matches Ok(p) ==> p.bytes@ == bytes@,
{
    let ghost view = bytes@;
    let stream = symphonia::core::io::MediaSourceStream::new(Box::new(std::io::Cursor::new(bytes)), Default::default());
    let mut hint = symphonia::core::probe::Hint::new();
    hint.with_extension("mp3");
    let options = (symphonia::core::formats::FormatOptions::default(), symphonia::core::meta::MetadataOptions::default());
    match symphonia::default::get_probe().format(&hint, stream, &options.0, &options.1) {
        Ok(probed) => Ok(ProbedFormat { handle: FormatHandle { format: probed.format }, bytes: Ghost(view) }),
        Err(error) => Err(error),
    }
}

/// Makes a decoder for the default track of a probed stream
/// (`FormatReader::default_track`, then
/// `symphonia::default::get_codecs().make` with default decoder options).
/// Claims only that there is a result when `has_default_track` holds of the
/// stream's bytes, and that it is a decoder when `track_decodable` holds;
/// nothing of the decoder or of the error.
#[verifier::external_body]
fn default_track_decoder(probed: ProbedFormat) -> (source: Option<Result<Mp3Source, symphonia::core::errors::Error>>)
    ensures
        source is Some == has_default_track(probed.bytes@),
        source matches Some(made) ==> (made is Ok == track_decodable(probed.bytes@)),
{
    let format = probed.handle.format;
    let params = format.default_track()?.codec_params.clone();
    match symphonia::default::get_codecs().make(&params, &symphonia::core::codecs::DecoderOptions::default()) {
        Ok(decoder) => Some(Ok(Mp3Source { format, decoder })),
        Err(error) => Some(Err(error)),
    }
}

/// Reads the next packet of a stream (`FormatReader::next_packet`) and
/// decodes it (`Decoder::decode`); a decoded buffer is interleaved into
/// `i16` samples through a `SampleBuffer` of the buffer's capacity and
/// signal specification (`SampleBuffer::copy_interleaved_ref`). Nothing is
/// claimed of the outcome: it depends on how far the stream was read. Left
/// unsaid: each packet is interleaved through a buffer of its own size.
#[verifier::external_body]
fn next_packet_outcome(source: &mut Mp3Source) -> (outcome: PacketOutcome) {
    let packet = match source.format.next_packet() {
        Ok(packet) => packet,
        Err(error) => return PacketOutcome::Unreadable(error),
    };
    match source.decoder.decode(&packet) {
        Ok(decoded) => {
            let spec = *decoded.spec();
            let mut buffer = symphonia::core::audio::SampleBuffer::<i16>::new(decoded.capacity() as u64, spec);
            buffer.copy_interleaved_ref(decoded);
            PacketOutcome::Decoded { rate: spec.rate, samples: buffer.samples().to_vec() }
        },
        Err(error) => PacketOutcome::Undecodable(error),
    }
}

/// Opens a byte stream for decoding: probes it, then makes a decoder for its
/// default track. Each failure is reported by its own error.
pub fn open_mp3(bytes: Vec<u8>) -> (opened: Result<Mp3Source, Mp3Error>)
    ensures
        opened matches Err(Mp3Error::Probe(_)) <==> !mp3_probes(bytes@),
        opened matches Err(Mp3Error::NoDefaultTrack) <==> mp3_probes(bytes@) && !has_default_track(bytes@),
        opened matches Err(Mp3Error::Codec(_)) <==> mp3_probes(bytes@) && has_default_track(bytes@) && !track_decodable(
            bytes@,
        ),
        opened is Ok <==> mp3_probes(bytes@) && has_default_track(bytes@) && track_decodable(bytes@),
{
    let ghost view = bytes@;
    match probe_mp3(bytes) {
        Err(error) => Err(Mp3Error::Probe(error)),
        Ok(probed) => {
            assert(probed.bytes@ == view);
            match default_track_decoder(probed) {
                None => Err(Mp3Error::NoDefaultTrack),
                Some(Err(error)) => Err(Mp3Error::Codec(error)),
                Some(Ok(source)) => Ok(source),
            }
        },
    }
}

/// Reads and decodes the next packet of a stream.
pub fn next_packet(source: &mut Mp3Source) -> (outcome: PacketOutcome) {
    next_packet_outcome(source)
}

/// `new` is `old` after a packet with sample rate `rate` and samples
/// `samples` was absorbed: the samples are appended, and the rate is kept
/// from the first decoded packet.
pub open spec fn absorbed(old: DecodeState, new: DecodeState, rate: u32, samples: Seq<i16>) -> bool {
    &&& new.samples@ == old.samples@ + samples
    &&& new.rate == if old.rate is Some {
        old.rate
    } else {
        Some(rate)
    }
}

/// Takes in the outcome of one packet: appends decoded samples and keeps the
/// sample rate of the first decoded packet; skips an undecodable packet;
/// stops at a packet that cannot be read. Returns whether the stream goes on.
pub fn absorb_packet(state: &mut DecodeState, outcome: PacketOutcome) -> (more: bool)
    ensures
        more == !(outcome is Unreadable),
        outcome matches PacketOutcome::Decoded { rate, samples } ==> absorbed(*old(state), *final(state), rate, samples@),
        !(outcome is Decoded) ==> final(state).samples@ == old(state).samples@ && final(state).rate == old(state).rate,
{
    match outcome {
        PacketOutcome::Unreadable(_) => false,
        PacketOutcome::Undecodable(_) => true,
        PacketOutcome::Decoded { rate, samples } => {
            let mut samples = samples;
            state.samples.append(&mut samples);
            if state.rate.is_none() {
                state.rate = Some(rate);
            }
            true
        },
    }
}

} // verus!
