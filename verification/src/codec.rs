//! H.264 encoding and decoding of whole frames.

use openh264::decoder::{DecodedYUV, Decoder};
use openh264::encoder::{
    BitRate, EncodedBitStream, Encoder, EncoderConfig, FrameRate, Layer,
};
use openh264::formats::{YUVBuffer, YUVSource};
use openh264::OpenH264API;
use vstd::prelude::*;

use crate::convert::{
    bgra_to_i420, clamped, i420, law_i420_layout, lemma_chroma_samples, lemma_luma_sample, xrgb_at,
};
use crate::proto::{joined, law_joined, push_bytes};

verus! {

/// `openh264::encoder::Encoder`, opaque.
#[verifier::external_type_specification]
#[verifier::external_body]
pub struct ExEncoder(Encoder);

/// `openh264::encoder::FrameRate`, opaque.
#[verifier::external_type_specification]
#[verifier::external_body]
pub struct ExFrameRate(FrameRate);

/// `openh264::encoder::EncodedBitStream`, opaque.
#[verifier::external_type_specification]
#[verifier::external_body]
pub struct ExEncodedBitStream<'a>(EncodedBitStream<'a>);

/// `openh264::encoder::Layer`, opaque.
#[verifier::external_type_specification]
#[verifier::external_body]
pub struct ExLayer<'a>(Layer<'a>);

/// `openh264::decoder::Decoder`, opaque.
#[verifier::external_type_specification]
#[verifier::external_body]
pub struct ExDecoder(Decoder);

/// `openh264::decoder::DecodedYUV`, opaque.
#[verifier::external_type_specification]
#[verifier::external_body]
pub struct ExDecodedYUV<'a>(DecodedYUV<'a>);

/// `openh264::Error`, opaque.
#[verifier::external_type_specification]
#[verifier::external_body]
pub struct ExCodecError(openh264::Error);

/// The layers of an encoded frame, each with its NAL units.
pub uninterp spec fn stream_layers(stream: EncodedBitStream<'_>) -> Seq<Seq<Seq<u8>>>;

/// The NAL units of a layer.
pub uninterp spec fn layer_units(layer: Layer<'_>) -> Seq<Seq<u8>>;

/// The frames that an encoder has been handed, each as its I420 planes, width and
/// height.
pub uninterp spec fn encoder_frames(enc: Encoder) -> Seq<(Seq<u8>, usize, usize)>;

/// Bits per second and frame rate that an encoder was made for.
pub uninterp spec fn encoder_rates(enc: Encoder) -> (u32, FrameRate);

/// What an encoder answered to the last frame that it was handed: the layers of the
/// encoded frame, each with its NAL units, or an error.
pub uninterp spec fn encoder_reply(enc: Encoder) -> Result<Seq<Seq<Seq<u8>>>, openh264::Error>;

/// `EncodedBitStream::num_layers`: how many layers the stream has.
pub assume_specification<'a>[ EncodedBitStream::<'a>::num_layers ](
    stream: &EncodedBitStream<'a>,
) -> (n: usize)
    ensures
        n == stream_layers(*stream).len(),
;

/// `EncodedBitStream::layer`: the layer at an index, if the stream has it.
pub assume_specification<'a>[ EncodedBitStream::<'a>::layer ](
    stream: &EncodedBitStream<'a>,
    i: usize,
) -> (layer: Option<Layer<'a>>)
    ensures
        layer is Some <==> i < stream_layers(*stream).len(),
        layer matches Some(l) ==> layer_units(l) == stream_layers(*stream)[i as int],
;

/// `Layer::nal_count`: how many NAL units the layer has.
pub assume_specification<'a>[ Layer::<'a>::nal_count ](layer: &Layer<'a>) -> (n: usize)
    ensures
        n == layer_units(*layer).len(),
;

/// `Layer::nal_unit`: the NAL unit at an index, if the layer has it.
pub assume_specification<'a, 'b>[ Layer::<'a>::nal_unit ](layer: &'b Layer<'a>, i: usize) -> (unit: Option<&'b [u8]>)
    ensures
        unit is Some <==> i < layer_units(*layer).len(),
        unit matches Some(u) ==> u@ == layer_units(*layer)[i as int],
;

/// What a decoder answered to the last packet that it was handed: a picture, if one was
/// ready, or an error.
pub uninterp spec fn decoder_reply(dec: Decoder) -> Result<Option<Picture>, openh264::Error>;

/// The packets that a decoder has been handed.
pub uninterp spec fn decoder_packets(dec: Decoder) -> Seq<Seq<u8>>;

/// Width and height of a decoded picture.
pub uninterp spec fn picture_size(picture: DecodedYUV<'_>) -> (usize, usize);

/// The Y, the U and the V plane of a decoded picture.
pub uninterp spec fn picture_planes(picture: DecodedYUV<'_>) -> (Seq<u8>, Seq<u8>, Seq<u8>);

/// How far apart the rows of each plane of a decoded picture begin.
pub uninterp spec fn picture_strides(picture: DecodedYUV<'_>) -> (usize, usize, usize);

/// A decoded picture: its size, its planes, and how far apart their rows begin.
pub ghost struct Picture {
    pub size: (usize, usize),
    pub planes: (Seq<u8>, Seq<u8>, Seq<u8>),
    pub strides: (usize, usize, usize),
}

/// The XRGB pixel of a decoded picture at a row and a column.
pub open spec fn pixel_at(p: Picture, row: int, col: int) -> int {
    xrgb_at(
        p.planes.0,
        p.strides.0 as int,
        p.planes.1,
        p.strides.1 as int,
        p.planes.2,
        p.strides.2 as int,
        row,
        col,
    )
}

/// A colour that is at most two steps from another.
pub open spec fn near(colour: u8, other: int) -> bool {
    other - 2 <= colour <= other + 2
}

/// The four bytes from `at` on are red, green and blue of an XRGB pixel, each of them
/// nearly, and full alpha.
pub open spec fn shows_pixel(rgba: Seq<u8>, at: int, pixel: int) -> bool {
    &&& near(rgba[at], pixel / 0x1_0000)
    &&& near(rgba[at + 1], pixel / 0x100 % 0x100)
    &&& near(rgba[at + 2], pixel % 0x100)
    &&& rgba[at + 3] == 255
}

/// The bytes show every pixel of a picture, row by row.
pub open spec fn shows(rgba: Seq<u8>, p: Picture) -> bool {
    &&& rgba.len() == p.size.0 * p.size.1 * 4
    &&& forall|row: int, col: int|
        0 <= row < p.size.1 && 0 <= col < p.size.0 ==> shows_pixel(
            rgba,
            (row * p.size.0 + col) * 4,
            #[trigger] pixel_at(p, row, col),
        )
}

/// Calls `Encoder::with_api_config` with a configuration that has this bit rate
/// and this frame rate, and the defaults otherwise. A new encoder has been handed
/// no frame. Nothing is claimed of when it fails.
#[verifier::external_body]
fn h264_encoder(bps: u32, rate: FrameRate) -> (r: Result<Encoder, openh264::Error>)
    ensures
        r matches Ok(enc) ==> encoder_frames(enc) == Seq::<(Seq<u8>, usize, usize)>::empty(),
        r matches Ok(enc) ==> encoder_rates(enc) == (bps, rate),
{
    let config = EncoderConfig::new().bitrate(BitRate::from_bps(bps)).max_frame_rate(rate);
    Encoder::with_api_config(OpenH264API::from_source(), config)
}

/// A picture that is too large for the encoder, which takes 3840 by 2160 pixels, or
/// the same upright. Sizes that need more than 31 bits are not judged.
pub open spec fn beyond_encoder(width: usize, height: usize) -> bool {
    &&& width <= 0x7fff_ffff
    &&& height <= 0x7fff_ffff
    &&& width > 3840 || height > 3840 || (width > 2160 && height > 2160)
}

/// An encoder's answer, the stream as its layers.
pub open spec fn reply_layers(r: Result<EncodedBitStream<'_>, openh264::Error>) -> Result<
    Seq<Seq<Seq<u8>>>,
    openh264::Error,
> {
    match r {
        Ok(stream) => Ok(stream_layers(stream)),
        Err(e) => Err(e),
    }
}

/// What a decoded picture holds.
pub open spec fn picture_of(picture: DecodedYUV<'_>) -> Picture {
    Picture {
        size: picture_size(picture),
        planes: picture_planes(picture),
        strides: picture_strides(picture),
    }
}

/// A decoder's answer, the picture as what it holds.
pub open spec fn reply_picture(r: Result<Option<DecodedYUV<'_>>, openh264::Error>) -> Result<
    Option<Picture>,
    openh264::Error,
> {
    match r {
        Ok(Some(picture)) => Ok(Some(picture_of(picture))),
        Ok(None) => Ok(None),
        Err(e) => Err(e),
    }
}

/// Calls `Encoder::encode` on the I420 planes, which `YUVBuffer::from_vec` takes if
/// width and height are even and the planes have their sizes. The encoder's rates
/// stay, the stream shows what the encoder holds of the encoded frame, and a picture
/// that is too large gives an error. Nothing is claimed of what the encoded frame is,
/// which depends on the frames before and on how many threads the machine has, nor
/// of when else it fails.
#[verifier::external_body]
fn h264_encode<'a>(enc: &'a mut Encoder, i420: Vec<u8>, width: usize, height: usize) -> (r: Result<
    EncodedBitStream<'a>,
    openh264::Error,
>)
    requires
        width % 2 == 0,
        height % 2 == 0,
        3 * (width * height) <= usize::MAX,
        i420@.len() == 3 * (width * height) / 2,
    ensures
        encoder_frames(*final(enc)) == encoder_frames(*old(enc)).push((i420@, width, height)),
        encoder_rates(*final(enc)) == encoder_rates(*old(enc)),
        beyond_encoder(width, height) ==> r is Err,
        encoder_reply(*final(enc)) == reply_layers(r),
{
    enc.encode(&YUVBuffer::from_vec(i420, width, height))
}

/// Calls `Decoder::new`. A new decoder has been handed no packet. Nothing is
/// claimed of when it fails.
#[verifier::external_body]
fn h264_decoder() -> (r: Result<Decoder, openh264::Error>)
    ensures
        r matches Ok(dec) ==> decoder_packets(dec) == Seq::<Seq<u8>>::empty(),
{
    Decoder::new()
}

/// Calls `Decoder::decode`, which hands the decoder a packet and gives its answer.
/// Nothing is claimed of the picture, of when there is one, nor of when it fails: that
/// is up to the decoder's native code.
#[verifier::external_body]
fn h264_decode<'a>(dec: &'a mut Decoder, packet: &[u8]) -> (r: Result<
    Option<DecodedYUV<'a>>,
    openh264::Error,
>)
    ensures
        decoder_packets(*final(dec)) == decoder_packets(*old(dec)).push(packet@),
        decoder_reply(*final(dec)) == reply_picture(r),
{
    dec.decode(packet)
}

/// Calls `YUVSource::dimensions` of a decoded picture: its width and height.
#[verifier::external_body]
fn picture_dimensions(picture: &DecodedYUV<'_>) -> (r: (usize, usize))
    ensures
        r == picture_size(*picture),
{
    picture.dimensions()
}

/// Calls `DecodedYUV::write_rgba8`, which takes a buffer of exactly four bytes for
/// each pixel and fills it with red, green and blue, by the limited-range BT.601
/// formula from the picture's planes, and an alpha of 255. Machines with other vector
/// instructions round the colours otherwise; all of them stay within two steps of what
/// the formula gives in whole numbers.
#[verifier::external_body]
fn write_rgba(picture: &DecodedYUV<'_>, target: &mut Vec<u8>)
    requires
        old(target)@.len() == picture_size(*picture).0 * picture_size(*picture).1 * 4,
    ensures
        shows(
            final(target)@,
            (Picture {
                size: picture_size(*picture),
                planes: picture_planes(*picture),
                strides: picture_strides(*picture),
            }),
        ),
{
    picture.write_rgba8(target.as_mut_slice());
}

/// What went wrong with a codec, and what it said.
#[derive(Debug)]
pub enum CodecError {
    CreateEncoder(openh264::Error),
    Encode(openh264::Error),
    CreateDecoder(openh264::Error),
    Decode(openh264::Error),
    /// A decoded picture has more bytes than can be addressed.
    PictureTooLarge,
}

impl CodecError {
    /// What was being done, in words.
    pub fn context(&self) -> (text: &'static str)
        ensures
            text@ == match *self {
                CodecError::CreateEncoder(_) => "create H.264 encoder"@,
                CodecError::Encode(_) => "H.264 encode"@,
                CodecError::CreateDecoder(_) => "create H.264 decoder"@,
                CodecError::Decode(_) => "H.264 decode"@,
                CodecError::PictureTooLarge => "H.264 decode: picture too large"@,
            },
    {
        match self {
            CodecError::CreateEncoder(_) => "create H.264 encoder",
            CodecError::Encode(_) => "H.264 encode",
            CodecError::CreateDecoder(_) => "create H.264 decoder",
            CodecError::Decode(_) => "H.264 decode",
            CodecError::PictureTooLarge => "H.264 decode: picture too large",
        }
    }
}

/// All NAL units of all layers, one behind the other.
pub open spec fn joined_layers(layers: Seq<Seq<Seq<u8>>>) -> Seq<u8>
    decreases layers.len(),
{
    if layers.len() == 0 {
        Seq::empty()
    } else {
        joined_layers(layers.drop_last()) + joined(layers.last())
    }
}

/// Collects the NAL units of all layers into one flat run of bytes.
pub fn collect_nals(stream: &EncodedBitStream<'_>) -> (out: Vec<u8>)
    ensures
        out@ == joined_layers(stream_layers(*stream)),
{
    let ghost layers = stream_layers(*stream);
    let mut out: Vec<u8> = Vec::new();
    let layer_count: usize = stream.num_layers();
    let mut i: usize = 0;
    while i < layer_count
        invariant
            layers == stream_layers(*stream),
            layer_count == layers.len(),
            i <= layer_count,
            out@ == joined_layers(layers.take(i as int)),
        decreases layer_count - i,
    {
        if let Some(layer) = stream.layer(i) {
            let ghost units = layer_units(layer);
            let ghost before = out@;
            let unit_count: usize = layer.nal_count();
            let mut j: usize = 0;
            assert(before =~= before + joined(units.take(0)));
            while j < unit_count
                invariant
                    units == layer_units(layer),
                    unit_count == units.len(),
                    j <= unit_count,
                    out@ == before + joined(units.take(j as int)),
                decreases unit_count - j,
            {
                if let Some(unit) = layer.nal_unit(j) {
                    push_bytes(&mut out, unit);
                }
                proof {
                    let next = units.take(j + 1);
                    assert(next.drop_last() =~= units.take(j as int));
                    assert(out@ =~= before + joined(next));
                }
                j = j + 1;
            }
            assert(units.take(units.len() as int) =~= units);
        }
        proof {
            let next = layers.take(i + 1);
            assert(next.drop_last() =~= layers.take(i as int));
        }
        i = i + 1;
    }
    assert(layers.take(layers.len() as int) =~= layers);
    out
}

/// Encodes BGRA frames to H.264.
pub struct VideoEncoder {
    enc: Encoder,
}

/// That came of making an encoder for this bit rate and this frame rate.
pub closed spec fn encoder_made(
    bps: u32,
    rate: FrameRate,
    made: Result<Encoder, openh264::Error>,
) -> bool {
    call_ensures(h264_encoder, (bps, rate), made)
}

/// The result holds the encoder that was made, or says why none was.
pub open spec fn holds_encoder(
    made: Result<Encoder, openh264::Error>,
    r: Result<VideoEncoder, CodecError>,
) -> bool {
    match made {
        Ok(enc) => r matches Ok(e) && e.encoder() == enc,
        Err(e) => r == Err::<VideoEncoder, _>(CodecError::CreateEncoder(e)),
    }
}

impl VideoEncoder {
    /// The encoder that does the work.
    pub closed spec fn encoder(&self) -> Encoder {
        self.enc
    }

    /// The frames that have been handed to the encoder, each as its I420 planes,
    /// width and height.
    pub closed spec fn frames(&self) -> Seq<(Seq<u8>, usize, usize)> {
        encoder_frames(self.enc)
    }

    /// What the encoder answered to the last of them.
    pub closed spec fn reply(&self) -> Result<Seq<Seq<Seq<u8>>>, openh264::Error> {
        encoder_reply(self.enc)
    }

    /// Bits per second and frame rate that the encoder was made for.
    pub closed spec fn rates(&self) -> (u32, FrameRate) {
        encoder_rates(self.enc)
    }

    /// An encoder for at most that frame rate and `bitrate_mbps` million bits per
    /// second. Fails exactly if none can be made, with what the codec said.
    pub fn new(frame_rate: FrameRate, bitrate_mbps: u32) -> (r: Result<Self, CodecError>)
        requires
            bitrate_mbps * 1_000_000 <= u32::MAX,
        ensures
            match r {
                Ok(e) => {
                    &&& e.frames() == Seq::<(Seq<u8>, usize, usize)>::empty()
                    &&& e.rates() == ((bitrate_mbps * 1_000_000) as u32, frame_rate)
                },
                Err(e) => e is CreateEncoder,
            },
            exists|made: Result<Encoder, openh264::Error>| #[trigger]
                encoder_made((bitrate_mbps * 1_000_000) as u32, frame_rate, made)
                    && holds_encoder(made, r),
    {
        let bps: u32 = bitrate_mbps * 1_000_000;
        let made = h264_encoder(bps, frame_rate);
        assert(encoder_made(bps, frame_rate, made));
        match made {
            Ok(enc) => Ok(VideoEncoder { enc }),
            Err(e) => Err(CodecError::CreateEncoder(e)),
        }
    }

    /// Encodes a BGRA frame: all NAL units of the encoded frame, one behind the
    /// other. What the encoder is handed is the I420 image of the frame.
    pub fn encode_bgra(&mut self, bgra: &[u8], width: usize, height: usize) -> (r: Result<
        Vec<u8>,
        CodecError,
    >)
        requires
            width % 2 == 0,
            height % 2 == 0,
            width * height * 4 <= bgra@.len() + 1,
        ensures
            final(self).rates() == old(self).rates(),
            final(self).frames() == old(self).frames().push(
                (i420(bgra@, width as int, height as int), width, height),
            ),
            beyond_encoder(width, height) ==> r is Err,
            match final(self).reply() {
                Ok(layers) => r matches Ok(nal) && nal@ == joined_layers(layers),
                Err(e) => r == Err::<Vec<u8>, _>(CodecError::Encode(e)),
            },
    {
        proof {
            law_i420_layout(bgra@, width as int, height as int);
            let w = width as int / 2;
            let h = height as int / 2;
            assert(width * height == 4 * (w * h)) by (nonlinear_arith)
                requires
                    width == 2 * w,
                    height == 2 * h,
            ;
            assert(0 <= w * h) by (nonlinear_arith)
                requires
                    0 <= w,
                    0 <= h,
            ;
            assert(bgra@.len() == bgra.len());
        }
        let planes = bgra_to_i420(bgra, width, height);
        match h264_encode(&mut self.enc, planes, width, height) {
            Ok(stream) => Ok(collect_nals(&stream)),
            Err(e) => Err(CodecError::Encode(e)),
        }
    }
}

/// The size of a decoded picture can be addressed, four bytes to a pixel.
pub open spec fn picture_fits(size: (usize, usize)) -> bool {
    size.0 * size.1 * 4 <= usize::MAX
}

/// The bytes show a picture, and the given width and height hold the low 32 bits of
/// its own.
pub open spec fn is_rgba(frame: (Seq<u8>, u32, u32), p: Picture) -> bool {
    &&& frame.1 == p.size.0 as u32
    &&& frame.2 == p.size.1 as u32
    &&& shows(frame.0, p)
}

/// The RGBA bytes of a decoded picture, its width and its height.
pub fn picture_rgba(picture: &DecodedYUV<'_>) -> (r: Result<(Vec<u8>, u32, u32), CodecError>)
    ensures
        r is Ok <==> picture_fits(picture_size(*picture)),
        match r {
            Ok((rgba, w, h)) => is_rgba((rgba@, w, h), picture_of(*picture)),
            Err(e) => e is PictureTooLarge,
        },
{
    let (w, h) = picture_dimensions(picture);
    let pixels: usize = match w.checked_mul(h) {
        Some(n) => n,
        None => {
            return Err(CodecError::PictureTooLarge);
        },
    };
    let len: usize = match pixels.checked_mul(4) {
        Some(n) => n,
        None => {
            return Err(CodecError::PictureTooLarge);
        },
    };
    let mut rgba: Vec<u8> = vec![0u8; len];
    write_rgba(picture, &mut rgba);
    Ok((rgba, w as u32, h as u32))
}

/// Decodes H.264 to RGBA pictures.
pub struct VideoDecoder {
    dec: Decoder,
}

/// That came of making a decoder.
pub closed spec fn decoder_made(made: Result<Decoder, openh264::Error>) -> bool {
    call_ensures(h264_decoder, (), made)
}

/// The result holds the decoder that was made, or says why none was.
pub open spec fn holds_decoder(
    made: Result<Decoder, openh264::Error>,
    r: Result<VideoDecoder, CodecError>,
) -> bool {
    match made {
        Ok(dec) => r matches Ok(d) && d.decoder() == dec,
        Err(e) => r == Err::<VideoDecoder, _>(CodecError::CreateDecoder(e)),
    }
}

impl VideoDecoder {
    /// The decoder that does the work.
    pub closed spec fn decoder(&self) -> Decoder {
        self.dec
    }

    /// The packets that have been handed to the decoder.
    pub closed spec fn packets(&self) -> Seq<Seq<u8>> {
        decoder_packets(self.dec)
    }

    /// What the decoder answered to the last of them: a picture, if one was ready, or
    /// an error.
    pub closed spec fn reply(&self) -> Result<Option<Picture>, openh264::Error> {
        decoder_reply(self.dec)
    }

    /// A decoder. Fails exactly if none can be made, with what the codec said.
    pub fn new() -> (r: Result<Self, CodecError>)
        ensures
            match r {
                Ok(d) => d.packets() == Seq::<Seq<u8>>::empty(),
                Err(e) => e is CreateDecoder,
            },
            exists|made: Result<Decoder, openh264::Error>| #[trigger]
                decoder_made(made) && holds_decoder(made, r),
    {
        let made = h264_decoder();
        assert(decoder_made(made));
        match made {
            Ok(dec) => Ok(VideoDecoder { dec }),
            Err(e) => Err(CodecError::CreateDecoder(e)),
        }
    }

    /// Decodes H.264 NAL bytes. Gives the RGBA bytes, the width and the height of
    /// a picture when one is ready, `None` while the decoder is buffering.
    pub fn decode(&mut self, nal: &[u8]) -> (r: Result<Option<(Vec<u8>, u32, u32)>, CodecError>)
        ensures
            final(self).packets() == old(self).packets().push(nal@),
            match final(self).reply() {
                Ok(Some(p)) => if picture_fits(p.size) {
                    r matches Ok(Some(f)) && is_rgba((f.0@, f.1, f.2), p)
                } else {
                    r matches Err(e) && e is PictureTooLarge
                },
                Ok(None) => r matches Ok(None),
                Err(e) => r == Err::<Option<(Vec<u8>, u32, u32)>, _>(CodecError::Decode(e)),
            },
    {
        match h264_decode(&mut self.dec, nal) {
            Ok(Some(picture)) => match picture_rgba(&picture) {
                Ok(frame) => Ok(Some(frame)),
                Err(e) => Err(e),
            },
            Ok(None) => Ok(None),
            Err(e) => Err(CodecError::Decode(e)),
        }
    }
}

/// The NAL units of an encoded frame are handed on as they are and in order: those of the
/// first layer, then those of the next. Nothing comes of no layers, and those of two
/// lists of layers stand one behind the other.
pub proof fn law_units_in_order(units: Seq<Seq<u8>>, a: Seq<Seq<Seq<u8>>>, b: Seq<Seq<Seq<u8>>>)
    ensures
        joined_layers(Seq::<Seq<Seq<u8>>>::empty()) == Seq::<u8>::empty(),
        joined_layers(seq![units]) == joined(units),
        joined_layers(a + b) == joined_layers(a) + joined_layers(b),
        units.len() == 1 ==> joined_layers(seq![units]) == units[0],
    decreases b.len(),
{
    reveal_with_fuel(joined_layers, 2);
    assert(seq![units].drop_last() =~= Seq::<Seq<Seq<u8>>>::empty());
    assert(joined_layers(seq![units]) =~= joined(units));
    if units.len() == 1 {
        law_joined(units[0], units, units);
        assert(units =~= seq![units[0]]);
    }
    if b.len() == 0 {
        assert(a + b =~= a);
    } else {
        law_units_in_order(units, a, b.drop_last());
        assert((a + b).drop_last() =~= a + b.drop_last());
        assert((a + b).last() == b.last());
    }
    assert(joined_layers(a + b) =~= joined_layers(a) + joined_layers(b));
}

/// A stream is collected into the NAL units of all its layers.
pub proof fn law_stream_collected(stream: &EncodedBitStream<'_>, out: Vec<u8>)
    requires
        call_ensures(collect_nals, (stream,), out),
    ensures
        stream_layers(*stream).len() == 0 ==> out@ == Seq::<u8>::empty(),
        stream_layers(*stream).len() == 1 ==> out@ == joined(stream_layers(*stream)[0]),
        forall|k: int|
            0 <= k <= stream_layers(*stream).len() ==> out@ == joined_layers(
                #[trigger] stream_layers(*stream).take(k),
            ) + joined_layers(stream_layers(*stream).skip(k)),
{
    let layers = stream_layers(*stream);
    law_units_in_order(Seq::empty(), layers, layers);
    if layers.len() == 0 {
        assert(layers =~= Seq::<Seq<Seq<u8>>>::empty());
    }
    if layers.len() == 1 {
        assert(layers =~= seq![layers[0]]);
        law_units_in_order(layers[0], layers, layers);
    }
    assert forall|k: int| 0 <= k <= layers.len() implies out@ == joined_layers(
        #[trigger] layers.take(k),
    ) + joined_layers(layers.skip(k)) by {
        law_units_in_order(Seq::empty(), layers.take(k), layers.skip(k));
        assert(layers.take(k) + layers.skip(k) =~= layers);
    }
}

/// A frame is encoded as it looks: the encoder is handed, behind the frames before, a
/// picture of the same size in which each pixel has its own luma and each block of two by
/// two pixels the chroma of its upper left one.
pub proof fn law_frame_handed_over(
    enc: &mut VideoEncoder,
    bgra: &[u8],
    width: usize,
    height: usize,
    r: Result<Vec<u8>, CodecError>,
    row: int,
    col: int,
    i: int,
    j: int,
)
    requires
        call_ensures(VideoEncoder::encode_bgra, (enc, bgra, width, height), r),
    ensures
        final(enc).rates() == old(enc).rates(),
        final(enc).frames().len() == old(enc).frames().len() + 1,
        final(enc).frames().drop_last() == old(enc).frames(),
        final(enc).frames().last().1 == width,
        final(enc).frames().last().2 == height,
        final(enc).frames().last().0.len() == width * height + 2 * ((width / 2) * (height / 2)),
        0 <= row < height && 0 <= col < width ==> {
            let at = 4 * (row * width + col);
            final(enc).frames().last().0[row * width + col] == (66 * bgra@[at + 2] + 129 * bgra@[at
                + 1] + 25 * bgra@[at] + 128) / 256 + 16
        },
        0 <= i < height as int / 2 && 0 <= j < width as int / 2 ==> {
            let at = 4 * (2 * i * width + 2 * j);
            let u = width * height + i * (width as int / 2) + j;
            let v = u + (width as int / 2) * (height as int / 2);
            let out = final(enc).frames().last().0;
            &&& out[u] == (-38 * bgra@[at + 2] - 74 * bgra@[at + 1] + 112 * bgra@[at] + 128) / 256
                + 128
            &&& out[v] == (112 * bgra@[at + 2] - 94 * bgra@[at + 1] - 18 * bgra@[at] + 128) / 256
                + 128
        },
{
    law_i420_layout(bgra@, width as int, height as int);
    assert(final(enc).frames().drop_last() =~= old(enc).frames());
    if 0 <= row < height && 0 <= col < width {
        lemma_luma_sample(bgra@, width as int, height as int, row, col);
    }
    if 0 <= i < height as int / 2 && 0 <= j < width as int / 2 {
        lemma_chroma_samples(bgra@, width as int, height as int, i, j);
    }
}

/// What the encoder answers is what comes back: the NAL units of the encoded frame, or
/// its error. A picture with a side of more than 3840 pixels, or with two of more than
/// 2160, is not encoded.
pub proof fn law_encoder_answers(
    enc: &mut VideoEncoder,
    bgra: &[u8],
    width: usize,
    height: usize,
    r: Result<Vec<u8>, CodecError>,
)
    requires
        call_ensures(VideoEncoder::encode_bgra, (enc, bgra, width, height), r),
    ensures
        match final(enc).reply() {
            Ok(layers) => {
                &&& r matches Ok(nal)
                &&& layers.len() == 0 ==> nal@ == Seq::<u8>::empty()
                &&& layers.len() == 1 ==> nal@ == joined(layers[0])
                &&& forall|k: int|
                    0 <= k <= layers.len() ==> nal@ == joined_layers(#[trigger] layers.take(k))
                        + joined_layers(layers.skip(k))
            },
            Err(e) => r == Err::<Vec<u8>, _>(CodecError::Encode(e)),
        },
        width <= 0x7fff_ffff && height <= 0x7fff_ffff && (width > 3840 || height > 3840) ==> r is Err,
        width <= 0x7fff_ffff && height <= 0x7fff_ffff && width > 2160 && height > 2160 ==> r is Err,
{
    if let Ok(layers) = final(enc).reply() {
        law_units_in_order(Seq::empty(), layers, layers);
        if layers.len() == 0 {
            assert(layers =~= Seq::<Seq<Seq<u8>>>::empty());
        }
        if layers.len() == 1 {
            assert(layers =~= seq![layers[0]]);
            law_units_in_order(layers[0], layers, layers);
        }
        assert forall|k: int| 0 <= k <= layers.len() implies joined_layers(layers)
            == joined_layers(#[trigger] layers.take(k)) + joined_layers(layers.skip(k)) by {
            law_units_in_order(Seq::empty(), layers.take(k), layers.skip(k));
            assert(layers.take(k) + layers.skip(k) =~= layers);
        }
    }
}

/// An encoder is made for the rates that were asked for, and has been handed nothing.
pub proof fn law_encoder_for_rates(
    frame_rate: FrameRate,
    bitrate_mbps: u32,
    r: Result<VideoEncoder, CodecError>,
)
    requires
        bitrate_mbps * 1_000_000 <= u32::MAX,
        call_ensures(VideoEncoder::new, (frame_rate, bitrate_mbps), r),
    ensures
        r matches Ok(e) ==> e.rates().0 == 1_000_000 * bitrate_mbps && e.rates().1 == frame_rate
            && e.frames().len() == 0,
        r matches Err(e) ==> e is CreateEncoder,
{
}

/// The three colours of an XRGB pixel.
proof fn lemma_colours(r: int, g: int, b: int)
    requires
        0 <= r <= 255,
        0 <= g <= 255,
        0 <= b <= 255,
    ensures
        (r * 0x1_0000 + g * 0x100 + b) / 0x1_0000 == r,
        (r * 0x1_0000 + g * 0x100 + b) / 0x100 % 0x100 == g,
        (r * 0x1_0000 + g * 0x100 + b) % 0x100 == b,
{
}

/// The colours of a pixel of a picture, from its samples.
proof fn lemma_pixel_shown(rgba: Seq<u8>, at: int, p: Picture, row: int, col: int)
    requires
        shows_pixel(rgba, at, pixel_at(p, row, col)),
    ensures
        ({
            let y = 298 * (p.planes.0[row * p.strides.0 + col] - 16);
            let u = p.planes.1[row / 2 * p.strides.1 + col / 2] - 128;
            let v = p.planes.2[row / 2 * p.strides.2 + col / 2] - 128;
            let red = (y + 409 * v + 128) / 256;
            let green = (y - 100 * u - 208 * v + 128) / 256;
            let blue = (y + 516 * u + 128) / 256;
            &&& 0 <= red <= 255 ==> red - 2 <= rgba[at] <= red + 2
            &&& red < 0 ==> rgba[at] <= 2
            &&& red > 255 ==> rgba[at] >= 253
            &&& 0 <= green <= 255 ==> green - 2 <= rgba[at + 1] <= green + 2
            &&& green < 0 ==> rgba[at + 1] <= 2
            &&& green > 255 ==> rgba[at + 1] >= 253
            &&& 0 <= blue <= 255 ==> blue - 2 <= rgba[at + 2] <= blue + 2
            &&& blue < 0 ==> rgba[at + 2] <= 2
            &&& blue > 255 ==> rgba[at + 2] >= 253
            &&& rgba[at + 3] == 255
        }),
{
    let y = 298 * (p.planes.0[row * p.strides.0 + col] - 16);
    let u = p.planes.1[row / 2 * p.strides.1 + col / 2] - 128;
    let v = p.planes.2[row / 2 * p.strides.2 + col / 2] - 128;
    let r = clamped((y + 409 * v + 128) / 256, 0, 255);
    let g = clamped((y - 100 * u - 208 * v + 128) / 256, 0, 255);
    let b = clamped((y + 516 * u + 128) / 256, 0, 255);
    lemma_colours(r, g, b);
    assert(pixel_at(p, row, col) == r * 0x1_0000 + g * 0x100 + b);
}

/// What the decoder answers is what comes back: a picture with its own size and four
/// bytes to a pixel, nothing while none is ready, or its error. Only a picture that has
/// more bytes than can be addressed is refused.
pub proof fn law_decoder_answers(
    dec: &mut VideoDecoder,
    nal: &[u8],
    r: Result<Option<(Vec<u8>, u32, u32)>, CodecError>,
)
    requires
        call_ensures(VideoDecoder::decode, (dec, nal), r),
    ensures
        final(dec).packets().len() == old(dec).packets().len() + 1,
        final(dec).packets().drop_last() == old(dec).packets(),
        final(dec).packets().last() == nal@,
        match final(dec).reply() {
            Ok(Some(p)) => if p.size.0 * p.size.1 * 4 <= usize::MAX {
                &&& r matches Ok(Some(f))
                &&& f.0@.len() == p.size.0 * p.size.1 * 4
                &&& f.1 == p.size.0 as u32
                &&& f.2 == p.size.1 as u32
            } else {
                r matches Err(e) && e is PictureTooLarge
            },
            Ok(None) => r matches Ok(None),
            Err(e) => r == Err::<Option<(Vec<u8>, u32, u32)>, _>(CodecError::Decode(e)),
        },
{
    assert(final(dec).packets().drop_last() =~= old(dec).packets());
    if let Ok(Some(p)) = final(dec).reply() {
        assert(picture_fits(p.size) <==> p.size.0 * p.size.1 * 4 <= usize::MAX);
    }
}

/// A picture that the decoder gives is shown as it is, row by row: red, green and blue
/// of each pixel within two of what the pixel's own luma sample and the chroma samples at
/// half its row and half its column give, and no transparency.
pub proof fn law_picture_shown(
    dec: &mut VideoDecoder,
    nal: &[u8],
    rgba: Vec<u8>,
    width: u32,
    height: u32,
    p: Picture,
    row: int,
    col: int,
)
    requires
        call_ensures(
            VideoDecoder::decode,
            (dec, nal),
            Ok::<Option<(Vec<u8>, u32, u32)>, CodecError>(Some((rgba, width, height))),
        ),
        final(dec).reply() == Ok::<Option<Picture>, openh264::Error>(Some(p)),
        0 <= row < p.size.1,
        0 <= col < p.size.0,
    ensures
        ({
            let at = (row * p.size.0 + col) * 4;
            let y = 298 * (p.planes.0[row * p.strides.0 + col] - 16);
            let u = p.planes.1[row / 2 * p.strides.1 + col / 2] - 128;
            let v = p.planes.2[row / 2 * p.strides.2 + col / 2] - 128;
            let red = (y + 409 * v + 128) / 256;
            let green = (y - 100 * u - 208 * v + 128) / 256;
            let blue = (y + 516 * u + 128) / 256;
            &&& 0 <= red <= 255 ==> red - 2 <= rgba@[at] <= red + 2
            &&& red < 0 ==> rgba@[at] <= 2
            &&& red > 255 ==> rgba@[at] >= 253
            &&& 0 <= green <= 255 ==> green - 2 <= rgba@[at + 1] <= green + 2
            &&& green < 0 ==> rgba@[at + 1] <= 2
            &&& green > 255 ==> rgba@[at + 1] >= 253
            &&& 0 <= blue <= 255 ==> blue - 2 <= rgba@[at + 2] <= blue + 2
            &&& blue < 0 ==> rgba@[at + 2] <= 2
            &&& blue > 255 ==> rgba@[at + 2] >= 253
            &&& rgba@[at + 3] == 255
        }),
{
    assert(is_rgba((rgba@, width, height), p));
    assert(shows_pixel(rgba@, (row * p.size.0 + col) * 4, pixel_at(p, row, col)));
    lemma_pixel_shown(rgba@, (row * p.size.0 + col) * 4, p, row, col);
}

/// A decoder has been handed nothing. Where none can be made, what the codec said is the
/// error; so too of an encoder.
pub proof fn law_codecs_made(
    r: Result<VideoDecoder, CodecError>,
    frame_rate: FrameRate,
    bitrate_mbps: u32,
    s: Result<VideoEncoder, CodecError>,
)
    requires
        call_ensures(VideoDecoder::new, (), r),
        bitrate_mbps * 1_000_000 <= u32::MAX,
        call_ensures(VideoEncoder::new, (frame_rate, bitrate_mbps), s),
    ensures
        r matches Ok(d) ==> d.packets().len() == 0,
        exists|made: Result<Decoder, openh264::Error>| #[trigger]
            decoder_made(made) && match made {
                Ok(dec) => r matches Ok(d) && d.decoder() == dec,
                Err(e) => r == Err::<VideoDecoder, _>(CodecError::CreateDecoder(e)),
            },
        exists|made: Result<Encoder, openh264::Error>| #[trigger]
            encoder_made((1_000_000 * bitrate_mbps) as u32, frame_rate, made) && match made {
                Ok(enc) => s matches Ok(e) && e.encoder() == enc,
                Err(e) => s == Err::<VideoEncoder, _>(CodecError::CreateEncoder(e)),
            },
{
    let made = choose|made: Result<Decoder, openh264::Error>| #[trigger]
        decoder_made(made) && holds_decoder(made, r);
    assert(decoder_made(made));
    let bps = (bitrate_mbps * 1_000_000) as u32;
    let made = choose|made: Result<Encoder, openh264::Error>| #[trigger]
        encoder_made(bps, frame_rate, made) && holds_encoder(made, s);
    assert(encoder_made((1_000_000 * bitrate_mbps) as u32, frame_rate, made));
}

/// Each error says what was being done.
pub proof fn law_codec_error_words(error: CodecError, text: &'static str)
    requires
        call_ensures(CodecError::context, (&error,), text),
    ensures
        error is CreateEncoder ==> text@ == "create H.264 encoder"@,
        error is Encode ==> text@ == "H.264 encode"@,
        error is CreateDecoder ==> text@ == "create H.264 decoder"@,
        error is Decode ==> text@ == "H.264 decode"@,
        error is PictureTooLarge ==> text@ == "H.264 decode: picture too large"@,
{
}

} // verus!
