//! Stego codec: hides a payload image in the low nibbles of a cover's RGBA
//! samples, and carries `(view budget, owner id)` in an extra metadata row
//! appended below the image.
//!
//! An image is a flat RGBA byte buffer with its dimensions; decoding,
//! resizing and PNG serialisation are done by the `image` crate behind
//! trusted wrappers, while the embedding, extraction and metadata logic is
//! verified here.

use vstd::prelude::*;

use crate::bytes::u32_be_byte;
use crate::bytes::u32_from_be;
use crate::bytes::lemma_u32_be_roundtrip;

verus! {

/// A decoded RGBA image: `data` holds `4 * width * height` samples, four
/// bytes (R, G, B, A) for each pixel, rows top to bottom.
pub struct ImageBuf {
    pub width: u32,
    pub height: u32,
    pub data: Vec<u8>,
}

/// Mathematical model of an [`ImageBuf`].
pub ghost struct ImageModel {
    pub width: nat,
    pub height: nat,
    pub data: Seq<u8>,
}

impl ImageModel {
    /// The buffer holds exactly one RGBA quadruple per pixel.
    pub open spec fn wf(self) -> bool {
        self.data.len() == 4 * self.width * self.height
    }
}

impl View for ImageBuf {
    type V = ImageModel;

    open spec fn view(&self) -> ImageModel {
        ImageModel { width: self.width as nat, height: self.height as nat, data: self.data@ }
    }
}

/// One stego sample: the cover's high nibble over the payload's high nibble.
pub open spec fn embed_byte(c: u8, p: u8) -> u8 {
    (c & 0xF0) | ((p >> 4u8) & 0x0F)
}

/// Recover a payload sample from a stego sample: its low nibble, shifted up.
pub open spec fn extract_byte(s: u8) -> u8 {
    (s & 0x0F) << 4u8
}

/// Embedding applied over a whole sample stream.
pub open spec fn embed_seq(cover: Seq<u8>, payload: Seq<u8>) -> Seq<u8> {
    Seq::new(cover.len(), |i: int| embed_byte(cover[i], payload[i]))
}

/// Extraction applied over a whole sample stream.
pub open spec fn extract_seq(stego: Seq<u8>) -> Seq<u8> {
    Seq::new(stego.len(), |i: int| extract_byte(stego[i]))
}

/// The stego image for `cover` and `payload` of equal dimensions.
pub open spec fn embed_model(cover: ImageModel, payload: ImageModel) -> ImageModel {
    ImageModel { width: cover.width, height: cover.height, data: embed_seq(cover.data, payload.data) }
}

/// The image extracted from a stego image.
pub open spec fn extract_model(stego: ImageModel) -> ImageModel {
    ImageModel { width: stego.width, height: stego.height, data: extract_seq(stego.data) }
}

/// The R sample of metadata pixel `j`: pixels 0..4 carry the big-endian
/// view budget, pixels 4..8 the big-endian owner id.
pub open spec fn meta_r(views: u32, owner: u32, j: int) -> u8 {
    if 0 <= j < 4 {
        u32_be_byte(views, j)
    } else if 4 <= j < 8 {
        u32_be_byte(owner, j - 4)
    } else {
        0
    }
}

/// Metadata pixel `j`: R carries data, G and B are zero, A is opaque.
pub open spec fn meta_pixel(views: u32, owner: u32, j: int) -> Seq<u8> {
    seq![meta_r(views, owner, j), 0, 0, 255]
}

/// The first `n` pixels of the metadata row.
pub open spec fn meta_row(views: u32, owner: u32, n: int) -> Seq<u8>
    decreases n,
{
    if n <= 0 {
        Seq::empty()
    } else {
        meta_row(views, owner, n - 1) + meta_pixel(views, owner, n - 1)
    }
}

/// `img` with the metadata row for `(views, owner)` appended at the bottom.
pub open spec fn with_meta_model(img: ImageModel, views: u32, owner: u32) -> ImageModel {
    ImageModel {
        width: img.width,
        height: img.height + 1,
        data: img.data + meta_row(views, owner, img.width as int),
    }
}

/// `img` without its bottom row.
pub open spec fn strip_meta_model(img: ImageModel) -> ImageModel {
    ImageModel {
        width: img.width,
        height: (img.height - 1) as nat,
        data: img.data.take(4 * img.width * (img.height - 1)),
    }
}

/// Offset of the R sample of pixel `j` in the bottom row of `img`.
pub open spec fn meta_offset(img: ImageModel, j: int) -> int {
    4 * img.width * (img.height - 1) + 4 * j
}

/// The view budget read from the bottom row of `img`.
pub open spec fn meta_views_of(img: ImageModel) -> u32 {
    u32_from_be(
        img.data[meta_offset(img, 0)],
        img.data[meta_offset(img, 1)],
        img.data[meta_offset(img, 2)],
        img.data[meta_offset(img, 3)],
    )
}

/// The owner id read from the bottom row of `img`.
pub open spec fn meta_owner_of(img: ImageModel) -> u32 {
    u32_from_be(
        img.data[meta_offset(img, 4)],
        img.data[meta_offset(img, 5)],
        img.data[meta_offset(img, 6)],
        img.data[meta_offset(img, 7)],
    )
}

pub proof fn lemma_meta_row_len(views: u32, owner: u32, n: int)
    ensures
        meta_row(views, owner, n).len() == if n <= 0 { 0int } else { 4 * n },
    decreases n,
{
    if n > 0 {
        lemma_meta_row_len(views, owner, n - 1);
    }
}

pub proof fn lemma_meta_row_index(views: u32, owner: u32, n: int, j: int, c: int)
    requires
        0 <= j < n,
        0 <= c < 4,
    ensures
        meta_row(views, owner, n)[4 * j + c] == meta_pixel(views, owner, j)[c],
    decreases n,
{
    lemma_meta_row_len(views, owner, n - 1);
    if j == n - 1 {
    } else {
        lemma_meta_row_index(views, owner, n - 1, j, c);
    }
}

/// Embed `payload` into `cover` sample by sample; both must be well formed
/// and of the same dimensions.
pub fn lsb_embed(cover: &ImageBuf, payload: &ImageBuf) -> (r: ImageBuf)
    requires
        cover@.wf(),
        payload@.wf(),
        cover@.width == payload@.width,
        cover@.height == payload@.height,
    ensures
        r@ == embed_model(cover@, payload@),
        r@.wf(),
{
    let n = cover.data.len();
    let mut out: Vec<u8> = Vec::new();
    let mut i: usize = 0;
    while i < n
        invariant
            n == cover.data@.len() == payload.data@.len(),
            i <= n,
            out@ == embed_seq(cover.data@, payload.data@).take(i as int),
        decreases n - i,
    {
        let c = cover.data[i];
        let p = payload.data[i];
        out.push((c & 0xF0) | ((p >> 4) & 0x0F));
        assert(out@ =~= embed_seq(cover.data@, payload.data@).take(i as int + 1));
        i = i + 1;
    }
    assert(embed_seq(cover.data@, payload.data@).take(n as int) =~= embed_seq(
        cover.data@,
        payload.data@,
    ));
    ImageBuf { width: cover.width, height: cover.height, data: out }
}

/// Recover the hidden image from a stego image: every sample's low
/// nibble, shifted up.
pub fn decrypt(stego: &ImageBuf) -> (r: ImageBuf)
    requires
        stego@.wf(),
    ensures
        r@ == extract_model(stego@),
        r@.wf(),
{
    let n = stego.data.len();
    let mut out: Vec<u8> = Vec::new();
    let mut i: usize = 0;
    while i < n
        invariant
            n == stego.data@.len(),
            i <= n,
            out@ == extract_seq(stego.data@).take(i as int),
        decreases n - i,
    {
        let s = stego.data[i];
        out.push((s & 0x0F) << 4);
        assert(out@ =~= extract_seq(stego.data@).take(i as int + 1));
        i = i + 1;
    }
    assert(extract_seq(stego.data@).take(n as int) =~= extract_seq(stego.data@));
    ImageBuf { width: stego.width, height: stego.height, data: out }
}

/// Append the metadata row carrying `(views, owner)` below `img`.
pub fn embed_metadata(img: &ImageBuf, views: u32, owner: u32) -> (r: ImageBuf)
    requires
        img@.wf(),
        img@.width >= 8,
        img@.height < u32::MAX,
        4 * img@.width * (img@.height + 1) <= usize::MAX,
    ensures
        r@ == with_meta_model(img@, views, owner),
        r@.wf(),
{
    let mut out: Vec<u8> = Vec::new();
    out.extend_from_slice(img.data.as_slice());
    let views_be = [
        (views >> 24) as u8,
        (views >> 16) as u8,
        (views >> 8) as u8,
        views as u8,
    ];
    let owner_be = [
        (owner >> 24) as u8,
        (owner >> 16) as u8,
        (owner >> 8) as u8,
        owner as u8,
    ];
    let mut j: usize = 0;
    while j < img.width as usize
        invariant
            j <= img@.width,
            img@.width >= 8,
            out@ == img.data@ + meta_row(views, owner, j as int),
            views_be@ =~= seq![
                u32_be_byte(views, 0),
                u32_be_byte(views, 1),
                u32_be_byte(views, 2),
                u32_be_byte(views, 3),
            ],
            owner_be@ =~= seq![
                u32_be_byte(owner, 0),
                u32_be_byte(owner, 1),
                u32_be_byte(owner, 2),
                u32_be_byte(owner, 3),
            ],
        decreases img@.width - j,
    {
        let r_sample: u8 = if j < 4 {
            views_be[j]
        } else if j < 8 {
            owner_be[j - 4]
        } else {
            0
        };
        assert(r_sample == meta_r(views, owner, j as int));
        out.push(r_sample);
        out.push(0);
        out.push(0);
        out.push(255);
        assert(out@ =~= img.data@ + meta_row(views, owner, j as int + 1));
        j = j + 1;
    }
    proof {
        lemma_meta_row_len(views, owner, img@.width as int);
        assert(4 * img@.width * (img@.height + 1) == 4 * img@.width * img@.height + 4
            * img@.width) by (nonlinear_arith);
    }
    ImageBuf { width: img.width, height: img.height + 1, data: out }
}

/// Read `(views, owner)` from the metadata row of `img`.
pub fn extract_metadata(img: &ImageBuf) -> (r: (u32, u32))
    requires
        img@.wf(),
        img@.width >= 8,
        img@.height >= 1,
    ensures
        r.0 == meta_views_of(img@),
        r.1 == meta_owner_of(img@),
{
    let total = img.data.len();
    proof {
        assert(total == 4 * img@.width * img@.height);
        assert(4 * img@.width * (img@.height - 1) + 4 * 8 <= 4 * img@.width * img@.height
            && 4 * img@.width <= 4 * img@.width * img@.height && 4 * img@.width * (img@.height
            - 1) <= 4 * img@.width * img@.height) by (nonlinear_arith)
            requires
                img@.width >= 8,
                img@.height >= 1,
        ;
    }
    let w = img.width as usize;
    let h1 = (img.height - 1) as usize;
    let base: usize = 4 * w * h1;
    let views = u32_from_be_exec(
        img.data[base],
        img.data[base + 4],
        img.data[base + 8],
        img.data[base + 12],
    );
    let owner = u32_from_be_exec(
        img.data[base + 16],
        img.data[base + 20],
        img.data[base + 24],
        img.data[base + 28],
    );
    (views, owner)
}

fn u32_from_be_exec(b0: u8, b1: u8, b2: u8, b3: u8) -> (x: u32)
    ensures
        x == u32_from_be(b0, b1, b2, b3),
{
    ((b0 as u32) << 24) | ((b1 as u32) << 16) | ((b2 as u32) << 8) | (b3 as u32)
}

/// Drop the bottom (metadata) row of `img`.
pub fn strip_metadata_row(img: &ImageBuf) -> (r: ImageBuf)
    requires
        img@.wf(),
        img@.height >= 1,
    ensures
        r@ == strip_meta_model(img@),
        r@.wf(),
{
    let total = img.data.len();
    proof {
        assert(total == 4 * img@.width * img@.height);
        assert(4 * img@.width <= 4 * img@.width * img@.height && 4 * img@.width * (img@.height
            - 1) <= 4 * img@.width * img@.height) by (nonlinear_arith)
            requires
                img@.height >= 1,
        ;
    }
    let w = img.width as usize;
    let h1 = (img.height - 1) as usize;
    let keep: usize = 4 * w * h1;
    let mut data = img.data.clone();
    data.truncate(keep);
    ImageBuf { width: img.width, height: img.height - 1, data }
}

/// Hiding and recovering one sample keeps its high nibble: the recovered
/// value differs from the original by less than 16.
pub proof fn lemma_sample_roundtrip(c: u8, p: u8)
    ensures
        extract_byte(embed_byte(c, p)) == (p & 0xF0),
        p - 16 < (p & 0xF0) <= p,
{
    assert((((c & 0xF0) | ((p >> 4u8) & 0x0F)) & 0x0F) << 4u8 == (p & 0xF0)) by (bit_vector);
    assert(p - 16 < (p & 0xF0) <= p) by (bit_vector);
}

/// Embedding a payload, appending the metadata row, stripping it again and
/// extracting restores every sample of the payload to within its high four
/// bits: each recovered byte differs from the original by less than 16.
pub proof fn lemma_stego_roundtrip(cover: ImageModel, payload: ImageModel, views: u32, owner: u32)
    requires
        cover.wf(),
        payload.wf(),
        cover.width == payload.width,
        cover.height == payload.height,
    ensures
        ({
            let recovered = extract_model(
                strip_meta_model(with_meta_model(embed_model(cover, payload), views, owner)),
            );
            &&& recovered.width == payload.width
            &&& recovered.height == payload.height
            &&& recovered.data.len() == payload.data.len()
            &&& forall|i: int|
                0 <= i < payload.data.len() ==> #[trigger] recovered.data[i] == (payload.data[i]
                    & 0xF0)
            &&& forall|i: int|
                0 <= i < payload.data.len() ==> payload.data[i] - 16 < #[trigger] recovered.data[i]
                    <= payload.data[i]
        }),
{
    let stego = embed_model(cover, payload);
    let framed = with_meta_model(stego, views, owner);
    let stripped = strip_meta_model(framed);
    lemma_meta_row_len(views, owner, stego.width as int);
    assert(stripped.data =~= stego.data) by {
        assert(framed.data.take(4 * framed.width * (framed.height - 1)) =~= stego.data);
    }
    let recovered = extract_model(stripped);
    assert forall|i: int| 0 <= i < payload.data.len() implies #[trigger] recovered.data[i] == (
    payload.data[i] & 0xF0) && payload.data[i] - 16 < recovered.data[i] <= payload.data[i] by {
        lemma_sample_roundtrip(cover.data[i], payload.data[i]);
    }
}

/// Appending the metadata row and reading it back returns the identical
/// `(views, owner)` pair.
pub proof fn lemma_metadata_roundtrip(img: ImageModel, views: u32, owner: u32)
    requires
        img.wf(),
        img.width >= 8,
    ensures
        meta_views_of(with_meta_model(img, views, owner)) == views,
        meta_owner_of(with_meta_model(img, views, owner)) == owner,
{
    let framed = with_meta_model(img, views, owner);
    lemma_meta_row_len(views, owner, img.width as int);
    assert(4 * framed.width * (framed.height - 1) == img.data.len()) by (nonlinear_arith)
        requires
            framed.width == img.width,
            framed.height == img.height + 1,
            img.data.len() == 4 * img.width * img.height,
    ;
    let base = img.data.len() as int;
    let w = img.width as int;
    assert forall|j: int| 0 <= j < 8 implies #[trigger] framed.data[base + 4 * j] == meta_r(
        views,
        owner,
        j,
    ) by {
        lemma_meta_row_index(views, owner, w, j, 0);
        assert(framed.data[base + 4 * j] == meta_row(views, owner, w)[4 * j]);
    }
    assert(meta_offset(framed, 0) == base + 4 * 0);
    assert(meta_offset(framed, 1) == base + 4 * 1);
    assert(meta_offset(framed, 2) == base + 4 * 2);
    assert(meta_offset(framed, 3) == base + 4 * 3);
    assert(meta_offset(framed, 4) == base + 4 * 4);
    assert(meta_offset(framed, 5) == base + 4 * 5);
    assert(meta_offset(framed, 6) == base + 4 * 6);
    assert(meta_offset(framed, 7) == base + 4 * 7);
    lemma_u32_be_roundtrip(views);
    lemma_u32_be_roundtrip(owner);
    assert(meta_views_of(framed) == u32_from_be(
        u32_be_byte(views, 0),
        u32_be_byte(views, 1),
        u32_be_byte(views, 2),
        u32_be_byte(views, 3),
    ));
    assert(meta_owner_of(framed) == u32_from_be(
        u32_be_byte(owner, 0),
        u32_be_byte(owner, 1),
        u32_be_byte(owner, 2),
        u32_be_byte(owner, 3),
    ));
}

/// Why an encode or decode round failed.
#[derive(Clone, Copy, Debug, PartialEq, Eq, Structural)]
pub enum CodecError {
    /// The byte blob is not a decodable image.
    DecodeFailed,
    /// The image cannot carry the payload plus a metadata row.
    CapacityExceeded,
    /// The image has no room for a metadata row.
    TooSmall,
    /// The PNG serialiser declined the image.
    EncodeFailed,
}

/// What `image::load_from_memory` (followed by RGBA8 conversion) yields for
/// a byte blob: `None` where the blob is not a decodable image.
pub uninterp spec fn rgba_decoded(bytes: Seq<u8>) -> Option<ImageModel>;

/// The RGBA samples of `img` after nearest-neighbour resampling to
/// `nw` by `nh` pixels.
pub uninterp spec fn rgba_resized(img: ImageModel, nw: nat, nh: nat) -> Seq<u8>;

/// What `DynamicImage::write_to` with the PNG format yields for an image:
/// the serialised bytes, or `None` where the encoder declines it. A pure
/// function of the samples and dimensions.
pub uninterp spec fn png_encoded_opt(img: ImageModel) -> Option<Seq<u8>>;

/// Relies on `image::load_from_memory` and `DynamicImage::to_rgba8`: both
/// are pure functions of the input bytes, and an RGBA8 buffer holds exactly
/// four samples per pixel.
#[verifier::external_body]
fn decode_rgba(bytes: &[u8]) -> (r: Option<ImageBuf>)
    ensures
        r is Some <==> rgba_decoded(bytes@) is Some,
        r matches Some(b) ==> rgba_decoded(bytes@) == Some(b@) && b@.wf(),
{
    match image::load_from_memory(bytes) {
        Ok(img) => {
            let rgba = img.to_rgba8();
            let (width, height) = rgba.dimensions();
            Some(ImageBuf { width, height, data: rgba.into_raw() })
        },
        Err(_) => None,
    }
}

/// Relies on `DynamicImage::resize_exact` with the nearest-neighbour
/// filter: a pure function of the samples that returns an image of exactly
/// the requested dimensions. `RgbaImage::from_raw` accepts the buffer
/// because a well-formed image holds four samples per pixel.
#[verifier::external_body]
fn resize_rgba(img: &ImageBuf, nw: u32, nh: u32) -> (r: ImageBuf)
    requires
        img@.wf(),
        img@.width > 0,
        img@.height > 0,
        nw > 0,
        nh > 0,
        4 * (nw as nat) * (nh as nat) <= usize::MAX,
    ensures
        r@.width == nw,
        r@.height == nh,
        r@.data == rgba_resized(img@, nw as nat, nh as nat),
        r@.wf(),
{
    let buf = image::RgbaImage::from_raw(img.width, img.height, img.data.clone()).unwrap();
    let resized = image::DynamicImage::ImageRgba8(buf)
        .resize_exact(nw, nh, image::imageops::FilterType::Nearest)
        .into_rgba8();
    ImageBuf { width: nw, height: nh, data: resized.into_raw() }
}

/// Relies on `DynamicImage::write_to` with the PNG format: a pure function
/// of the samples, succeeding or declining the same image the same way in
/// every run; `None` where the encoder declines it.
#[verifier::external_body]
fn encode_png(img: &ImageBuf) -> (r: Option<Vec<u8>>)
    requires
        img@.wf(),
        img@.width > 0,
        img@.height > 0,
    ensures
        r is Some <==> png_encoded_opt(img@) is Some,
        r matches Some(v) ==> png_encoded_opt(img@) == Some(v@),
{
    let buf = match image::RgbaImage::from_raw(img.width, img.height, img.data.clone()) {
        Some(b) => b,
        None => return None,
    };
    let mut out = std::io::Cursor::new(Vec::new());
    match image::DynamicImage::ImageRgba8(buf).write_to(&mut out, image::ImageFormat::Png) {
        Ok(()) => Some(out.into_inner()),
        Err(_) => None,
    }
}

/// Decode a byte blob into an RGBA image.
pub fn decode_image(bytes: &Vec<u8>) -> (r: Option<ImageBuf>)
    ensures
        r is Some <==> rgba_decoded(bytes@) is Some,
        r matches Some(b) ==> rgba_decoded(bytes@) == Some(b@) && b@.wf(),
{
    decode_rgba(bytes.as_slice())
}

/// Serialise an RGBA image as a PNG byte blob.
pub fn image_to_png(img: &ImageBuf) -> (r: Option<Vec<u8>>)
    requires
        img@.wf(),
        img@.width > 0,
        img@.height > 0,
    ensures
        r is Some <==> png_encoded_opt(img@) is Some,
        r matches Some(v) ==> png_encoded_opt(img@) == Some(v@),
{
    encode_png(img)
}

/// `payload` fits into a cover of its own dimensions together with the
/// metadata row, within machine limits.
pub open spec fn encode_capacity_ok(p: ImageModel) -> bool {
    &&& p.width >= 8
    &&& p.height >= 1
    &&& p.height < u32::MAX
    &&& 4 * p.width * (p.height + 1) <= usize::MAX
}

/// The cover brought to `nw` by `nh` pixels: unchanged where it already has
/// those dimensions, resampled otherwise.
pub open spec fn fitted_model(cover: ImageModel, nw: nat, nh: nat) -> ImageModel {
    if cover.width == nw && cover.height == nh {
        cover
    } else {
        ImageModel { width: nw, height: nh, data: rgba_resized(cover, nw, nh) }
    }
}

/// The stego artifact for a decoded payload `p` hidden in `cover` with
/// `(views, owner)` in the metadata row.
pub open spec fn stego_model(cover: ImageModel, p: ImageModel, views: u32, owner: u32) -> ImageModel {
    with_meta_model(embed_model(fitted_model(cover, p.width, p.height), p), views, owner)
}

/// Hide `payload` in `cover`, resizing the cover to the payload's
/// dimensions first where they differ.
pub fn encrypt(cover: &ImageBuf, payload: &ImageBuf) -> (r: ImageBuf)
    requires
        cover@.wf(),
        cover@.width > 0,
        cover@.height > 0,
        payload@.wf(),
        payload@.width > 0,
        payload@.height > 0,
        4 * payload@.width * payload@.height <= usize::MAX,
    ensures
        r@ == embed_model(fitted_model(cover@, payload@.width, payload@.height), payload@),
        r@.wf(),
{
    if cover.width == payload.width && cover.height == payload.height {
        lsb_embed(cover, payload)
    } else {
        let rc = resize_rgba(cover, payload.width, payload.height);
        lsb_embed(&rc, payload)
    }
}

/// Encode one upload: decode the payload blob, fit the cover to it, hide
/// the payload in the cover's low nibbles, append the `(views, owner)`
/// metadata row, and serialise the result as PNG.
pub fn stego_encode(payload_bytes: &Vec<u8>, cover: &ImageBuf, views: u32, owner: u32) -> (r:
    Result<Vec<u8>, CodecError>)
    requires
        cover@.wf(),
        cover@.width > 0,
        cover@.height > 0,
    ensures
        r == Err::<Vec<u8>, CodecError>(CodecError::DecodeFailed) <==> rgba_decoded(
            payload_bytes@,
        ) is None,
        rgba_decoded(payload_bytes@) matches Some(p) ==> (r == Err::<Vec<u8>, CodecError>(
            CodecError::CapacityExceeded,
        ) <==> !encode_capacity_ok(p)),
        r is Ok <==> (rgba_decoded(payload_bytes@) matches Some(p) && encode_capacity_ok(p)
            && png_encoded_opt(stego_model(cover@, p, views, owner)) is Some),
        r matches Ok(v) ==> rgba_decoded(payload_bytes@) matches Some(p) && encode_capacity_ok(p)
            && png_encoded_opt(stego_model(cover@, p, views, owner)) == Some(v@),
        r == Err::<Vec<u8>, CodecError>(CodecError::EncodeFailed) <==> (rgba_decoded(
            payload_bytes@,
        ) matches Some(p) && encode_capacity_ok(p) && png_encoded_opt(
            stego_model(cover@, p, views, owner),
        ) is None),
        !(r == Err::<Vec<u8>, CodecError>(CodecError::TooSmall)),
{
    let p = match decode_rgba(payload_bytes.as_slice()) {
        Some(p) => p,
        None => {
            return Err(CodecError::DecodeFailed);
        },
    };
    if p.width < 8 || p.height < 1 || p.height == u32::MAX {
        return Err(CodecError::CapacityExceeded);
    }
    proof {
        assert(4 * (p.width as int) * ((p.height as int) + 1) < u128::MAX) by (nonlinear_arith)
            requires
                p.width <= u32::MAX,
                p.height <= u32::MAX,
        ;
    }
    let need: u128 = 4u128 * (p.width as u128) * ((p.height as u128) + 1);
    if need > usize::MAX as u128 {
        return Err(CodecError::CapacityExceeded);
    }
    proof {
        assert(4 * p@.width * p@.height <= 4 * p@.width * (p@.height + 1)) by (nonlinear_arith);
    }
    let core = if cover.width == p.width && cover.height == p.height {
        lsb_embed(cover, &p)
    } else {
        let rc = resize_rgba(cover, p.width, p.height);
        lsb_embed(&rc, &p)
    };
    assert(core@ == embed_model(fitted_model(cover@, p@.width, p@.height), p@));
    let framed = embed_metadata(&core, views, owner);
    match encode_png(&framed) {
        Some(v) => Ok(v),
        None => Err(CodecError::EncodeFailed),
    }
}

/// Decode one stego artifact: read back `(views, owner)` from the metadata
/// row, strip the row, and recover the hidden image from the low nibbles.
pub fn stego_decode(stego_png: &Vec<u8>) -> (r: Result<(ImageBuf, u32, u32), CodecError>)
    ensures
        r == Err::<(ImageBuf, u32, u32), CodecError>(CodecError::DecodeFailed) <==> rgba_decoded(
            stego_png@,
        ) is None,
        rgba_decoded(stego_png@) matches Some(m) ==> (r == Err::<(ImageBuf, u32, u32), CodecError>(
            CodecError::TooSmall,
        ) <==> m.width < 8 || m.height < 1),
        r matches Ok(out) ==> rgba_decoded(stego_png@) matches Some(m) && m.width >= 8 && m.height
            >= 1 && out.0@ == extract_model(strip_meta_model(m)) && out.1 == meta_views_of(m)
            && out.2 == meta_owner_of(m),
        r is Ok <==> (rgba_decoded(stego_png@) matches Some(m) && m.width >= 8 && m.height >= 1),
{
    let m = match decode_rgba(stego_png.as_slice()) {
        Some(m) => m,
        None => {
            return Err(CodecError::DecodeFailed);
        },
    };
    if m.width < 8 || m.height < 1 {
        return Err(CodecError::TooSmall);
    }
    let (views, owner) = extract_metadata(&m);
    let stripped = strip_metadata_row(&m);
    let hidden = decrypt(&stripped);
    Ok((hidden, views, owner))
}

} // verus!
