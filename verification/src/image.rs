//! PNG and JPEG files by the hash of their bytes: the registry that gives each an
//! id for display lists, and the decoding of their pixels for rasterized effects.
use crate::{content_hash, fnv64, hex};
use vstd::prelude::*;

verus! {

/// A PNG or JPEG file by the hash of its bytes, and its size in pixels.
#[derive(Debug, PartialEq, Eq)]
pub struct ImageInfo {
    pub hash: String,
    pub width: u32,
    pub height: u32,
}

impl View for ImageInfo {
    type V = (Seq<char>, u32, u32);

    open spec fn view(&self) -> (Seq<char>, u32, u32) {
        (self.hash@, self.width, self.height)
    }
}

impl ImageInfo {
    /// A copy with the same hash and size.
    pub fn copy(&self) -> (r: ImageInfo)
        ensures
            r@ == self@,
    {
        ImageInfo { hash: self.hash.clone(), width: self.width, height: self.height }
    }
}

#[derive(Clone, Copy, PartialEq, Eq, Structural, Debug)]
pub enum Format {
    Png,
    Jpeg,
}

/// A registered image file.
pub struct Entry {
    pub info: ImageInfo,
    pub format: Format,
    pub bytes: Vec<u8>,
}

/// What the registry knows of an image: its hash, its size, its format and its file.
pub struct EntryView {
    pub hash: Seq<char>,
    pub width: u32,
    pub height: u32,
    pub format: Format,
    pub bytes: Seq<u8>,
}

/// The images of every document loaded so far by id, so that ids stay valid across
/// documents for the renderer's cache.
pub struct Images {
    pub entries: Vec<Entry>,
}

pub open spec fn entry_view(e: Entry) -> EntryView {
    EntryView {
        hash: e.info.hash@,
        width: e.info.width,
        height: e.info.height,
        format: e.format,
        bytes: e.bytes@,
    }
}

impl View for Images {
    type V = Seq<EntryView>;

    open spec fn view(&self) -> Seq<EntryView> {
        self.entries@.map_values(|e: Entry| entry_view(e))
    }
}

/// The hash that names the file `bytes`.
pub open spec fn hash_of(bytes: Seq<u8>) -> Seq<char> {
    hex(fnv64(bytes) as nat, 16)
}

/// The format that the first bytes of a file announce.
pub open spec fn format_of(bytes: Seq<u8>) -> Option<Format> {
    if bytes.len() >= 4 && bytes[0] == 0x89 && bytes[1] == 0x50 && bytes[2] == 0x4e && bytes[3]
        == 0x47 {
        Some(Format::Png)
    } else if bytes.len() >= 3 && bytes[0] == 0xff && bytes[1] == 0xd8 && bytes[2] == 0xff {
        Some(Format::Jpeg)
    } else {
        None
    }
}

/// The size in pixels that krilla reads from the header of the PNG file `bytes`,
/// `None` when it does not read as one.
pub uninterp spec fn krilla_png_size(bytes: Seq<u8>) -> Option<(u32, u32)>;

/// The same for a JPEG file.
pub uninterp spec fn krilla_jpeg_size(bytes: Seq<u8>) -> Option<(u32, u32)>;

/// The size krilla finds for a file of the format `f`.
pub open spec fn size_of(f: Format, bytes: Seq<u8>) -> Option<(u32, u32)> {
    match f {
        Format::Png => krilla_png_size(bytes),
        Format::Jpeg => krilla_jpeg_size(bytes),
    }
}

#[verifier::external_type_specification]
#[verifier::external_body]
pub struct ExKrillaImage(krilla::image::Image);

/// The image krilla makes of the PNG file `bytes`. krilla builds it from the file
/// alone, and two of its images are equal when their files have the same hash.
pub uninterp spec fn krilla_png_image(bytes: Seq<u8>) -> krilla::image::Image;

/// The image krilla makes of the JPEG file `bytes`, which it embeds as it is.
pub uninterp spec fn krilla_jpeg_image(bytes: Seq<u8>) -> krilla::image::Image;

/// The image krilla makes of a file of the format `f`.
pub open spec fn image_of(f: Format, bytes: Seq<u8>) -> krilla::image::Image {
    match f {
        Format::Png => krilla_png_image(bytes),
        Format::Jpeg => krilla_jpeg_image(bytes),
    }
}

/// Calls `krilla::image::Image::from_png` on a copy of `bytes` and reads its
/// `size`. Claimed: the size is `krilla_png_size(bytes)`, a function of the bytes
/// alone, since krilla takes it from the file's header; the image is
/// `krilla_png_image(bytes)`, as krilla makes it from the file alone and compares
/// images by the hash of their files.
#[verifier::external_body]
fn krilla_png(bytes: &[u8]) -> (r: Option<(krilla::image::Image, u32, u32)>)
    ensures
        match r {
            Some((img, w, h)) => krilla_png_size(bytes@) == Some((w, h)) && img
                == krilla_png_image(bytes@),
            None => krilla_png_size(bytes@) is None,
        },
{
    let data = krilla::Data::from(std::sync::Arc::new(bytes.to_vec()));
    let image = krilla::image::Image::from_png(data, true).ok()?;
    let (w, h) = image.size();
    Some((image, w, h))
}

/// Calls `krilla::image::Image::from_jpeg` on a copy of `bytes` and reads its
/// `size`. Claimed: the size is `krilla_jpeg_size(bytes)`, read from the file's
/// header; the image is `krilla_jpeg_image(bytes)`, made from the file alone.
#[verifier::external_body]
fn krilla_jpeg(bytes: &[u8]) -> (r: Option<(krilla::image::Image, u32, u32)>)
    ensures
        match r {
            Some((img, w, h)) => krilla_jpeg_size(bytes@) == Some((w, h)) && img
                == krilla_jpeg_image(bytes@),
            None => krilla_jpeg_size(bytes@) is None,
        },
{
    let data = krilla::Data::from(std::sync::Arc::new(bytes.to_vec()));
    let image = krilla::image::Image::from_jpeg(data, true).ok()?;
    let (w, h) = image.size();
    Some((image, w, h))
}

/// The image `bytes` in the format `f` for the PDF, and its size.
fn pdf_image(f: Format, bytes: &[u8]) -> (r: Option<(krilla::image::Image, u32, u32)>)
    ensures
        match r {
            Some((img, w, h)) => size_of(f, bytes@) == Some((w, h)) && img == image_of(f, bytes@),
            None => size_of(f, bytes@) is None,
        },
{
    match f {
        Format::Png => krilla_png(bytes),
        Format::Jpeg => krilla_jpeg(bytes),
    }
}

pub open spec fn not_an_image() -> Seq<char> {
    "not a PNG or JPEG image"@
}

fn not_an_image_message() -> (s: String)
    ensures
        s@ == not_an_image(),
{
    String::from_str("not a PNG or JPEG image")
}

/// The format of the file `bytes`: PNG or JPEG by their signatures.
pub fn format(bytes: &[u8]) -> (r: Result<Format, String>)
    ensures
        match r {
            Ok(f) => format_of(bytes@) == Some(f),
            Err(e) => format_of(bytes@) is None && e@ == not_an_image(),
        },
{
    if bytes.len() >= 4 && bytes[0] == 0x89 && bytes[1] == 0x50 && bytes[2] == 0x4e && bytes[3]
        == 0x47 {
        Ok(Format::Png)
    } else if bytes.len() >= 3 && bytes[0] == 0xff && bytes[1] == 0xd8 && bytes[2] == 0xff {
        Ok(Format::Jpeg)
    } else {
        Err(not_an_image_message())
    }
}

/// The first registered image whose hash is `hash`, if any.
pub open spec fn find_hash(images: Seq<EntryView>, hash: Seq<char>) -> Option<int> {
    if exists|i: int| 0 <= i < images.len() && (#[trigger] images[i]).hash == hash {
        Some(choose|i: int| 0 <= i < images.len() && (#[trigger] images[i]).hash == hash)
    } else {
        None
    }
}

impl Images {
    /// No two images share a hash, each is named by the hash of its file and has the
    /// size and format read from it, and an id fits in 32 bits.
    pub open spec fn wf(&self) -> bool {
        &&& self@.len() <= u32::MAX
        &&& forall|i: int, j: int|
            0 <= i < j < self@.len() ==> (#[trigger] self@[i]).hash != (#[trigger] self@[j]).hash
        &&& forall|i: int|
            0 <= i < self@.len() ==> {
                &&& (#[trigger] self@[i]).hash == hash_of(self@[i].bytes)
                &&& format_of(self@[i].bytes) == Some(self@[i].format)
                &&& size_of(self@[i].format, self@[i].bytes) == Some(
                    (self@[i].width, self@[i].height),
                )
            }
    }

    pub fn new() -> (r: Images)
        ensures
            r.wf(),
            r@ == Seq::<EntryView>::empty(),
    {
        let r = Images { entries: Vec::new() };
        assert(r@ =~= Seq::<EntryView>::empty());
        r
    }

    fn position(&self, hash: &str) -> (r: Option<usize>)
        requires
            self.wf(),
        ensures
            match r {
                Some(i) => i < self@.len() && self@[i as int].hash == hash@,
                None => forall|i: int| 0 <= i < self@.len() ==> (#[trigger] self@[i]).hash != hash@,
            },
    {
        let wanted = String::from_str(hash);
        let mut i: usize = 0;
        while i < self.entries.len()
            invariant
                wanted@ == hash@,
                i <= self@.len(),
                self@.len() == self.entries@.len(),
                forall|j: int| 0 <= j < i ==> (#[trigger] self@[j]).hash != hash@,
            decreases self@.len() - i,
        {
            assert(self@[i as int] == entry_view(self.entries@[i as int]));
            if self.entries[i].info.hash == wanted {
                return Some(i);
            }
            i = i + 1;
        }
        None
    }
}


/// What registering the file `bytes` does to the registry `images`, and what it
/// answers: the info of the image with the same hash when there is one; else an
/// error when the file is not a PNG or JPEG image that krilla reads; else the
/// registry with the new image at the end, and its info.
pub open spec fn register_spec(images: Seq<EntryView>, bytes: Seq<u8>) -> (
    Seq<EntryView>,
    Result<(Seq<char>, u32, u32), Seq<char>>,
) {
    let hash = hash_of(bytes);
    match find_hash(images, hash) {
        Some(i) => (images, Ok((images[i].hash, images[i].width, images[i].height))),
        None => match format_of(bytes) {
            None => (images, Err(not_an_image())),
            Some(f) => match size_of(f, bytes) {
                None => (images, Err(not_an_image())),
                Some((w, h)) => (
                    images.push(EntryView { hash, width: w, height: h, format: f, bytes }),
                    Ok((hash, w, h)),
                ),
            },
        },
    }
}

pub open spec fn result_view(r: Result<ImageInfo, String>) -> Result<(Seq<char>, u32, u32), Seq<char>> {
    match r {
        Ok(info) => Ok(info@),
        Err(e) => Err(e@),
    }
}

proof fn lemma_find_unique(images: Seq<EntryView>, hash: Seq<char>, i: int)
    requires
        0 <= i < images.len(),
        images[i].hash == hash,
        forall|a: int, b: int|
            0 <= a < b < images.len() ==> (#[trigger] images[a]).hash != (#[trigger] images[b]).hash,
    ensures
        find_hash(images, hash) == Some(i),
{
    let j = choose|j: int| 0 <= j < images.len() && (#[trigger] images[j]).hash == hash;
    if j < i {
        assert(images[j].hash != images[i].hash);
    } else if j > i {
        assert(images[i].hash != images[j].hash);
    }
}

/// Registers the image `bytes` unless it is there already; fails when they are not
/// a PNG or JPEG file.
pub fn register(images: &mut Images, bytes: Vec<u8>) -> (r: Result<ImageInfo, String>)
    requires
        old(images).wf(),
        old(images)@.len() < u32::MAX,
    ensures
        final(images).wf(),
        (final(images)@, result_view(r)) == register_spec(old(images)@, bytes@),
{
    let hash = content_hash(bytes.as_slice());
    if let Some(i) = images.position(hash.as_str()) {
        proof {
            lemma_find_unique(images@, hash@, i as int);
        }
        let info = images.entries[i].info.copy();
        assert(images@[i as int] == entry_view(images.entries@[i as int]));
        return Ok(info);
    }
    assert(find_hash(images@, hash@) is None);
    let f = match format(bytes.as_slice()) {
        Ok(f) => f,
        Err(e) => return Err(e),
    };
    let (width, height) = match pdf_image(f, bytes.as_slice()) {
        Some((_, w, h)) => (w, h),
        None => return Err(not_an_image_message()),
    };
    let ghost old_view = images@;
    let info = ImageInfo { hash, width, height };
    let entry = Entry { info: info.copy(), format: f, bytes };
    images.entries.push(entry);
    proof {
        assert(images@ =~= old_view.push(entry_view(entry)));
        assert forall|a: int, b: int|
            0 <= a < b < images@.len() implies (#[trigger] images@[a]).hash != (
            #[trigger] images@[b]).hash by {
            if b == old_view.len() {
                assert(images@[a] == old_view[a]);
            } else {
                assert(images@[a] == old_view[a]);
                assert(images@[b] == old_view[b]);
            }
        }
        assert forall|a: int| 0 <= a < images@.len() implies {
            &&& (#[trigger] images@[a]).hash == hash_of(images@[a].bytes)
            &&& format_of(images@[a].bytes) == Some(images@[a].format)
            &&& size_of(images@[a].format, images@[a].bytes) == Some(
                (images@[a].width, images@[a].height),
            )
        } by {
            if a < old_view.len() {
                assert(images@[a] == old_view[a]);
            }
        }
    }
    Ok(info)
}

/// The id of the registered image `hash` in display lists.
pub fn id(images: &Images, hash: &str) -> (r: Option<u32>)
    requires
        images.wf(),
    ensures
        match r {
            Some(i) => i < images@.len() && images@[i as int].hash == hash@,
            None => forall|i: int| 0 <= i < images@.len() ==> (#[trigger] images@[i]).hash != hash@,
        },
{
    match images.position(hash) {
        Some(i) => Some(i as u32),
        None => None,
    }
}

/// The size of the registered image `hash` in pixels.
pub fn info(images: &Images, hash: &str) -> (r: Option<ImageInfo>)
    requires
        images.wf(),
    ensures
        match r {
            Some(info) => exists|i: int|
                0 <= i < images@.len() && (#[trigger] images@[i]).hash == hash@ && info@ == (
                    images@[i].hash,
                    images@[i].width,
                    images@[i].height,
                ),
            None => forall|i: int| 0 <= i < images@.len() ==> (#[trigger] images@[i]).hash != hash@,
        },
{
    match images.position(hash) {
        Some(i) => {
            assert(images@[i as int] == entry_view(images.entries@[i as int]));
            Some(images.entries[i].info.copy())
        },
        None => None,
    }
}

/// The file of the image `id`, empty for an unknown id.
pub fn bytes(images: &Images, id: u32) -> (r: &[u8])
    ensures
        r@ == if id < images@.len() {
            images@[id as int].bytes
        } else {
            Seq::<u8>::empty()
        },
{
    if (id as usize) < images.entries.len() {
        assert(images@[id as int] == entry_view(images.entries@[id as int]));
        images.entries[id as usize].bytes.as_slice()
    } else {
        let empty: &[u8] = &[];
        assert(empty@ =~= Seq::<u8>::empty());
        empty
    }
}

/// The image `id` for the PDF, which embeds a JPEG as it is.
pub fn pdf(images: &Images, id: u32) -> (r: Option<krilla::image::Image>)
    requires
        images.wf(),
    ensures
        r is Some <==> id < images@.len(),
        r matches Some(img) ==> img == image_of(images@[id as int].format, images@[id as int].bytes),
{
    if (id as usize) >= images.entries.len() {
        return None;
    }
    let e = &images.entries[id as usize];
    assert(images@[id as int] == entry_view(images.entries@[id as int]));
    match pdf_image(e.format, e.bytes.as_slice()) {
        Some((image, _, _)) => Some(image),
        None => None,
    }
}


/// An image is registered once by its hash: registering a file again, after it
/// was registered, leaves the registry as it is and answers the same info.
pub proof fn lemma_register_once(images: Seq<EntryView>, bytes: Seq<u8>)
    requires
        forall|a: int, b: int|
            0 <= a < b < images.len() ==> (#[trigger] images[a]).hash != (#[trigger] images[b]).hash,
        register_spec(images, bytes).1 is Ok,
    ensures
        register_spec(register_spec(images, bytes).0, bytes) == register_spec(images, bytes),
{
    let hash = hash_of(bytes);
    let (after, answer) = register_spec(images, bytes);
    match find_hash(images, hash) {
        Some(i) => {
            let j = choose|j: int| 0 <= j < images.len() && (#[trigger] images[j]).hash == hash;
            assert(images[j].hash == hash);
        },
        None => {
            let n = images.len() as int;
            assert(after[n].hash == hash);
            assert forall|a: int, b: int|
                0 <= a < b < after.len() implies (#[trigger] after[a]).hash != (
                #[trigger] after[b]).hash by {
                if b == n {
                    assert(after[a] == images[a]);
                    if images[a].hash == hash {
                        assert(find_hash(images, hash) is Some);
                    }
                } else {
                    assert(after[a] == images[a]);
                    assert(after[b] == images[b]);
                }
            }
            lemma_find_unique(after, hash, n);
        },
    }
}


/// The colour types of decoded PNG frames.
#[derive(Clone, Copy, PartialEq, Eq, Structural, Debug)]
pub enum PngColor {
    Grayscale,
    Rgb,
    Indexed,
    GrayscaleAlpha,
    Rgba,
}

/// The colour type that a PNG colour type code names.
pub open spec fn color_of_code(code: u8) -> PngColor {
    if code == 0 {
        PngColor::Grayscale
    } else if code == 2 {
        PngColor::Rgb
    } else if code == 3 {
        PngColor::Indexed
    } else if code == 4 {
        PngColor::GrayscaleAlpha
    } else {
        PngColor::Rgba
    }
}

/// The bytes per pixel of a PNG colour type at 8 bits per sample.
pub open spec fn channels(c: PngColor) -> nat {
    match c {
        PngColor::Grayscale => 1,
        PngColor::Rgb => 3,
        PngColor::Indexed => 1,
        PngColor::GrayscaleAlpha => 2,
        PngColor::Rgba => 4,
    }
}

/// The first frame that the `png` crate decodes from `bytes`, normalized to 8 bits
/// per sample: its samples, colour type code, width and height.
pub uninterp spec fn png_frame(bytes: Seq<u8>) -> Option<(Seq<u8>, u8, u32, u32)>;

/// The RGBA pixels, width and height that `zune_jpeg` decodes from `bytes`.
pub uninterp spec fn jpeg_pixels(bytes: Seq<u8>) -> Option<(Seq<u8>, usize, usize)>;

/// Decodes the first frame of the PNG file `bytes` with the `png` crate, samples
/// normalized to 8 bits (`Transformations::normalize_to_color8`), into a buffer of
/// `output_buffer_size` bytes, and gives the frame's `png::ColorType` by its code.
/// Claimed: the result is `png_frame(bytes)`; the code is one of the five that
/// `ColorType` defines; and the buffer holds whole pixels of that colour type, as
/// its size is the row length times the height.
#[verifier::external_body]
fn png_decode(bytes: &[u8]) -> (r: Option<(Vec<u8>, u8, u32, u32)>)
    ensures
        match r {
            Some((buf, code, w, h)) => {
                &&& png_frame(bytes@) == Some((buf@, code, w, h))
                &&& code == 0 || code == 2 || code == 3 || code == 4 || code == 6
                &&& buf@.len() % channels(color_of_code(code)) == 0
            },
            None => png_frame(bytes@) is None,
        },
{
    let mut decoder = png::Decoder::new(std::io::Cursor::new(bytes));
    decoder.set_transformations(png::Transformations::normalize_to_color8());
    let mut reader = decoder.read_info().ok()?;
    let mut buf = vec![0; reader.output_buffer_size()?];
    let frame = reader.next_frame(&mut buf).ok()?;
    Some((buf, frame.color_type as u8, frame.width, frame.height))
}

/// Decodes the JPEG file `bytes` with `zune_jpeg` into RGBA. Claimed: the result is
/// `jpeg_pixels(bytes)`, and its length, width × height × 4, is a multiple of 4.
#[verifier::external_body]
fn jpeg_decode(bytes: &[u8]) -> (r: Option<(Vec<u8>, usize, usize)>)
    ensures
        match r {
            Some((px, w, h)) => jpeg_pixels(bytes@) == Some((px@, w, h)) && px@.len() % 4 == 0,
            None => jpeg_pixels(bytes@) is None,
        },
{
    let options = zune_core::options::DecoderOptions::default().jpeg_set_out_colorspace(
        zune_core::colorspace::ColorSpace::RGBA,
    );
    let mut decoder = zune_jpeg::JpegDecoder::new_with_options(std::io::Cursor::new(bytes), options);
    let px = decoder.decode().ok()?;
    let (w, h) = decoder.dimensions()?;
    Some((px, w, h))
}

/// The samples `buf` of the colour type `c` as RGBA: gray is repeated into red,
/// green and blue, and a missing alpha is opaque. Palettes have no RGBA here.
pub open spec fn to_rgba_spec(c: PngColor, buf: Seq<u8>) -> Option<Seq<u8>> {
    match c {
        PngColor::Rgba => Some(buf),
        PngColor::Rgb => Some(
            Seq::new(
                buf.len() / 3 * 4,
                |k: int|
                    if k % 4 == 3 {
                        255u8
                    } else {
                        buf[k / 4 * 3 + k % 4]
                    },
            ),
        ),
        PngColor::GrayscaleAlpha => Some(
            Seq::new(
                buf.len() / 2 * 4,
                |k: int|
                    if k % 4 == 3 {
                        buf[k / 4 * 2 + 1]
                    } else {
                        buf[k / 4 * 2]
                    },
            ),
        ),
        PngColor::Grayscale => Some(
            Seq::new(
                buf.len() * 4,
                |k: int|
                    if k % 4 == 3 {
                        255u8
                    } else {
                        buf[k / 4]
                    },
            ),
        ),
        PngColor::Indexed => None,
    }
}

/// A colour channel times the pixel's alpha, rounded.
pub open spec fn times_alpha(c: u8, a: u8) -> u8 {
    ((c as int * a as int + 127) / 255) as u8
}

/// RGBA pixels with red, green and blue multiplied by alpha.
pub open spec fn premultiplied(rgba: Seq<u8>) -> Seq<u8> {
    Seq::new(
        rgba.len(),
        |k: int|
            if k % 4 == 3 {
                rgba[k]
            } else {
                times_alpha(rgba[k], rgba[k - k % 4 + 3])
            },
    )
}

/// Premultiplied RGBA `data` makes an image of `w` × `h` pixels: neither side is
/// empty and there are four bytes for each pixel.
pub open spec fn is_frame(data: Seq<u8>, w: u32, h: u32) -> bool {
    w > 0 && h > 0 && data.len() == 4 * (w as int) * (h as int)
}

/// What `decode` gives for a file: premultiplied RGBA, width and height, where
/// they make an image.
pub open spec fn decode_spec(f: Format, bytes: Seq<u8>) -> Option<(Seq<u8>, u32, u32)> {
    match decoded(f, bytes) {
        Some((data, w, h)) => if is_frame(data, w, h) {
            Some((data, w, h))
        } else {
            None
        },
        None => None,
    }
}

/// The premultiplied pixels, width and height the decoders give for a file.
pub open spec fn decoded(f: Format, bytes: Seq<u8>) -> Option<(Seq<u8>, u32, u32)> {
    match f {
        Format::Png => match png_frame(bytes) {
            Some((buf, code, w, h)) => match to_rgba_spec(color_of_code(code), buf) {
                Some(rgba) => Some((premultiplied(rgba), w, h)),
                None => None,
            },
            None => None,
        },
        Format::Jpeg => match jpeg_pixels(bytes) {
            Some((px, w, h)) => Some((premultiplied(px), w as u32, h as u32)),
            None => None,
        },
    }
}

/// Decoded pixels: premultiplied RGBA, row by row.
#[derive(Debug)]
pub struct Rgba {
    pub data: Vec<u8>,
    pub width: u32,
    pub height: u32,
}

fn to_rgba(c: PngColor, buf: Vec<u8>) -> (r: Option<Vec<u8>>)
    requires
        buf@.len() % channels(c) == 0,
    ensures
        match r {
            Some(v) => to_rgba_spec(c, buf@) == Some(v@),
            None => to_rgba_spec(c, buf@) is None,
        },
{
    let (step, gray, alpha): (usize, bool, bool) = match c {
        PngColor::Rgba => return Some(buf),
        PngColor::Indexed => return None,
        PngColor::Rgb => (3, false, false),
        PngColor::GrayscaleAlpha => (2, true, true),
        PngColor::Grayscale => (1, true, false),
    };
    let blen = buf.len();
    let n = blen / step;
    let mut out: Vec<u8> = Vec::new();
    let mut p: usize = 0;
    while p < n
        invariant
            step == channels(c),
            c != PngColor::Rgba && c != PngColor::Indexed,
            gray == (c == PngColor::Grayscale || c == PngColor::GrayscaleAlpha),
            alpha == (c == PngColor::GrayscaleAlpha),
            n == buf@.len() / (step as nat),
            blen == buf@.len(),
            p <= n,
            out@.len() == 4 * p,
            forall|k: int| 0 <= k < 4 * p ==> out@[k] == (#[trigger] to_rgba_spec(c, buf@)->0[k]),
        decreases n - p,
    {
        assert(p * step + step <= n * step) by (nonlinear_arith)
            requires
                p < n,
                step > 0,
        ;
        assert(n * step <= buf@.len()) by (nonlinear_arith)
            requires
                n == buf@.len() / (step as nat),
                step > 0,
        ;
        let at = p * step;
        let ghost old_out = out@;
        if gray {
            let g = buf[at];
            out.push(g);
            out.push(g);
            out.push(g);
            out.push(if alpha {
                buf[at + 1]
            } else {
                255
            });
        } else {
            out.push(buf[at]);
            out.push(buf[at + 1]);
            out.push(buf[at + 2]);
            out.push(255);
        }
        proof {
            let spec = to_rgba_spec(c, buf@)->0;
            assert forall|k: int| 0 <= k < 4 * (p + 1) implies out@[k] == (#[trigger] spec[k]) by {
                if k >= 4 * p {
                    assert(k / 4 == p) by (nonlinear_arith)
                        requires
                            4 * p <= k < 4 * (p + 1),
                    ;
                    assert(k % 4 == k - 4 * p) by (nonlinear_arith)
                        requires
                            4 * p <= k < 4 * (p + 1),
                    ;
                    assert(spec.len() == n * 4);
                } else {
                    assert(out@[k] == old_out[k]);
                }
            }
        }
        p = p + 1;
    }
    proof {
        let spec = to_rgba_spec(c, buf@)->0;
        assert(spec.len() == n * 4);
        assert(out@ =~= spec);
    }
    Some(out)
}

fn premultiply(rgba: &Vec<u8>) -> (r: Vec<u8>)
    requires
        rgba@.len() % 4 == 0,
    ensures
        r@ == premultiplied(rgba@),
{
    let n = rgba.len();
    let mut out: Vec<u8> = Vec::new();
    let mut k: usize = 0;
    while k < n
        invariant
            n == rgba@.len(),
            n % 4 == 0,
            k % 4 == 0,
            k <= n,
            out@ =~= premultiplied(rgba@).take(k as int),
        decreases n - k,
    {
        let a = rgba[k + 3] as u32;
        let ghost old_out = out@;
        let mut j: usize = 0;
        while j < 3
            invariant
                n == rgba@.len(),
                k % 4 == 0,
                k + 4 <= n,
                a == rgba@[k + 3],
                j <= 3,
                out@ =~= premultiplied(rgba@).take(k + j),
            decreases 3 - j,
        {
            let c = rgba[k + j] as u32;
            assert(c * a + 127 <= 255 * 255 + 127) by (nonlinear_arith)
                requires
                    c <= 255,
                    a <= 255,
            ;
            assert((c * a + 127) / 255 <= 255) by (nonlinear_arith)
                requires
                    c * a + 127 <= 255 * 255 + 127,
            ;
            out.push(((c * a + 127) / 255) as u8);
            proof {
                assert((k + j) % 4 == j) by (nonlinear_arith)
                    requires
                        k % 4 == 0,
                        j < 3,
                ;
                assert(premultiplied(rgba@).take(k + j + 1) =~= premultiplied(rgba@).take(
                    k + j,
                ).push(premultiplied(rgba@)[k + j]));
            }
            j = j + 1;
        }
        out.push(rgba[k + 3]);
        proof {
            assert((k + 3) % 4 == 3) by (nonlinear_arith)
                requires
                    k % 4 == 0,
            ;
            assert(premultiplied(rgba@).take(k + 4) =~= premultiplied(rgba@).take(k + 3).push(
                premultiplied(rgba@)[k + 3],
            ));
        }
        k = k + 4;
    }
    assert(premultiplied(rgba@).take(n as int) =~= premultiplied(rgba@));
    out
}

/// The pixels of the image file `bytes` in the format `f`, premultiplied; `None`
/// when it does not decode or is a palette image.
pub fn decode(f: Format, bytes: &[u8]) -> (r: Option<Rgba>)
    ensures
        match r {
            Some(px) => decode_spec(f, bytes@) == Some((px.data@, px.width, px.height)),
            None => decode_spec(f, bytes@) is None,
        },
{
    match f {
        Format::Png => {
            let (buf, code, w, h) = match png_decode(bytes) {
                Some(frame) => frame,
                None => return None,
            };
            let c = if code == 0 {
                PngColor::Grayscale
            } else if code == 2 {
                PngColor::Rgb
            } else if code == 3 {
                PngColor::Indexed
            } else if code == 4 {
                PngColor::GrayscaleAlpha
            } else {
                PngColor::Rgba
            };
            let ghost buf_view = buf@;
            let rgba = match to_rgba(c, buf) {
                Some(v) => v,
                None => return None,
            };
            proof {
                assert(rgba@.len() % 4 == 0) by {
                    let b = buf_view;
                    if c == PngColor::Rgb {
                        assert((b.len() / 3 * 4) % 4 == 0) by (nonlinear_arith);
                    } else if c == PngColor::GrayscaleAlpha {
                        assert((b.len() / 2 * 4) % 4 == 0) by (nonlinear_arith);
                    } else if c == PngColor::Grayscale {
                        assert((b.len() * 4) % 4 == 0) by (nonlinear_arith);
                    }
                }
            }
            framed(premultiply(&rgba), w, h)
        },
        Format::Jpeg => {
            let (px, w, h) = match jpeg_decode(bytes) {
                Some(d) => d,
                None => return None,
            };
            framed(premultiply(&px), w as u32, h as u32)
        },
    }
}

/// The image of `data`, `w` × `h` pixels, when they make one.
fn framed(data: Vec<u8>, w: u32, h: u32) -> (r: Option<Rgba>)
    ensures
        match r {
            Some(px) => is_frame(data@, w, h) && px.data@ == data@ && px.width == w && px.height
                == h,
            None => !is_frame(data@, w, h),
        },
{
    if w == 0 || h == 0 {
        return None;
    }
    assert(0 <= w as int * h as int <= 0xffff_ffff * 0xffff_ffff) by (nonlinear_arith)
        requires
            w <= 0xffff_ffff,
            h <= 0xffff_ffff,
    ;
    let pixels = w as u64 * h as u64;
    let n = data.len();
    if n % 4 != 0 || (n / 4) as u64 != pixels {
        proof {
            assert(4 * (w as int) * (h as int) == 4 * (w as int * h as int)) by (nonlinear_arith);
        }
        return None;
    }
    proof {
        assert(4 * (w as int) * (h as int) == 4 * (w as int * h as int)) by (nonlinear_arith);
    }
    Some(Rgba { data, width: w, height: h })
}


/// Registering never changes the images there already, so the ids in display lists
/// stay valid: the registry after is the one before, or it with one image more.
pub proof fn lemma_register_keeps_ids(images: Seq<EntryView>, bytes: Seq<u8>)
    ensures
        register_spec(images, bytes).0.len() >= images.len(),
        register_spec(images, bytes).0.len() <= images.len() + 1,
        forall|i: int| 0 <= i < images.len() ==> #[trigger] register_spec(images, bytes).0[i] == images[i],
{
}

/// Pixel `p` of the RGBA bytes `v` is red `r`, green `g`, blue `b` and alpha `a`.
pub open spec fn pixel_is(v: Seq<u8>, p: int, r: u8, g: u8, b: u8, a: u8) -> bool {
    &&& v[4 * p] == r
    &&& v[4 * p + 1] == g
    &&& v[4 * p + 2] == b
    &&& v[4 * p + 3] == a
}

proof fn lemma_quarter(p: int, c: int)
    requires
        0 <= p,
        0 <= c < 4,
    ensures
        (4 * p + c) / 4 == p,
        (4 * p + c) % 4 == c,
{
    vstd::arithmetic::div_mod::lemma_fundamental_div_mod_converse(4 * p + c, 4, p, c);
}

/// Samples become RGBA pixel by pixel, in order: red, green and blue keep their
/// places and an RGB pixel is opaque; gray goes into red, green and blue, with its
/// alpha or opaque; RGBA stays as it is; a palette image has no RGBA.
pub proof fn lemma_rgba_keeps_the_samples(c: PngColor, buf: Seq<u8>)
    ensures
        c is Rgba ==> to_rgba_spec(c, buf) == Some(buf),
        c is Indexed ==> to_rgba_spec(c, buf) is None,
        c is Rgb ==> (to_rgba_spec(c, buf) matches Some(v) && v.len() == 4 * (buf.len() / 3)
            && forall|p: int|
            0 <= p < buf.len() / 3 ==> #[trigger] pixel_is(
                v,
                p,
                buf[3 * p],
                buf[3 * p + 1],
                buf[3 * p + 2],
                255,
            )),
        c is GrayscaleAlpha ==> (to_rgba_spec(c, buf) matches Some(v) && v.len() == 4 * (
        buf.len() / 2) && forall|p: int|
            0 <= p < buf.len() / 2 ==> #[trigger] pixel_is(
                v,
                p,
                buf[2 * p],
                buf[2 * p],
                buf[2 * p],
                buf[2 * p + 1],
            )),
        c is Grayscale ==> (to_rgba_spec(c, buf) matches Some(v) && v.len() == 4 * buf.len()
            && forall|p: int|
            0 <= p < buf.len() ==> #[trigger] pixel_is(v, p, buf[p], buf[p], buf[p], 255)),
{
    match c {
        PngColor::Rgb => {
            let v = to_rgba_spec(c, buf)->Some_0;
            assert forall|p: int| 0 <= p < buf.len() / 3 implies #[trigger] pixel_is(
                v,
                p,
                buf[3 * p],
                buf[3 * p + 1],
                buf[3 * p + 2],
                255,
            ) by {
                lemma_quarter(p, 0);
                lemma_quarter(p, 1);
                lemma_quarter(p, 2);
                lemma_quarter(p, 3);
            }
        },
        PngColor::GrayscaleAlpha => {
            let v = to_rgba_spec(c, buf)->Some_0;
            assert forall|p: int| 0 <= p < buf.len() / 2 implies #[trigger] pixel_is(
                v,
                p,
                buf[2 * p],
                buf[2 * p],
                buf[2 * p],
                buf[2 * p + 1],
            ) by {
                lemma_quarter(p, 0);
                lemma_quarter(p, 1);
                lemma_quarter(p, 2);
                lemma_quarter(p, 3);
            }
        },
        PngColor::Grayscale => {
            let v = to_rgba_spec(c, buf)->Some_0;
            assert forall|p: int| 0 <= p < buf.len() implies #[trigger] pixel_is(
                v,
                p,
                buf[p],
                buf[p],
                buf[p],
                255,
            ) by {
                lemma_quarter(p, 0);
                lemma_quarter(p, 1);
                lemma_quarter(p, 2);
                lemma_quarter(p, 3);
            }
        },
        _ => {},
    }
}

/// Channel `x` at alpha `a`, premultiplied to `m`: `m` is `x · a / 255` rounded to
/// the nearest integer, halves down.
pub open spec fn rounds_to(m: u8, x: u8, a: u8) -> bool {
    m as int * 255 <= x as int * a as int + 127 < (m as int + 1) * 255
}

/// Premultiplying keeps each pixel's alpha, multiplies red, green and blue by it,
/// rounded, so it keeps opaque pixels as they are and clears transparent ones.
pub proof fn lemma_premultiplied_pixels(rgba: Seq<u8>)
    ensures
        premultiplied(rgba).len() == rgba.len(),
        forall|p: int, c: int|
            0 <= p < rgba.len() / 4 && 0 <= c < 3 ==> {
                let m = #[trigger] premultiplied(rgba)[4 * p + c];
                let x = rgba[4 * p + c];
                let a = rgba[4 * p + 3];
                &&& premultiplied(rgba)[4 * p + 3] == a
                &&& rounds_to(m, x, a)
                &&& a == 255 ==> m == x
                &&& a == 0 ==> m == 0
            },
{
    assert forall|p: int, c: int| 0 <= p < rgba.len() / 4 && 0 <= c < 3 implies {
        let m = #[trigger] premultiplied(rgba)[4 * p + c];
        let x = rgba[4 * p + c];
        let a = rgba[4 * p + 3];
        &&& premultiplied(rgba)[4 * p + 3] == a
        &&& rounds_to(m, x, a)
        &&& a == 255 ==> m == x
        &&& a == 0 ==> m == 0
    } by {
        lemma_quarter(p, c);
        lemma_quarter(p, 3);
        let x = rgba[4 * p + c];
        let a = rgba[4 * p + 3];
        let q = (x as int * a as int + 127) / 255;
        assert(0 <= x as int * a as int <= 255 * 255) by (nonlinear_arith)
            requires
                x <= 255,
                a <= 255,
        ;
        assert(q * 255 <= x as int * a as int + 127 < (q + 1) * 255) by (nonlinear_arith)
            requires
                q == (x as int * a as int + 127) / 255,
                0 <= x as int * a as int,
        ;
        assert(0 <= q <= 255) by (nonlinear_arith)
            requires
                q == (x as int * a as int + 127) / 255,
                0 <= x as int * a as int <= 255 * 255,
        ;
        assert(premultiplied(rgba)[4 * p + c] == q as u8);
        if a == 255 {
            assert(q == x) by (nonlinear_arith)
                requires
                    q * 255 <= x as int * 255 + 127 < (q + 1) * 255,
            ;
        }
        if a == 0 {
            assert(x as int * a as int == 0) by (nonlinear_arith)
                requires
                    a == 0,
            ;
        }
    }
}

/// An opaque RGB PNG decodes to its samples: each pixel keeps its red, green and
/// blue, in that order, with full alpha, at the frame's size.
pub proof fn lemma_opaque_rgb_png_keeps_its_samples(bytes: Seq<u8>, buf: Seq<u8>, w: u32, h: u32)
    requires
        png_frame(bytes) == Some((buf, 2u8, w, h)),
    ensures
        decode_spec(Format::Png, bytes) matches Some((data, dw, dh)) ==> (dw == w && dh == h
            && data.len() == 4 * (w as int) * (h as int) && forall|p: int|
            0 <= p < data.len() / 4 ==> #[trigger] pixel_is(
                data,
                p,
                buf[3 * p],
                buf[3 * p + 1],
                buf[3 * p + 2],
                255,
            )),
{
    lemma_rgba_keeps_the_samples(PngColor::Rgb, buf);
    let v = to_rgba_spec(PngColor::Rgb, buf)->Some_0;
    lemma_premultiplied_pixels(v);
    if decode_spec(Format::Png, bytes) is Some {
        let data = premultiplied(v);
        assert(decode_spec(Format::Png, bytes) == Some((data, w, h)));
        assert forall|p: int| 0 <= p < data.len() / 4 implies #[trigger] pixel_is(
            data,
            p,
            buf[3 * p],
            buf[3 * p + 1],
            buf[3 * p + 2],
            255,
        ) by {
            assert(pixel_is(v, p, buf[3 * p], buf[3 * p + 1], buf[3 * p + 2], 255));
            assert(premultiplied(v)[4 * p + 0] == v[4 * p + 0]);
            assert(premultiplied(v)[4 * p + 1] == v[4 * p + 1]);
            assert(premultiplied(v)[4 * p + 2] == v[4 * p + 2]);
        }
    }
}

} // verus!
