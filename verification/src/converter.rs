//! Conversion of raw images (128 KiB each, possibly several in one file) into device files.

use vstd::prelude::*;
use vstd::string::StringExecFns;
use crate::bootloop::{Channel, default_channel_bits, lemma_default_good_loops};
use crate::channel::{
    ChannelMemory, lemma_enough_good_loops, lemma_pages_written_match, loaded_from, pages_written,
    saved_bytes,
};
use crate::hex::{dec_text, push_decimal};
use crate::memory::{
    Memory, MemoryView, below, cleared_channel, device_bootloop, image_page, image_pages,
    lemma_image_page_len, lemma_image_page_read, lemma_image_roundtrip, lemma_memory_save_load,
    lemma_pages_give_image, lemma_same_channel_read, page_read, result_counts, saved_image,
};

verus! {

/// Why a raw image file cannot be converted.
#[derive(Clone, Copy, Debug, PartialEq, Eq, Structural)]
pub enum ImageSizeError {
    /// The file is empty.
    Empty,
    /// The file's size is not a multiple of 128 KiB.
    NotMultiple,
}

/// The message shown for an image size error.
pub open spec fn image_error_text(e: ImageSizeError) -> Seq<char> {
    match e {
        ImageSizeError::Empty => "Input file is empty"@,
        ImageSizeError::NotMultiple => "Input file size is not a multiple of 128 KiB"@,
    }
}

impl ImageSizeError {
    /// The message shown for the error.
    pub fn message(&self) -> (s: &'static str)
        ensures
            s@ == image_error_text(*self),
    {
        match self {
            ImageSizeError::Empty => "Input file is empty",
            ImageSizeError::NotMultiple => "Input file size is not a multiple of 128 KiB",
        }
    }
}

/// The number of raw images in a file of `len` bytes: it must be a non-zero multiple of
/// 128 KiB.
pub fn validate_image(len: u64) -> (r: Result<usize, ImageSizeError>)
    ensures
        len == 0 ==> r == Err::<usize, ImageSizeError>(ImageSizeError::Empty),
        len != 0 && len % 131072 != 0 ==> r == Err::<usize, ImageSizeError>(ImageSizeError::NotMultiple),
        len != 0 && len % 131072 == 0 ==> r == Ok::<usize, ImageSizeError>((len / 131072) as usize),
{
    if len == 0 {
        Err(ImageSizeError::Empty)
    } else if len % 131072 != 0 {
        Err(ImageSizeError::NotMultiple)
    } else {
        Ok((len / 131072) as usize)
    }
}

/// The consecutive whole raw images of `input`; a shorter tail is dropped.
pub fn split_image_chunks(input: &[u8]) -> (r: Vec<Vec<u8>>)
    ensures
        r@.len() == input@.len() / 131072,
        forall|k: int|
            0 <= k < r@.len() ==> #[trigger] r@[k]@ == input@.subrange(131072 * k, 131072 * k + 131072),
{
    let n = input.len() / 131072;
    let mut out: Vec<Vec<u8>> = Vec::new();
    let mut k: usize = 0;
    while k < n
        invariant
            n == input@.len() / 131072,
            k <= n,
            out@.len() == k,
            forall|j: int|
                0 <= j < k ==> #[trigger] out@[j]@ == input@.subrange(131072 * j, 131072 * j + 131072),
        decreases n - k,
    {
        let len = input.len();
        assert(131072 * k + 131072 <= len) by (nonlinear_arith)
            requires
                k < n,
                n == len / 131072,
        ;
        let start: usize = 131072 * k;
        let chunk = vstd::slice::slice_subrange(input, start, start + 131072);
        out.push(vstd::slice::slice_to_vec(chunk));
        k += 1;
    }
    out
}

/// The stem used for output files: the input file's stem, or `image` when it has none.
pub open spec fn stem_text(stem: Option<&str>) -> Seq<char> {
    match stem {
        Some(s) => s@,
        None => "image"@,
    }
}

/// The name of output file `idx`: the stem, an underscore, the index in decimal and
/// `.imbm`.
pub open spec fn output_name(stem: Seq<char>, idx: nat) -> Seq<char> {
    stem + "_"@ + dec_text(idx) + ".imbm"@
}

/// The names of the `parts` output files for an input file of stem `stem` (`image` when the
/// input file has none).
pub fn output_names(stem: Option<&str>, parts: usize) -> (r: Vec<String>)
    ensures
        r@.len() == parts,
        forall|k: int| 0 <= k < parts ==> #[trigger] r@[k]@ == output_name(stem_text(stem), k as nat),
{
    let base: &str = match stem {
        Some(s) => s,
        None => "image",
    };
    let mut out: Vec<String> = Vec::new();
    let mut idx: usize = 0;
    while idx < parts
        invariant
            idx <= parts,
            base@ == stem_text(stem),
            out@.len() == idx,
            forall|k: int| 0 <= k < idx ==> #[trigger] out@[k]@ == output_name(stem_text(stem), k as nat),
        decreases parts - idx,
    {
        let mut name = base.to_owned();
        name.append("_");
        push_decimal(&mut name, idx);
        name.append(".imbm");
        out.push(name);
        idx += 1;
    }
    out
}

/// The name shown for the input file: its file name, or `Selected image` when it has none.
pub fn display_name(file_name: Option<&str>) -> (r: String)
    ensures
        r@ == match file_name {
            Some(s) => s@,
            None => "Selected image"@,
        },
{
    let s: &str = match file_name {
        Some(s) => s,
        None => "Selected image",
    };
    s.to_owned()
}

/// A converted device file: its name and its bytes.
pub struct OutputFile {
    pub name: String,
    pub data: Vec<u8>,
}

/// `m` is a device that starts with the factory bootloops, clear loops and offset 0 in both
/// channels, and then imports the raw image `img`.
pub open spec fn imported_device(img: Seq<u8>, m: MemoryView) -> bool {
    exists|ca: ChannelMemory, cb: ChannelMemory|
        #[trigger] cleared_channel(ca, default_channel_bits(Channel::ChannelA)) && #[trigger] cleared_channel(
            cb,
            default_channel_bits(Channel::ChannelB),
        ) && pages_written(ca, m.ch_a, true, image_pages(img, Channel::ChannelA), below(2048))
            && pages_written(cb, m.ch_b, true, image_pages(img, Channel::ChannelB), below(2048))
}

/// `data` are the bytes of the device file that the raw image `img` converts to.
pub open spec fn converted(img: Seq<u8>, data: Seq<u8>) -> bool {
    exists|m: MemoryView|
        #[trigger] imported_device(img, m) && data == saved_bytes(m.ch_a, device_bootloop(m))
            + saved_bytes(m.ch_b, device_bootloop(m))
}

fn convert_chunk(image: &[u8]) -> (r: Vec<u8>)
    requires
        image@.len() == 131072,
    ensures
        converted(image@, r@),
{
    let mut mem = Memory::new();
    mem.clear();
    let ghost m1 = mem@;
    let _ = mem.data_load(image);
    let ghost m2 = mem@;
    proof {
        assert(cleared_channel(m1.ch_a, default_channel_bits(Channel::ChannelA)));
        assert(cleared_channel(m1.ch_b, default_channel_bits(Channel::ChannelB)));
        assert(imported_device(image@, m2));
    }
    match mem.save() {
        Ok(data) => data,
        Err(_) => Vec::new(),
    }
}

/// Converts a file of raw images into device files, one per 128 KiB image, named after the
/// input file's stem (`image` when it has none); fails when the file is empty or its size is
/// not a multiple of 128 KiB.
pub fn convert(input: &[u8], stem: Option<&str>) -> (r: Result<Vec<OutputFile>, ImageSizeError>)
    ensures
        r is Err <==> (input@.len() == 0 || input@.len() % 131072 != 0),
        r matches Err(e) ==> e == ImageSizeError::NotMultiple,
        r matches Ok(files) ==> files@.len() == input@.len() / 131072 && forall|k: int|
            0 <= k < files@.len() ==> (#[trigger] files@[k]).name@ == output_name(stem_text(stem), k as nat)
                && converted(input@.subrange(131072 * k, 131072 * k + 131072), files@[k].data@),
{
    if input.len() == 0 || input.len() % 131072 != 0 {
        return Err(ImageSizeError::NotMultiple);
    }
    let parts = input.len() / 131072;
    let names = output_names(stem, parts);
    let chunks = split_image_chunks(input);
    let mut output: Vec<OutputFile> = Vec::new();
    let mut k: usize = 0;
    while k < parts
        invariant
            parts == input@.len() / 131072,
            names@.len() == parts,
            chunks@.len() == parts,
            k <= parts,
            output@.len() == k,
            forall|j: int| 0 <= j < parts ==> #[trigger] names@[j]@ == output_name(stem_text(stem), j as nat),
            forall|j: int|
                0 <= j < parts ==> #[trigger] chunks@[j]@ == input@.subrange(131072 * j, 131072 * j + 131072),
            forall|j: int|
                0 <= j < k ==> (#[trigger] output@[j]).name@ == output_name(stem_text(stem), j as nat)
                    && converted(input@.subrange(131072 * j, 131072 * j + 131072), output@[j].data@),
        decreases parts - k,
    {
        assert(chunks@[k as int]@.len() == 131072);
        let data = convert_chunk(chunks[k].as_slice());
        let name = names[k].clone();
        output.push(OutputFile { name, data });
        k += 1;
    }
    Ok(output)
}

} // verus!

verus! {

/// A device file converted from a raw image loads back into a device that exports the image,
/// every page valid.
pub proof fn lemma_convert_roundtrip(img: Seq<u8>, data: Seq<u8>, m2: MemoryView)
    requires
        img.len() == 131072,
        converted(img, data),
        loaded_from(m2.ch_a, data, Channel::ChannelA),
        loaded_from(m2.ch_b, data.skip(82432), Channel::ChannelB),
    ensures
        m2.ch_a.page_ok(true),
        m2.ch_b.page_ok(true),
        saved_image(m2, 2048) == img,
        result_counts(m2, 2048) == (4096nat, 0nat, 0nat),
{
    let m = choose|m: MemoryView|
        #[trigger] imported_device(img, m) && data == saved_bytes(m.ch_a, device_bootloop(m))
            + saved_bytes(m.ch_b, device_bootloop(m));
    let (ca, cb) = choose|ca: ChannelMemory, cb: ChannelMemory|
        #[trigger] cleared_channel(ca, default_channel_bits(Channel::ChannelA)) && #[trigger] cleared_channel(
            cb,
            default_channel_bits(Channel::ChannelB),
        ) && pages_written(ca, m.ch_a, true, image_pages(img, Channel::ChannelA), below(2048))
            && pages_written(cb, m.ch_b, true, image_pages(img, Channel::ChannelB), below(2048));
    lemma_default_good_loops(Channel::ChannelA);
    lemma_default_good_loops(Channel::ChannelB);
    lemma_enough_good_loops(ca);
    lemma_enough_good_loops(cb);
    let m0 = MemoryView { ch_a: ca, ch_b: cb, ..m };
    lemma_image_roundtrip(m0, img, m);
    lemma_memory_save_load(m, data, m2);
    assert forall|la: u16| la < 2048 implies #[trigger] page_read(m2.ch_a, la, true) == image_page(
        img,
        la,
        Channel::ChannelA,
    ) by {
        lemma_image_page_read(ca, m.ch_a, img, Channel::ChannelA, la);
        lemma_image_page_len(img, la, Channel::ChannelA);
        lemma_pages_written_match(ca, m.ch_a, true, image_pages(img, Channel::ChannelA), below(2048), la);
        lemma_same_channel_read(m.ch_a, m2.ch_a, la);
    }
    assert forall|la: u16| la < 2048 implies #[trigger] page_read(m2.ch_b, la, true) == image_page(
        img,
        la,
        Channel::ChannelB,
    ) by {
        lemma_image_page_read(cb, m.ch_b, img, Channel::ChannelB, la);
        lemma_image_page_len(img, la, Channel::ChannelB);
        lemma_pages_written_match(cb, m.ch_b, true, image_pages(img, Channel::ChannelB), below(2048), la);
        lemma_same_channel_read(m.ch_b, m2.ch_b, la);
    }
    lemma_pages_give_image(m2, img);
}

} // verus!
