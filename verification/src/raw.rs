//! Raw containers: where a raw file holds its full-size JPEG preview. Fuji RAF is the one
//! format that is read.
use vstd::prelude::*;
use vstd::slice::slice_subrange;
use crate::text::same_text;

verus! {

/// Whether a raw file with this extension, in lower case, has a preview that can be read.
pub fn preview_supported(ext_lower: &str) -> (r: bool)
    ensures
        r == (ext_lower@ == "raf"@),
{
    same_text(ext_lower, "raf")
}

/// What every RAF file starts with: `FUJIFILMCCD-RAW ` in ASCII.
pub const RAF_MAGIC: [u8; 16] = [
    70,
    85,
    74,
    73,
    70,
    73,
    76,
    77,
    67,
    67,
    68,
    45,
    82,
    65,
    87,
    32,
];

/// Where the header holds the position of the preview.
pub const RAF_JPEG_OFFSET_POS: usize = 84;

/// Where the header holds the length of the preview.
pub const RAF_JPEG_LENGTH_POS: usize = 88;

/// The number that four bytes hold, the highest byte first.
pub open spec fn be32(data: Seq<u8>, at: int) -> int {
    data[at] * 16777216 + data[at + 1] * 65536 + data[at + 2] * 256 + data[at + 3]
}

/// Whether the bytes start as a JPEG does.
pub open spec fn starts_as_jpeg(data: Seq<u8>) -> bool {
    data.len() >= 3 && data[0] == 0xFF && data[1] == 0xD8 && data[2] == 0xFF
}

/// The preview within a RAF file: there is none without the magic, with a header that is
/// too short, with a length of zero, beyond the end of the file, or if what is there does
/// not start as a JPEG does.
pub open spec fn raf_preview(data: Seq<u8>) -> Option<Seq<u8>> {
    if data.len() < 92 || data.take(16) != RAF_MAGIC@ {
        None
    } else {
        let offset = be32(data, RAF_JPEG_OFFSET_POS as int);
        let length = be32(data, RAF_JPEG_LENGTH_POS as int);
        if length == 0 || offset + length > data.len() {
            None
        } else {
            let part = data.subrange(offset, offset + length);
            if starts_as_jpeg(part) {
                Some(part)
            } else {
                None
            }
        }
    }
}

fn read_be32(data: &[u8], at: usize) -> (r: u32)
    requires
        at + 4 <= data@.len(),
    ensures
        r == be32(data@, at as int),
{
    data[at] as u32 * 16777216 + data[at + 1] as u32 * 65536 + data[at + 2] as u32 * 256 + data[at
        + 3] as u32
}

fn has_magic(data: &[u8]) -> (r: bool)
    requires
        data@.len() >= 16,
    ensures
        r == (data@.take(16) == RAF_MAGIC@),
{
    let magic = RAF_MAGIC;
    let mut i: usize = 0;
    while i < 16
        invariant
            magic@ == RAF_MAGIC@,
            data@.len() >= 16,
            0 <= i <= 16,
            forall|k: int| 0 <= k < i ==> data@[k] == magic@[k],
        decreases 16 - i,
    {
        if data[i] != magic[i] {
            assert(data@.take(16)[i as int] != RAF_MAGIC@[i as int]);
            return false;
        }
        i += 1;
    }
    assert(data@.take(16) =~= RAF_MAGIC@);
    true
}

/// Whether the bytes start as a JPEG does.
pub(crate) fn is_jpeg(data: &[u8]) -> (r: bool)
    ensures
        r == starts_as_jpeg(data@),
{
    data.len() >= 3 && data[0] == 0xFF && data[1] == 0xD8 && data[2] == 0xFF
}

/// The full-size JPEG that a RAF file holds.
pub fn embedded_jpeg(data: &[u8]) -> (r: Option<&[u8]>)
    ensures
        r is Some == raf_preview(data@) is Some,
        r is Some ==> r->0@ == raf_preview(data@)->0,
{
    let size: usize = data.len();
    if size < 92 || !has_magic(data) {
        return None;
    }
    let offset: usize = read_be32(data, RAF_JPEG_OFFSET_POS) as usize;
    let length: usize = read_be32(data, RAF_JPEG_LENGTH_POS) as usize;
    if length == 0 {
        return None;
    }
    match offset.checked_add(length) {
        None => None,
        Some(end) => {
            if end > size {
                return None;
            }
            let part = slice_subrange(data, offset, end);
            if is_jpeg(part) {
                Some(part)
            } else {
                None
            }
        },
    }
}

/// The JPEG that a file is or holds, whatever its name says.
pub open spec fn jpeg_in(data: Seq<u8>) -> Option<Seq<u8>> {
    if starts_as_jpeg(data) {
        Some(data)
    } else {
        raf_preview(data)
    }
}

/// The JPEG that a file is or holds, whatever its name says.
pub fn jpeg_within(data: &[u8]) -> (r: Option<&[u8]>)
    ensures
        r is Some == jpeg_in(data@) is Some,
        r is Some ==> r->0@ == jpeg_in(data@)->0,
{
    if is_jpeg(data) {
        Some(data)
    } else {
        embedded_jpeg(data)
    }
}

/// A preview lies within its file and starts as a JPEG does.
pub proof fn a_preview_is_a_jpeg_within_the_file(data: Seq<u8>)
    requires
        raf_preview(data) is Some,
    ensures
        starts_as_jpeg(raf_preview(data)->0),
        exists|i: int, j: int|
            0 <= i < j <= data.len() && raf_preview(data)->0 == #[trigger] data.subrange(i, j),
{
    let offset = be32(data, 84);
    let length = be32(data, 88);
    assert(raf_preview(data)->0 == data.subrange(offset, offset + length));
}

/// The four bytes that hold a number, the highest first.
pub open spec fn be_bytes(n: int) -> Seq<u8> {
    seq![
        (n / 16777216) as u8,
        (n / 65536 % 256) as u8,
        (n / 256 % 256) as u8,
        (n % 256) as u8,
    ]
}

/// A number is read back from the four bytes that hold it, wherever they stand.
pub proof fn a_number_is_read_back(data: Seq<u8>, at: int, n: int)
    requires
        0 <= at,
        at + 4 <= data.len(),
        0 <= n < 0x1_0000_0000,
        data.subrange(at, at + 4) == be_bytes(n),
    ensures
        be32(data, at) == n,
{
    let part = data.subrange(at, at + 4);
    assert(part[0] == data[at]);
    assert(part[1] == data[at + 1]);
    assert(part[2] == data[at + 2]);
    assert(part[3] == data[at + 3]);
    assert(n / 16777216 < 256);
    assert(data[at] == n / 16777216);
    assert(data[at + 1] == n / 65536 % 256);
    assert(data[at + 2] == n / 256 % 256);
    assert(data[at + 3] == n % 256);
    assert(n / 65536 == n / 16777216 * 256 + n / 65536 % 256);
    assert(n / 256 == n / 65536 * 256 + n / 256 % 256);
    assert(n == n / 256 * 256 + n % 256);
}

/// Whether the file starts with the letters of the magic.
pub open spec fn starts_with_magic(data: Seq<u8>) -> bool {
    data.len() >= 16 && forall|k: int|
        0 <= k < 16 ==> #[trigger] data[k] as int == "FUJIFILMCCD-RAW "@[k] as int
}

/// The magic is those letters.
proof fn lemma_magic(data: Seq<u8>)
    requires
        data.len() >= 16,
    ensures
        starts_with_magic(data) <==> data.take(16) == RAF_MAGIC@,
{
    reveal_strlit("FUJIFILMCCD-RAW ");
    let letters = "FUJIFILMCCD-RAW "@;
    assert(forall|k: int| 0 <= k < 16 ==> #[trigger] RAF_MAGIC@[k] as int == letters[k] as int);
    if starts_with_magic(data) {
        assert forall|k: int| 0 <= k < 16 implies data.take(16)[k] == RAF_MAGIC@[k] by {
            assert(data[k] as int == letters[k] as int);
            assert(RAF_MAGIC@[k] as int == letters[k] as int);
        }
        assert(data.take(16) =~= RAF_MAGIC@);
    }
    if data.take(16) == RAF_MAGIC@ {
        assert forall|k: int| 0 <= k < 16 implies #[trigger] data[k] as int == letters[k] as int by {
            assert(data.take(16)[k] == data[k]);
        }
    }
}

/// The preview is found where the header says: in a file that starts with the magic and
/// holds an offset and a length at their places, the highest byte first, the preview is the
/// JPEG of that length at that offset, and nothing of it is left out or added.
pub proof fn a_preview_is_found_where_the_header_says(
    data: Seq<u8>,
    offset: int,
    length: int,
    jpeg: Seq<u8>,
)
    requires
        data.len() >= 92,
        starts_with_magic(data),
        0 <= offset < 0x1_0000_0000,
        0 < length < 0x1_0000_0000,
        data.subrange(84, 88) == be_bytes(offset),
        data.subrange(88, 92) == be_bytes(length),
        offset + length <= data.len(),
        data.subrange(offset, offset + length) == jpeg,
        jpeg.len() >= 3,
        jpeg[0] == 0xFF,
        jpeg[1] == 0xD8,
        jpeg[2] == 0xFF,
    ensures
        raf_preview(data) == Some(jpeg),
        jpeg_in(data) == Some(jpeg),
{
    lemma_magic(data);
    a_number_is_read_back(data, 84, offset);
    a_number_is_read_back(data, 88, length);
    assert(data.take(16)[0] == RAF_MAGIC@[0]);
    assert(data[0] == 70);
}

/// Nothing is a preview without the magic, in a file too short for the header, of no
/// length, beyond the end of the file, or where the bytes do not start as a JPEG does.
pub proof fn a_broken_header_gives_no_preview(data: Seq<u8>, offset: int, length: int)
    requires
        data.len() >= 92 ==> {
            &&& 0 <= offset < 0x1_0000_0000
            &&& 0 <= length < 0x1_0000_0000
            &&& data.subrange(84, 88) == be_bytes(offset)
            &&& data.subrange(88, 92) == be_bytes(length)
        },
        data.len() < 92 || !starts_with_magic(data) || length < 3 || offset + length > data.len()
            || data[offset] != 0xFF || data[offset + 1] != 0xD8 || data[offset + 2] != 0xFF,
    ensures
        raf_preview(data) is None,
{
    if data.len() >= 92 {
        lemma_magic(data);
        a_number_is_read_back(data, 84, offset);
        a_number_is_read_back(data, 88, length);
    }
}

/// A file that is a JPEG is taken whole.
pub proof fn a_jpeg_is_its_own_preview(data: Seq<u8>)
    requires
        data.len() >= 3,
        data[0] == 0xFF,
        data[1] == 0xD8,
        data[2] == 0xFF,
    ensures
        jpeg_in(data) == Some(data),
{
}

} // verus!
