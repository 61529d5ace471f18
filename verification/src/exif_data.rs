//! The EXIF data of a shot: when it was taken, how it was exposed, how it stands, and its
//! thumbnail.
use exif::{Context, In, Tag, Value};
use vstd::prelude::*;
use vstd::slice::{slice_subrange, slice_to_vec};
use vstd::utf8::{decode_utf8, valid_utf8};
use crate::model::{opt_text, CaptureTime, CaptureView, ExifSummary};
use crate::raw::{embedded_jpeg, is_jpeg, raf_preview, starts_as_jpeg};
use crate::text::{chars_of, number_in, trim_text, trimmed};

verus! {

/// The value of an EXIF field, as far as its type is read here.
#[derive(PartialEq, Eq, Debug)]
pub enum ExifValue {
    Byte(Vec<u8>),
    Ascii(Vec<Vec<u8>>),
    Short(Vec<u16>),
    Long(Vec<u32>),
    /// Each with its numerator and its denominator.
    Rational(Vec<(u32, u32)>),
    Other,
}

/// The value of an `ExifValue`.
#[verifier::ext_equal]
pub enum FieldView {
    Byte(Seq<u8>),
    Ascii(Seq<Seq<u8>>),
    Short(Seq<u16>),
    Long(Seq<u32>),
    Rational(Seq<(u32, u32)>),
    Other,
}

impl View for ExifValue {
    type V = FieldView;

    open spec fn view(&self) -> FieldView {
        match *self {
            ExifValue::Byte(v) => FieldView::Byte(v@),
            ExifValue::Ascii(v) => FieldView::Ascii(v@.map_values(|b: Vec<u8>| b@)),
            ExifValue::Short(v) => FieldView::Short(v@),
            ExifValue::Long(v) => FieldView::Long(v@),
            ExifValue::Rational(v) => FieldView::Rational(v@),
            ExifValue::Other => FieldView::Other,
        }
    }
}

/// The value of an optional field.
pub open spec fn opt_field(o: Option<ExifValue>) -> Option<FieldView> {
    match o {
        Some(v) => Some(v@),
        None => None,
    }
}

/// Where a field stands: among those of the primary image itself, among those on how it was
/// taken, or among those of the thumbnail.
#[derive(Clone, Copy, PartialEq, Eq, Debug, Structural)]
pub enum FieldPlace {
    Image,
    Exposure,
    Thumbnail,
}

/// The tag of the orientation.
pub const TAG_ORIENTATION: u16 = 0x112;

/// The tag of where the thumbnail starts in the TIFF data.
pub const TAG_THUMBNAIL_START: u16 = 0x201;

/// The tag of how many bytes the thumbnail takes.
pub const TAG_THUMBNAIL_LENGTH: u16 = 0x202;

/// The tag of the exposure time.
pub const TAG_EXPOSURE_TIME: u16 = 0x829a;

/// The tag of the aperture.
pub const TAG_F_NUMBER: u16 = 0x829d;

/// The tag of the sensitivity.
pub const TAG_SENSITIVITY: u16 = 0x8827;

/// The tag of the date and time at which the shot was taken.
pub const TAG_DATE_TIME_ORIGINAL: u16 = 0x9003;

/// The tag of the focal length.
pub const TAG_FOCAL_LENGTH: u16 = 0x920a;

/// The tag of the fraction of the second at which the shot was taken.
pub const TAG_SUB_SEC_TIME_ORIGINAL: u16 = 0x9291;

/// The EXIF fields of a file, as kamadak-exif reads them.
#[verifier::external_type_specification]
#[verifier::external_body]
pub struct ExExif(exif::Exif);

/// The fields that are held, by place and tag.
pub type FieldMap = Map<(FieldPlace, u16), FieldView>;

/// What the EXIF data of a file holds: its fields, and the TIFF data that they lie in.
pub struct ParsedView {
    pub fields: FieldMap,
    pub tiff: Seq<u8>,
}

/// The fields that are held, by place and tag.
pub uninterp spec fn exif_fields(e: exif::Exif) -> FieldMap;

/// The TIFF data that the fields lie in.
pub uninterp spec fn exif_tiff(e: exif::Exif) -> Seq<u8>;

/// What the EXIF data of an image file holds; `None` where the file is no image that is
/// understood or holds no EXIF data that parses.
pub uninterp spec fn parsed_exif(data: Seq<u8>) -> Option<ParsedView>;

/// The text that bytes stand for, each invalid part of them replaced.
pub uninterp spec fn lossy_text(bytes: Seq<u8>) -> Seq<char>;

/// `exif::Reader::read_from_container` on the bytes of a file, with the errors dropped.
/// What comes back is named by the bytes.
#[verifier::external_body]
fn exif_read(data: &[u8]) -> (r: Option<exif::Exif>)
    ensures
        match r {
            Some(e) => parsed_exif(data@) == Some(
                (ParsedView { fields: exif_fields(e), tiff: exif_tiff(e) }),
            ),
            None => parsed_exif(data@) is None,
        },
{
    exif::Reader::new().read_from_container(&mut std::io::Cursor::new(data)).ok()
}

/// `exif::Exif::get_field`: the value of the field with the tag, if there is one. The fields
/// of the primary image are those of the TIFF and of the EXIF context, those of the thumbnail
/// are of the TIFF context.
#[verifier::external_body]
fn exif_field(e: &exif::Exif, place: FieldPlace, tag: u16) -> (r: Option<ExifValue>)
    ensures
        opt_field(r) == (if exif_fields(*e).contains_key((place, tag)) {
            Some(exif_fields(*e)[(place, tag)])
        } else {
            None
        }),
{
    let (context, ifd) = match place {
        FieldPlace::Image => (Context::Tiff, In::PRIMARY),
        FieldPlace::Exposure => (Context::Exif, In::PRIMARY),
        FieldPlace::Thumbnail => (Context::Tiff, In::THUMBNAIL),
    };
    let field = e.get_field(Tag(context, tag), ifd)?;
    Some(match &field.value {
        Value::Byte(v) => ExifValue::Byte(v.clone()),
        Value::Ascii(v) => ExifValue::Ascii(v.clone()),
        Value::Short(v) => ExifValue::Short(v.clone()),
        Value::Long(v) => ExifValue::Long(v.clone()),
        Value::Rational(v) => ExifValue::Rational(v.iter().map(|r| (r.num, r.denom)).collect()),
        _ => ExifValue::Other,
    })
}

/// `exif::Exif::buf`: the TIFF data that the fields lie in.
#[verifier::external_body]
fn tiff_bytes(e: &exif::Exif) -> (r: Vec<u8>)
    ensures
        r@ == exif_tiff(*e),
{
    e.buf().to_vec()
}

/// `String::from_utf8_lossy`: what comes back is named by the bytes, and is what the bytes
/// encode where they are valid UTF-8.
#[verifier::external_body]
fn text_from_bytes(bytes: &Vec<u8>) -> (r: String)
    ensures
        r@ == lossy_text(bytes@),
        valid_utf8(bytes@) ==> r@ == decode_utf8(bytes@),
{
    String::from_utf8_lossy(bytes).into_owned()
}

/// The six fields that are read, as far as the file holds them.
pub struct ExifFields {
    pub datetime: Option<ExifValue>,
    pub subsec: Option<ExifValue>,
    pub exposure: Option<ExifValue>,
    pub f_number: Option<ExifValue>,
    pub iso: Option<ExifValue>,
    pub focal_length: Option<ExifValue>,
}

/// The value of an `ExifFields`.
pub struct FieldsView {
    pub datetime: Option<FieldView>,
    pub subsec: Option<FieldView>,
    pub exposure: Option<FieldView>,
    pub f_number: Option<FieldView>,
    pub iso: Option<FieldView>,
    pub focal_length: Option<FieldView>,
}

impl View for ExifFields {
    type V = FieldsView;

    open spec fn view(&self) -> FieldsView {
        FieldsView {
            datetime: opt_field(self.datetime),
            subsec: opt_field(self.subsec),
            exposure: opt_field(self.exposure),
            f_number: opt_field(self.f_number),
            iso: opt_field(self.iso),
            focal_length: opt_field(self.focal_length),
        }
    }
}

/// The first rational of a field.
pub open spec fn first_rational(f: Option<FieldView>) -> Option<(u32, u32)> {
    match f {
        Some(FieldView::Rational(v)) => if v.len() > 0 {
            Some(v[0])
        } else {
            None
        },
        _ => None,
    }
}

/// The first rational of a field, unless its denominator is zero.
pub open spec fn first_quotient(f: Option<FieldView>) -> Option<(u32, u32)> {
    match first_rational(f) {
        Some((n, d)) => if d == 0 {
            None
        } else {
            Some((n, d))
        },
        None => None,
    }
}

/// The first unsigned number of a field.
pub open spec fn first_uint(f: Option<FieldView>) -> Option<u32> {
    match f {
        Some(FieldView::Byte(v)) => if v.len() > 0 {
            Some(v[0] as u32)
        } else {
            None
        },
        Some(FieldView::Short(v)) => if v.len() > 0 {
            Some(v[0] as u32)
        } else {
            None
        },
        Some(FieldView::Long(v)) => if v.len() > 0 {
            Some(v[0])
        } else {
            None
        },
        _ => None,
    }
}

/// The first text of a field, without the white space around it.
pub open spec fn first_text(f: Option<FieldView>) -> Option<Seq<char>> {
    match f {
        Some(FieldView::Ascii(v)) => if v.len() > 0 {
            Some(trimmed(lossy_text(v[0])))
        } else {
            None
        },
        _ => None,
    }
}

/// The first rational of a field.
pub fn rational_field(f: &Option<ExifValue>) -> (r: Option<(u32, u32)>)
    ensures
        r == first_rational(opt_field(*f)),
{
    match f {
        Some(ExifValue::Rational(v)) => {
            if v.len() > 0 {
                Some(v[0])
            } else {
                None
            }
        },
        _ => None,
    }
}

/// The first rational of a field, unless its denominator is zero.
pub fn quotient_field(f: &Option<ExifValue>) -> (r: Option<(u32, u32)>)
    ensures
        r == first_quotient(opt_field(*f)),
{
    match rational_field(f) {
        Some((n, d)) => {
            if d == 0 {
                None
            } else {
                Some((n, d))
            }
        },
        None => None,
    }
}

/// The first unsigned number of a field.
pub fn uint_field(f: &Option<ExifValue>) -> (r: Option<u32>)
    ensures
        r == first_uint(opt_field(*f)),
{
    match f {
        Some(ExifValue::Byte(v)) => {
            if v.len() > 0 {
                Some(v[0] as u32)
            } else {
                None
            }
        },
        Some(ExifValue::Short(v)) => {
            if v.len() > 0 {
                Some(v[0] as u32)
            } else {
                None
            }
        },
        Some(ExifValue::Long(v)) => {
            if v.len() > 0 {
                Some(v[0])
            } else {
                None
            }
        },
        _ => None,
    }
}

/// The first text of a field, without the white space around it.
pub fn ascii_field(f: &Option<ExifValue>) -> (r: Option<String>)
    ensures
        opt_text(r) == first_text(opt_field(*f)),
{
    match f {
        Some(ExifValue::Ascii(v)) => {
            if v.len() > 0 {
                let s = text_from_bytes(&v[0]);
                Some(trim_text(s.as_str()))
            } else {
                None
            }
        },
        _ => None,
    }
}

/// Whether a character is a decimal digit.
pub open spec fn is_digit(c: char) -> bool {
    48 <= c as int <= 57
}

/// How many digits a text starts with.
pub open spec fn leading_digits(s: Seq<char>) -> nat
    decreases s.len(),
{
    if s.len() > 0 && is_digit(s[0]) {
        1 + leading_digits(s.drop_first())
    } else {
        0
    }
}

/// The digit at `i` of a text; zero beyond its leading digits.
pub open spec fn digit_at(s: Seq<char>, i: int) -> int {
    if i < leading_digits(s) {
        s[i] as int - 48
    } else {
        0
    }
}

/// The milliseconds of a decimal fraction: its first three digits, with zeros after it
/// where it is shorter.
pub open spec fn milliseconds(s: Seq<char>) -> Option<u32> {
    let d = trimmed(s);
    if leading_digits(d) == 0 {
        None
    } else {
        Some((digit_at(d, 0) * 100 + digit_at(d, 1) * 10 + digit_at(d, 2)) as u32)
    }
}

proof fn lemma_leading_digits(s: Seq<char>, n: int)
    requires
        0 <= n <= s.len(),
        forall|k: int| 0 <= k < n ==> is_digit(#[trigger] s[k]),
    ensures
        leading_digits(s) >= n,
        n < s.len() && !is_digit(s[n]) ==> leading_digits(s) == n,
        n == s.len() ==> leading_digits(s) == n,
    decreases s.len(),
{
    if n > 0 {
        let rest = s.drop_first();
        assert forall|k: int| 0 <= k < n - 1 implies is_digit(#[trigger] rest[k]) by {
            assert(rest[k] == s[k + 1]);
        }
        lemma_leading_digits(rest, n - 1);
        assert(is_digit(s[0]));
        if n < s.len() {
            assert(rest[n - 1] == s[n]);
        }
    }
}

fn digit_value(c: char) -> (r: Option<u32>)
    ensures
        r is Some == is_digit(c),
        r is Some ==> r->0 == c as int - 48 && r->0 <= 9,
{
    let n: u32 = c as u32;
    if 48 <= n && n <= 57 {
        Some(n - 48)
    } else {
        None
    }
}

fn digit_of(v: &Vec<char>, i: usize) -> (r: Option<u32>)
    ensures
        r is Some == (i < v@.len() && is_digit(v@[i as int])),
        r is Some ==> r->0 == v@[i as int] as int - 48 && r->0 <= 9,
{
    if i < v.len() {
        digit_value(v[i])
    } else {
        None
    }
}

/// Reads the fraction of a second as EXIF writes it: the digits after the decimal point.
pub fn parse_subsec(s: &str) -> (r: Option<u32>)
    ensures
        r == milliseconds(s@),
{
    let t = trim_text(s);
    let v = chars_of(t.as_str());
    proof {
        lemma_leading_digits(v@, 0);
    }
    let a: u32 = match digit_of(&v, 0) {
        Some(d) => d,
        None => {
            return None;
        },
    };
    proof {
        lemma_leading_digits(v@, 1);
    }
    let b: u32 = match digit_of(&v, 1) {
        Some(d) => d,
        None => {
            return Some(a * 100);
        },
    };
    proof {
        lemma_leading_digits(v@, 2);
    }
    let c: u32 = match digit_of(&v, 2) {
        Some(d) => {
            proof {
                lemma_leading_digits(v@, 3);
            }
            d
        },
        None => 0,
    };
    Some(a * 100 + b * 10 + c)
}

/// The exposure data that the fields hold; `None` where they hold none.
pub open spec fn summary_of(f: FieldsView) -> Option<ExifSummary> {
    let s = ExifSummary {
        exposure: first_rational(f.exposure),
        f_number: first_quotient(f.f_number),
        iso: first_uint(f.iso),
        focal_length_mm: first_quotient(f.focal_length),
    };
    if s.exposure is None && s.f_number is None && s.iso is None && s.focal_length_mm is None {
        None
    } else {
        Some(s)
    }
}

/// When the shot was taken, as far as the fields say.
pub open spec fn capture_of(f: FieldsView) -> CaptureView {
    CaptureView {
        datetime: first_text(f.datetime),
        subsec: match first_text(f.subsec) {
            Some(s) => milliseconds(s),
            None => None,
        },
    }
}

/// The exposure data that the fields hold; `None` where they hold none.
pub fn read_exif_summary(f: &ExifFields) -> (r: Option<ExifSummary>)
    ensures
        r == summary_of(f@),
{
    let exposure = rational_field(&f.exposure);
    let f_number = quotient_field(&f.f_number);
    let iso = uint_field(&f.iso);
    let focal_length_mm = quotient_field(&f.focal_length);
    if exposure.is_none() && f_number.is_none() && iso.is_none() && focal_length_mm.is_none() {
        None
    } else {
        Some(ExifSummary { exposure, f_number, iso, focal_length_mm })
    }
}

/// When the shot was taken and how it was exposed, as far as the fields say.
pub fn capture_and_summary(f: &ExifFields) -> (r: (CaptureTime, Option<ExifSummary>))
    ensures
        r.0@ == capture_of(f@),
        r.1 == summary_of(f@),
{
    let datetime = ascii_field(&f.datetime);
    let subsec = match ascii_field(&f.subsec) {
        Some(s) => parse_subsec(s.as_str()),
        None => None,
    };
    (CaptureTime { datetime, subsec }, read_exif_summary(f))
}

/// The field at the place with the tag, if there is one.
pub open spec fn field_in(m: FieldMap, place: FieldPlace, tag: u16) -> Option<FieldView> {
    if m.contains_key((place, tag)) {
        Some(m[(place, tag)])
    } else {
        None
    }
}

/// The six fields that are read.
pub open spec fn fields_in(m: FieldMap) -> FieldsView {
    FieldsView {
        datetime: field_in(m, FieldPlace::Exposure, TAG_DATE_TIME_ORIGINAL),
        subsec: field_in(m, FieldPlace::Exposure, TAG_SUB_SEC_TIME_ORIGINAL),
        exposure: field_in(m, FieldPlace::Exposure, TAG_EXPOSURE_TIME),
        f_number: field_in(m, FieldPlace::Exposure, TAG_F_NUMBER),
        iso: field_in(m, FieldPlace::Exposure, TAG_SENSITIVITY),
        focal_length: field_in(m, FieldPlace::Exposure, TAG_FOCAL_LENGTH),
    }
}

/// When the shot was taken, as far as its image file says.
pub open spec fn capture_in(data: Seq<u8>) -> CaptureView {
    match parsed_exif(data) {
        Some(p) => capture_of(fields_in(p.fields)),
        None => CaptureView::unknown(),
    }
}

/// How the shot was exposed, as far as its image file says.
pub open spec fn summary_in(data: Seq<u8>) -> Option<ExifSummary> {
    match parsed_exif(data) {
        Some(p) => summary_of(fields_in(p.fields)),
        None => None,
    }
}

/// Reads the EXIF data of an image file from its bytes. A file without any, or with
/// none that parses, has nothing to tell.
pub fn read_exif_data(data: &[u8]) -> (r: (CaptureTime, Option<ExifSummary>))
    ensures
        r.0@ == capture_in(data@),
        r.1 == summary_in(data@),
{
    match exif_read(data) {
        None => (CaptureTime::default(), None),
        Some(e) => {
            let f = ExifFields {
                datetime: exif_field(&e, FieldPlace::Exposure, TAG_DATE_TIME_ORIGINAL),
                subsec: exif_field(&e, FieldPlace::Exposure, TAG_SUB_SEC_TIME_ORIGINAL),
                exposure: exif_field(&e, FieldPlace::Exposure, TAG_EXPOSURE_TIME),
                f_number: exif_field(&e, FieldPlace::Exposure, TAG_F_NUMBER),
                iso: exif_field(&e, FieldPlace::Exposure, TAG_SENSITIVITY),
                focal_length: exif_field(&e, FieldPlace::Exposure, TAG_FOCAL_LENGTH),
            };
            capture_and_summary(&f)
        },
    }
}

/// Reads the EXIF data of a RAF file from its bytes: that of the preview within it.
pub fn read_exif_data_raf(data: &[u8]) -> (r: (CaptureTime, Option<ExifSummary>))
    ensures
        r.0@ == match raf_preview(data@) {
            Some(jpeg) => capture_in(jpeg),
            None => CaptureView::unknown(),
        },
        r.1 == match raf_preview(data@) {
            Some(jpeg) => summary_in(jpeg),
            None => None,
        },
{
    match embedded_jpeg(data) {
        None => (CaptureTime::default(), None),
        Some(jpeg) => read_exif_data(jpeg),
    }
}

/// The orientation that a field gives; that of an upright frame where it gives none.
pub open spec fn orientation_of(f: Option<FieldView>) -> u16 {
    match first_uint(f) {
        Some(n) => if n <= u16::MAX {
            n as u16
        } else {
            1
        },
        None => 1,
    }
}

/// The orientation that a field gives; that of an upright frame where it gives none.
pub fn orientation_from(f: &Option<ExifValue>) -> (r: u16)
    ensures
        r == orientation_of(opt_field(*f)),
{
    match uint_field(f) {
        Some(n) => {
            if n <= u16::MAX as u32 {
                n as u16
            } else {
                1
            }
        },
        None => 1,
    }
}

/// The orientation of an image file, as far as it says.
pub fn read_orientation(data: &[u8]) -> (r: u16)
    ensures
        r == match parsed_exif(data@) {
            Some(p) => orientation_of(field_in(p.fields, FieldPlace::Image, TAG_ORIENTATION)),
            None => 1,
        },
{
    match exif_read(data) {
        None => 1,
        Some(e) => {
            let f = exif_field(&e, FieldPlace::Image, TAG_ORIENTATION);
            orientation_from(&f)
        },
    }
}

/// The thumbnail that lies in the TIFF data where the fields say, if it is a JPEG.
pub open spec fn thumbnail_at(
    start: Option<FieldView>,
    length: Option<FieldView>,
    tiff: Seq<u8>,
) -> Option<Seq<u8>> {
    match (first_uint(start), first_uint(length)) {
        (Some(s), Some(n)) => {
            let part = tiff.subrange(s as int, s + n);
            if s + n <= tiff.len() && starts_as_jpeg(part) {
                Some(part)
            } else {
                None
            }
        },
        _ => None,
    }
}

/// The value of an optional list of bytes.
pub open spec fn opt_bytes(o: Option<Vec<u8>>) -> Option<Seq<u8>> {
    match o {
        Some(v) => Some(v@),
        None => None,
    }
}

/// The thumbnail that lies in the TIFF data where the fields say, if it is a JPEG.
pub fn thumbnail_from(
    start: &Option<ExifValue>,
    length: &Option<ExifValue>,
    tiff: &Vec<u8>,
) -> (r: Option<Vec<u8>>)
    ensures
        opt_bytes(r) == thumbnail_at(opt_field(*start), opt_field(*length), tiff@),
{
    match (uint_field(start), uint_field(length)) {
        (Some(s), Some(n)) => {
            let end: u64 = s as u64 + n as u64;
            if end > tiff.len() as u64 {
                return None;
            }
            let part = slice_subrange(tiff.as_slice(), s as usize, end as usize);
            if is_jpeg(part) {
                let v = slice_to_vec(part);
                assert(v@ =~= part@);
                Some(v)
            } else {
                None
            }
        },
        _ => None,
    }
}

/// The thumbnail that an image file holds, as a JPEG.
pub fn embedded_thumbnail(data: &[u8]) -> (r: Option<Vec<u8>>)
    ensures
        opt_bytes(r) == match parsed_exif(data@) {
            Some(p) => thumbnail_at(
                field_in(p.fields, FieldPlace::Thumbnail, TAG_THUMBNAIL_START),
                field_in(p.fields, FieldPlace::Thumbnail, TAG_THUMBNAIL_LENGTH),
                p.tiff,
            ),
            None => None,
        },
{
    match exif_read(data) {
        None => None,
        Some(e) => {
            let start = exif_field(&e, FieldPlace::Thumbnail, TAG_THUMBNAIL_START);
            let length = exif_field(&e, FieldPlace::Thumbnail, TAG_THUMBNAIL_LENGTH);
            thumbnail_from(&start, &length, &tiff_bytes(&e))
        },
    }
}

/// A number reads the same however wide it is stored, and only the first of several counts.
pub proof fn a_number_reads_the_same_in_every_width(n: u8, more: Seq<u8>, m: u16, l: u32)
    ensures
        first_uint(Some(FieldView::Byte(seq![n] + more))) == Some(n as u32),
        first_uint(Some(FieldView::Short(seq![n as u16]))) == Some(n as u32),
        first_uint(Some(FieldView::Long(seq![n as u32]))) == Some(n as u32),
        first_uint(Some(FieldView::Short(seq![m]))) == Some(m as u32),
        first_uint(Some(FieldView::Long(seq![m as u32]))) == Some(m as u32),
        first_uint(Some(FieldView::Long(seq![l]))) == Some(l),
        first_uint(Some(FieldView::Byte(Seq::empty()))) is None,
        first_uint(Some(FieldView::Short(Seq::empty()))) is None,
        first_uint(Some(FieldView::Long(Seq::empty()))) is None,
        first_uint(None) is None,
{
}

/// A field of fractions reads as the first of them; one that is divided out must have
/// something to divide by.
pub proof fn a_fraction_reads_as_the_first(n: u32, d: u32, more: Seq<(u32, u32)>)
    ensures
        ({
            let f = Some(FieldView::Rational(seq![(n, d)] + more));
            &&& first_rational(f) == Some((n, d))
            &&& d != 0 ==> first_quotient(f) == Some((n, d))
            &&& d == 0 ==> first_quotient(f) is None
        }),
        first_rational(Some(FieldView::Rational(Seq::empty()))) is None,
        first_rational(None) is None,
        first_quotient(None) is None,
{
}

/// Whether the text starts with exactly `k` digits.
pub open spec fn starts_with_digits(s: Seq<char>, k: int) -> bool {
    &&& 0 <= k <= s.len()
    &&& forall|i: int| 0 <= i < k ==> '0' <= #[trigger] s[i] <= '9'
    &&& k < s.len() ==> !('0' <= s[k] <= '9')
}

proof fn lemma_leading(s: Seq<char>, k: int)
    requires
        starts_with_digits(s, k),
    ensures
        leading_digits(s) == k,
    decreases s.len(),
{
    if k > 0 {
        assert('0' <= s[0] <= '9');
        let rest = s.drop_first();
        assert forall|i: int| 0 <= i < k - 1 implies '0' <= #[trigger] rest[i] <= '9' by {
            assert('0' <= s[i + 1] <= '9');
        }
        lemma_leading(rest, k - 1);
    }
}

/// The digits of a fraction of a second are those behind the point, so that missing ones
/// are zeros at the end and only the first three count: "5" is 500 milliseconds, "05" is 50,
/// and "0512" is 51.
pub proof fn a_fraction_of_a_second_reads_from_the_point(s: Seq<char>, k: int)
    requires
        starts_with_digits(trimmed(s), k),
    ensures
        k == 0 ==> milliseconds(s) is None,
        k == 1 ==> milliseconds(s) == Some((100 * number_in(trimmed(s).take(1))) as u32),
        k == 2 ==> milliseconds(s) == Some((10 * number_in(trimmed(s).take(2))) as u32),
        k >= 3 ==> milliseconds(s) == Some(number_in(trimmed(s).take(3)) as u32),
        milliseconds(s) is Some ==> milliseconds(s)->0 < 1000,
{
    let d = trimmed(s);
    lemma_leading(d, k);
    reveal_with_fuel(number_in, 4);
    if k > 0 {
        assert('0' <= d[0] <= '9');
        assert(d.take(1).drop_last() =~= Seq::empty());
        assert(d.take(1).last() == d[0]);
    }
    if k > 1 {
        assert('0' <= d[1] <= '9');
        assert(d.take(2).drop_last() =~= d.take(1));
        assert(d.take(2).last() == d[1]);
    }
    if k > 2 {
        assert('0' <= d[2] <= '9');
        assert(d.take(3).drop_last() =~= d.take(2));
        assert(d.take(3).last() == d[2]);
    }
}

/// A summary has each of its entries from its own field, and there is one as soon as there
/// is an entry.
pub proof fn a_summary_reads_each_field(f: FieldsView)
    ensures
        first_rational(f.exposure) is Some ==> summary_of(f) is Some,
        first_quotient(f.f_number) is Some ==> summary_of(f) is Some,
        first_uint(f.iso) is Some ==> summary_of(f) is Some,
        first_quotient(f.focal_length) is Some ==> summary_of(f) is Some,
        summary_of(f) matches Some(s) ==> {
            &&& s.exposure == first_rational(f.exposure)
            &&& s.f_number == first_quotient(f.f_number)
            &&& s.iso == first_uint(f.iso)
            &&& s.focal_length_mm == first_quotient(f.focal_length)
            &&& s.exposure is Some || s.f_number is Some || s.iso is Some || s.focal_length_mm
                is Some
        },
{
}

/// The fields that are read, by the numbers that EXIF gives them.
pub proof fn fields_are_read_by_their_numbers(m: FieldMap, v: FieldView)
    ensures
        m.contains_pair((FieldPlace::Exposure, 0x9003), v) ==> fields_in(m).datetime == Some(v),
        m.contains_pair((FieldPlace::Exposure, 0x9291), v) ==> fields_in(m).subsec == Some(v),
        m.contains_pair((FieldPlace::Exposure, 0x829A), v) ==> fields_in(m).exposure == Some(v),
        m.contains_pair((FieldPlace::Exposure, 0x829D), v) ==> fields_in(m).f_number == Some(v),
        m.contains_pair((FieldPlace::Exposure, 0x8827), v) ==> fields_in(m).iso == Some(v),
        m.contains_pair((FieldPlace::Exposure, 0x920A), v) ==> fields_in(m).focal_length == Some(
            v,
        ),
        !m.contains_key((FieldPlace::Exposure, 0x9003)) ==> fields_in(m).datetime is None,
        !m.contains_key((FieldPlace::Exposure, 0x9291)) ==> fields_in(m).subsec is None,
        !m.contains_key((FieldPlace::Exposure, 0x829A)) ==> fields_in(m).exposure is None,
        !m.contains_key((FieldPlace::Exposure, 0x829D)) ==> fields_in(m).f_number is None,
        !m.contains_key((FieldPlace::Exposure, 0x8827)) ==> fields_in(m).iso is None,
        !m.contains_key((FieldPlace::Exposure, 0x920A)) ==> fields_in(m).focal_length is None,
{
}

/// When a shot was taken is read from its date and its fraction, each on its own.
pub proof fn a_capture_time_reads_date_and_fraction(f: FieldsView, text: Seq<u8>)
    ensures
        f.datetime == Some(FieldView::Ascii(seq![text])) ==> capture_of(f).datetime == Some(
            trimmed(lossy_text(text)),
        ),
        f.datetime is None ==> capture_of(f).datetime is None,
        f.subsec == Some(FieldView::Ascii(seq![text])) ==> capture_of(f).subsec == milliseconds(
            trimmed(lossy_text(text)),
        ),
        f.subsec is None ==> capture_of(f).subsec is None,
{
}

/// The orientation is the number that is stored, and 1 where none is or where it has more
/// than sixteen bits.
pub proof fn an_orientation_reads_as_stored(n: u16, l: u32)
    ensures
        orientation_of(Some(FieldView::Short(seq![n]))) == n,
        orientation_of(Some(FieldView::Long(seq![n as u32]))) == n,
        l >= 0x10000 ==> orientation_of(Some(FieldView::Long(seq![l]))) == 1,
        orientation_of(None) == 1,
{
}

/// A thumbnail is the JPEG of the stored length at the stored start, and nothing of it is
/// left out or added. Without a start, a length or a JPEG there is none.
pub proof fn a_thumbnail_is_found_where_it_is_said_to_be(
    start: u32,
    length: u32,
    tiff: Seq<u8>,
)
    ensures
        ({
            let s = Some(FieldView::Long(seq![start]));
            let n = Some(FieldView::Long(seq![length]));
            let end = start + length;
            &&& end <= tiff.len() && length >= 3 && tiff[start as int] == 0xFF && tiff[start + 1]
                == 0xD8 && tiff[start + 2] == 0xFF ==> thumbnail_at(s, n, tiff) == Some(
                tiff.subrange(start as int, end),
            )
            &&& end > tiff.len() ==> thumbnail_at(s, n, tiff) is None
            &&& end <= tiff.len() && (length < 3 || tiff[start as int] != 0xFF || tiff[start + 1]
                != 0xD8 || tiff[start + 2] != 0xFF) ==> thumbnail_at(s, n, tiff) is None
            &&& thumbnail_at(None, n, tiff) is None
            &&& thumbnail_at(s, None, tiff) is None
        }),
{
}

} // verus!
