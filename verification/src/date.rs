//! Capture dates of media files, read from EXIF text or from file names.
use vstd::prelude::*;
use vstd::utf8::*;
use crate::number::{
    all_digit_bytes, digits_value, is_digit_byte, lemma_parse_digits, parse_u32_bytes,
};
use crate::path::{join_path, join_spec};
use crate::text::{
    byte_substr, lemma_boundary_after_ascii, lemma_boundary_in_prefix, remove_char,
    remove_char_str, string_push, strip_both, strip_str, Strip,
};

verus! {

/// A parsed date and time, kept as the digits that were read, used to place
/// a file into a folder and to name it.
pub struct MediaDate {
    /// Four digits, such as `2024`.
    pub year: String,
    /// Such as `02`.
    pub month: String,
    /// Such as `09`.
    pub day: String,
    /// Digits as they stand in the source, such as `174735` or `174735042`.
    pub time: String,
}

/// The text of the four fields of a [`MediaDate`].
pub struct DateView {
    pub year: Seq<char>,
    pub month: Seq<char>,
    pub day: Seq<char>,
    pub time: Seq<char>,
}

impl View for MediaDate {
    type V = DateView;

    open spec fn view(&self) -> DateView {
        DateView { year: self.year@, month: self.month@, day: self.day@, time: self.time@ }
    }
}

/// The view of an optional date.
pub open spec fn date_view(r: Option<MediaDate>) -> Option<DateView> {
    match r {
        Some(d) => Some(d@),
        None => None,
    }
}

/// The time used when the source gives none.
pub open spec fn zero_time() -> Seq<char> {
    seq!['0', '0', '0', '0', '0', '0']
}

/// The folder, relative to the destination, that a file of this date goes to:
/// the year, then the month.
pub open spec fn subdir_spec(d: DateView) -> Seq<char> {
    join_spec(d.year, d.month)
}

/// The new file name without extension: `YYYY.MM.DD_<time>`.
pub open spec fn filename_stem_spec(d: DateView) -> Seq<char> {
    d.year + seq!['.'] + d.month + seq!['.'] + d.day + seq!['_'] + d.time
}

impl MediaDate {
    /// Destination subfolder: `YYYY/MM`.
    pub fn subdir(&self) -> (r: String)
        ensures
            r@ == subdir_spec(self@),
    {
        join_path(self.year.as_str(), self.month.as_str())
    }

    /// New filename stem: `YYYY.MM.DD_<time>`.
    pub fn filename_stem(&self) -> (r: String)
        ensures
            r@ == filename_stem_spec(self@),
    {
        let mut r = String::new();
        r.append(self.year.as_str());
        r.append(".");
        r.append(self.month.as_str());
        r.append(".");
        r.append(self.day.as_str());
        r.append("_");
        r.append(self.time.as_str());
        proof {
            reveal_strlit(".");
            reveal_strlit("_");
        }
        r
    }
}

/// The year, month and day lie in the accepted ranges.
pub open spec fn date_in_range(y: int, m: int, d: int) -> bool {
    1900 <= y <= 2100 && 1 <= m <= 12 && 1 <= d <= 31
}

/// The characters whose ASCII codes are the bytes `x`.
pub open spec fn ascii_text(x: Seq<u8>) -> Seq<char> {
    Seq::new(x.len(), |k: int| x[k] as char)
}

/// `b[i..i+n]` lies in `b` and holds only ASCII digits.
pub open spec fn digits_at(b: Seq<u8>, i: int, n: int) -> bool {
    0 <= i && i + n <= b.len() && forall|k: int| i <= k < i + n ==> is_digit_byte(#[trigger] b[k])
}

/// The number written by the digits `b[i..i+n]`.
pub open spec fn number_at(b: Seq<u8>, i: int, n: int) -> int {
    digits_value(b.subrange(i, i + n)) as int
}

/// `b[i..i+8]` are eight digits `YYYYMMDD` that form an accepted date.
pub open spec fn stamp_at(b: Seq<u8>, i: int) -> bool {
    digits_at(b, i, 8) && date_in_range(
        number_at(b, i, 4),
        number_at(b, i + 4, 2),
        number_at(b, i + 6, 2),
    )
}

/// The first position, from `i` on, where a date stamp starts.
pub open spec fn first_stamp_from(b: Seq<u8>, i: int) -> Option<int>
    decreases b.len() - i,
    when i >= 0
{
    if i + 8 > b.len() {
        None
    } else if stamp_at(b, i) {
        Some(i)
    } else {
        first_stamp_from(b, i + 1)
    }
}

/// How many ASCII digits follow one another from position `i` on.
pub open spec fn digit_run(b: Seq<u8>, i: int) -> nat
    decreases b.len() - i,
{
    if 0 <= i < b.len() && is_digit_byte(b[i]) {
        1 + digit_run(b, i + 1)
    } else {
        0
    }
}

/// The time read after a stamp that ends at `after`: a `_`, `-` or `T`
/// followed by at least one digit gives those digits, anything else gives
/// [`zero_time`].
pub open spec fn filename_time(b: Seq<u8>, after: int) -> Seq<char> {
    if after < b.len() && (b[after] == 95u8 || b[after] == 45u8 || b[after] == 84u8) {
        let n = digit_run(b, after + 1);
        if n > 0 {
            ascii_text(b.subrange(after + 1, after + 1 + n))
        } else {
            zero_time()
        }
    } else {
        zero_time()
    }
}

/// The date that [`from_filename`] reads from a stem: the first eight
/// digits in a row that form an accepted date, with the time after them.
pub open spec fn from_filename_spec(stem: Seq<char>) -> Option<DateView> {
    let b = encode_utf8(stem);
    match first_stamp_from(b, 0) {
        None => None,
        Some(i) => Some(
            DateView {
                year: ascii_text(b.subrange(i, i + 4)),
                month: ascii_text(b.subrange(i + 4, i + 6)),
                day: ascii_text(b.subrange(i + 6, i + 8)),
                time: filename_time(b, i + 8),
            },
        ),
    }
}

/// A string of the characters whose ASCII codes are `b[lo..hi]`.
fn ascii_string(b: &[u8], lo: usize, hi: usize) -> (r: String)
    requires
        lo <= hi <= b@.len(),
    ensures
        r@ == ascii_text(b@.subrange(lo as int, hi as int)),
{
    let mut r = String::new();
    let mut k = lo;
    while k < hi
        invariant
            lo <= k <= hi <= b@.len(),
            r@ == ascii_text(b@.subrange(lo as int, k as int)),
        decreases hi - k,
    {
        string_push(&mut r, b[k] as char);
        k += 1;
        assert(r@ =~= ascii_text(b@.subrange(lo as int, k as int)));
    }
    r
}

/// The string `000000`.
fn zero_time_string() -> (r: String)
    ensures
        r@ == zero_time(),
{
    let mut r = String::new();
    let mut k: usize = 0;
    while k < 6
        invariant
            k <= 6,
            r@ == Seq::new(k as nat, |j: int| '0'),
        decreases 6 - k,
    {
        string_push(&mut r, '0');
        k += 1;
        assert(r@ =~= Seq::new(k as nat, |j: int| '0'));
    }
    assert(r@ =~= zero_time());
    r
}

/// Whether `b[lo..hi]` are all ASCII digits.
fn all_digits_in(b: &[u8], lo: usize, hi: usize) -> (r: bool)
    requires
        lo <= hi <= b@.len(),
    ensures
        r == digits_at(b@, lo as int, hi - lo),
{
    let mut k = lo;
    while k < hi
        invariant
            lo <= k <= hi <= b@.len(),
            forall|j: int| lo <= j < k ==> is_digit_byte(#[trigger] b@[j]),
        decreases hi - k,
    {
        if b[k] < 48 || b[k] > 57 {
            return false;
        }
        k += 1;
    }
    true
}

/// The value of the digits `b[lo..lo+n]`, for a short run of digits.
fn digits_number(b: &[u8], lo: usize, n: usize) -> (r: u32)
    requires
        1 <= n <= 4,
        digits_at(b@, lo as int, n as int),
    ensures
        r as int == number_at(b@, lo as int, n as int),
{
    let ghost x = b@.subrange(lo as int, lo + n);
    proof {
        assert(all_digit_bytes(x)) by {
            assert forall|k: int| 0 <= k < x.len() implies is_digit_byte(#[trigger] x[k]) by {
                assert(x[k] == b@[lo + k]);
            }
        }
        lemma_parse_digits(x);
    }
    let l = b.len();
    assert(lo + n <= l);
    match parse_u32_bytes(b, lo, lo + n) {
        Some(v) => v,
        None => 0,
    }
}

/// Counts the ASCII digits that follow one another from `b[start]` on.
fn count_digit_run(b: &[u8], start: usize) -> (r: usize)
    requires
        start <= b@.len(),
    ensures
        r == digit_run(b@, start as int),
        start + r <= b@.len(),
{
    let mut j = start;
    while j < b.len() && b[j] >= 48 && b[j] <= 57
        invariant
            start <= j <= b@.len(),
            digit_run(b@, start as int) == (j - start) + digit_run(b@, j as int),
        decreases b@.len() - j,
    {
        j += 1;
    }
    (j - start) as usize
}

/// Parse from a filename stem, looking for `YYYYMMDD` followed optionally by
/// `_NNNNN+`. Example: `"PXL_20240209_174735042"` gives year 2024, month 02,
/// day 09, time 174735042.
pub fn from_filename(stem: &str) -> (r: Option<MediaDate>)
    ensures
        date_view(r) == from_filename_spec(stem@),
{
    let b = stem.as_bytes();
    let len = b.len();
    let mut i: usize = 0;
    while len >= 8 && i <= len - 8
        invariant
            b@ == encode_utf8(stem@),
            len == b@.len(),
            first_stamp_from(b@, 0) == first_stamp_from(b@, i as int),
        decreases len - i,
    {
        if all_digits_in(b, i, i + 8) {
            let y = digits_number(b, i, 4);
            let m = digits_number(b, i + 4, 2);
            let d = digits_number(b, i + 6, 2);
            if 1900 <= y && y <= 2100 && 1 <= m && m <= 12 && 1 <= d && d <= 31 {
                let after = i + 8;
                let time = if after < len && (b[after] == 95u8 || b[after] == 45u8 || b[after]
                    == 84u8) {
                    let ts = after + 1;
                    let n = count_digit_run(b, ts);
                    if n > 0 {
                        ascii_string(b, ts, ts + n)
                    } else {
                        zero_time_string()
                    }
                } else {
                    zero_time_string()
                };
                let r = MediaDate {
                    year: ascii_string(b, i, i + 4),
                    month: ascii_string(b, i + 4, i + 6),
                    day: ascii_string(b, i + 6, i + 8),
                    time,
                };
                return Some(r);
            }
        }
        i += 1;
    }
    None
}


/// The text that [`from_exif_str`] reads: the input without surrounding
/// white space, then without surrounding double quotes.
pub open spec fn exif_core(s: Seq<char>) -> Seq<char> {
    strip_both(strip_both(s, Strip::WhiteSpace), Strip::Char('"'))
}

/// Bytes `0..4`, `5..7` and `8..10` of `b` are ASCII digits that form an
/// accepted date.
pub open spec fn exif_fields_ok(b: Seq<u8>) -> bool {
    &&& digits_at(b, 0, 4)
    &&& digits_at(b, 5, 2)
    &&& digits_at(b, 8, 2)
    &&& date_in_range(number_at(b, 0, 4), number_at(b, 5, 2), number_at(b, 8, 2))
}

/// The time field `HH:MM:SS` at bytes `11..19` can be cut out of `b`: both
/// ends fall between characters.
pub open spec fn exif_time_cut_ok(b: Seq<u8>) -> bool {
    is_char_boundary(b, 11) && is_char_boundary(b, 19)
}

/// The date that [`from_exif_str`] reads from `YYYY:MM:DD HH:MM:SS`: the
/// digit fields at fixed byte positions, and the time with its colons taken
/// out, or [`zero_time`] when the text is shorter than nineteen bytes. Text
/// of another shape, or whose time field cannot be cut between characters,
/// holds no date.
pub open spec fn from_exif_spec(s: Seq<char>) -> Option<DateView> {
    let b = encode_utf8(exif_core(s));
    if b.len() < 10 || b[4] != 58u8 || b[7] != 58u8 || !exif_fields_ok(b) || (b.len() >= 19
        && !exif_time_cut_ok(b)) {
        None
    } else {
        Some(
            DateView {
                year: decode_utf8(b.subrange(0, 4)),
                month: decode_utf8(b.subrange(5, 7)),
                day: decode_utf8(b.subrange(8, 10)),
                time: if b.len() >= 19 {
                    remove_char(decode_utf8(b.subrange(11, 19)), ':')
                } else {
                    zero_time()
                },
            },
        )
    }
}

/// The text that [`from_exif_str`] reads, after trimming.
fn exif_core_string(s: &str) -> (r: String)
    ensures
        r@ == exif_core(s@),
{
    let t = strip_str(s, Strip::WhiteSpace);
    strip_str(t.as_str(), Strip::Char('"'))
}

/// Whether the three date fields of `b` are digits forming an accepted date.
fn exif_fields_ok_exec(b: &[u8]) -> (r: bool)
    requires
        b@.len() >= 10,
    ensures
        r == exif_fields_ok(b@),
{
    if !all_digits_in(b, 0, 4) || !all_digits_in(b, 5, 7) || !all_digits_in(b, 8, 10) {
        return false;
    }
    let y = digits_number(b, 0, 4);
    let m = digits_number(b, 5, 2);
    let d = digits_number(b, 8, 2);
    1900 <= y && y <= 2100 && 1 <= m && m <= 12 && 1 <= d && d <= 31
}

/// Parse from EXIF DateTimeOriginal: `"YYYY:MM:DD HH:MM:SS"`, with any
/// surrounding white space and double quotes ignored.
pub fn from_exif_str(s: &str) -> (r: Option<MediaDate>)
    ensures
        date_view(r) == from_exif_spec(s@),
{
    let t = exif_core_string(s);
    let ts = t.as_str();
    let b = ts.as_bytes();
    let n = b.len();
    if n < 10 {
        return None;
    }
    if b[4] != 58u8 || b[7] != 58u8 {
        return None;
    }
    if !exif_fields_ok_exec(b) {
        return None;
    }
    if n >= 19 && !(ts.is_char_boundary(11) && ts.is_char_boundary(19)) {
        return None;
    }
    proof {
        encode_utf8_valid_utf8(ts@);
        is_char_boundary_start_end_of_seq(b@);
        is_char_boundary_iff_not_is_continuation_byte(b@, 4);
        is_char_boundary_iff_not_is_continuation_byte(b@, 7);
        lemma_boundary_after_ascii(b@, 4);
        lemma_boundary_after_ascii(b@, 7);
        assert(is_digit_byte(b@[9]));
        lemma_boundary_after_ascii(b@, 9);
    }
    let year = byte_substr(ts, 0, 4);
    let month = byte_substr(ts, 5, 7);
    let day = byte_substr(ts, 8, 10);
    let time = if n >= 19 {
        let raw = byte_substr(ts, 11, 19);
        remove_char_str(raw.as_str(), ':')
    } else {
        zero_time_string()
    };
    Some(MediaDate { year, month, day, time })
}


/// The year, month and day of `d` are four, two and two ASCII digits that
/// form an accepted date.
pub open spec fn date_fields_ok(d: DateView) -> bool {
    let y = encode_utf8(d.year);
    let m = encode_utf8(d.month);
    let dd = encode_utf8(d.day);
    &&& y.len() == 4 && all_digit_bytes(y)
    &&& m.len() == 2 && all_digit_bytes(m)
    &&& dd.len() == 2 && all_digit_bytes(dd)
    &&& 1900 <= digits_value(y) <= 2100
    &&& 1 <= digits_value(m) <= 12
    &&& 1 <= digits_value(dd) <= 31
}

/// The search for a date stamp only stops at a stamp.
proof fn lemma_first_stamp(b: Seq<u8>, i: int)
    requires
        0 <= i,
    ensures
        first_stamp_from(b, i) matches Some(j) ==> stamp_at(b, j),
    decreases b.len() - i,
{
    if i + 8 <= b.len() && !stamp_at(b, i) {
        lemma_first_stamp(b, i + 1);
    }
}

/// Text made of ASCII bytes encodes back to those bytes.
proof fn lemma_encode_ascii_text(x: Seq<u8>)
    requires
        forall|k: int| 0 <= k < x.len() ==> #[trigger] x[k] < 0x80u8,
    ensures
        encode_utf8(ascii_text(x)) == x,
    decreases x.len(),
{
    if x.len() > 0 {
        let t = ascii_text(x);
        let rest = x.drop_first();
        assert(t.drop_first() =~= ascii_text(rest));
        lemma_encode_ascii_text(rest);
        let v: u8 = x[0];
        assert(v < 0x80u8);
        assert(((v as u32) & 0x7Fu32) as u8 == v) by (bit_vector)
            requires
                v < 0x80u8,
        ;
        assert(t[0] as u32 == v as u32);
        assert(encode_scalar(t[0] as u32) =~= seq![v]);
        assert(x =~= seq![v] + rest);
    }
}

/// Digits taken out of a stamp encode back to themselves.
proof fn lemma_stamp_field(b: Seq<u8>, i: int, lo: int, n: int)
    requires
        digits_at(b, i, 8),
        0 <= lo,
        1 <= n,
        lo + n <= 8,
    ensures
        encode_utf8(ascii_text(b.subrange(i + lo, i + lo + n))) == b.subrange(i + lo, i + lo + n),
        all_digit_bytes(b.subrange(i + lo, i + lo + n)),
{
    let x = b.subrange(i + lo, i + lo + n);
    assert(all_digit_bytes(x)) by {
        assert forall|k: int| 0 <= k < x.len() implies is_digit_byte(#[trigger] x[k]) by {
            assert(x[k] == b[i + lo + k]);
        }
    }
    assert forall|k: int| 0 <= k < x.len() implies #[trigger] x[k] < 0x80u8 by {
        assert(is_digit_byte(x[k]));
    }
    lemma_encode_ascii_text(x);
}

/// Digits at a place of `b` are all digits as a subrange.
proof fn lemma_digits_sub(b: Seq<u8>, i: int, n: int)
    requires
        0 <= n,
        digits_at(b, i, n),
    ensures
        all_digit_bytes(b.subrange(i, i + n)),
{
    let x = b.subrange(i, i + n);
    assert forall|k: int| 0 <= k < x.len() implies is_digit_byte(#[trigger] x[k]) by {
        assert(x[k] == b[i + k]);
    }
}

/// A field cut from EXIF text at character boundaries encodes back to its
/// bytes.
proof fn lemma_exif_field(b: Seq<u8>, lo: int, hi: int)
    requires
        valid_utf8(b),
        0 <= lo <= hi <= b.len(),
        is_char_boundary(b, lo),
        is_char_boundary(b, hi),
    ensures
        encode_utf8(decode_utf8(b.subrange(lo, hi))) == b.subrange(lo, hi),
{
    lemma_boundary_in_prefix(b, hi, lo);
    let p = b.subrange(0, hi);
    valid_utf8_split(p, lo);
    assert(p.subrange(lo, p.len() as int) =~= b.subrange(lo, hi));
    decode_utf8_encode_utf8(b.subrange(lo, hi));
}

/// The byte after an ASCII byte of UTF-8 text starts a character or ends
/// the text.
proof fn lemma_ascii_then_boundary(b: Seq<u8>, i: int)
    requires
        valid_utf8(b),
        0 <= i < b.len(),
        b[i] < 0x80u8,
    ensures
        is_char_boundary(b, i),
        is_char_boundary(b, i + 1),
{
    is_char_boundary_iff_not_is_continuation_byte(b, i);
    lemma_boundary_after_ascii(b, i);
}

/// Every date read, from a file name or from EXIF text, is an accepted date:
/// its year, month and day are four, two and two digits that give a year
/// from 1900 to 2100, a month from 1 to 12 and a day from 1 to 31.
pub proof fn law_dates_are_accepted(s: Seq<char>)
    ensures
        from_filename_spec(s) matches Some(d) ==> date_fields_ok(d),
        from_exif_spec(s) matches Some(d) ==> date_fields_ok(d),
{
    let b = encode_utf8(s);
    lemma_first_stamp(b, 0);
    if let Some(i) = first_stamp_from(b, 0) {
        lemma_stamp_field(b, i, 0, 4);
        lemma_stamp_field(b, i, 4, 2);
        lemma_stamp_field(b, i, 6, 2);
    }
    let e = encode_utf8(exif_core(s));
    if e.len() >= 10 && e[4] == 58u8 && e[7] == 58u8 && exif_fields_ok(e) {
        encode_utf8_valid_utf8(exif_core(s));
        is_char_boundary_start_end_of_seq(e);
        assert(is_digit_byte(e[9]));
        lemma_digits_sub(e, 0, 4);
        lemma_digits_sub(e, 5, 2);
        lemma_digits_sub(e, 8, 2);
        lemma_ascii_then_boundary(e, 4);
        lemma_ascii_then_boundary(e, 7);
        lemma_ascii_then_boundary(e, 9);
        lemma_exif_field(e, 0, 4);
        lemma_exif_field(e, 5, 7);
        lemma_exif_field(e, 8, 10);
    }
}

/// Every well-formed EXIF date is read: text (after trimming white space
/// and double quotes) with ASCII digits at bytes `0..4`, `5..7` and `8..10`,
/// `:` at bytes 4 and 7, a year from 1900 to 2100, a month from 1 to 12 and
/// a day from 1 to 31 gives a date with exactly those fields, and the time
/// `000000` when the text ends before a time field.
pub proof fn law_exif_dates_are_read(s: Seq<char>)
    requires
        encode_utf8(exif_core(s)).len() >= 10,
        encode_utf8(exif_core(s))[4] == 58u8,
        encode_utf8(exif_core(s))[7] == 58u8,
        forall|k: int|
            0 <= k < 10 && k != 4 && k != 7 ==> 48 <= #[trigger] encode_utf8(exif_core(s))[k]
                <= 57,
        1900 <= digits_value(encode_utf8(exif_core(s)).subrange(0, 4)) <= 2100,
        1 <= digits_value(encode_utf8(exif_core(s)).subrange(5, 7)) <= 12,
        1 <= digits_value(encode_utf8(exif_core(s)).subrange(8, 10)) <= 31,
        encode_utf8(exif_core(s)).len() >= 19 ==> is_char_boundary(encode_utf8(exif_core(s)), 11)
            && is_char_boundary(encode_utf8(exif_core(s)), 19),
    ensures
        from_exif_spec(s) matches Some(d) && encode_utf8(d.year) == encode_utf8(
            exif_core(s),
        ).subrange(0, 4) && encode_utf8(d.month) == encode_utf8(exif_core(s)).subrange(5, 7)
            && encode_utf8(d.day) == encode_utf8(exif_core(s)).subrange(8, 10) && (encode_utf8(
            exif_core(s),
        ).len() < 19 ==> d.time == seq!['0', '0', '0', '0', '0', '0']),
{
    let e = encode_utf8(exif_core(s));
    assert(digits_at(e, 0, 4) && digits_at(e, 5, 2) && digits_at(e, 8, 2));
    assert(exif_fields_ok(e));
    encode_utf8_valid_utf8(exif_core(s));
    is_char_boundary_start_end_of_seq(e);
    assert(e[9] < 0x80u8);
    lemma_ascii_then_boundary(e, 4);
    lemma_ascii_then_boundary(e, 7);
    lemma_ascii_then_boundary(e, 9);
    lemma_exif_field(e, 0, 4);
    lemma_exif_field(e, 5, 7);
    lemma_exif_field(e, 8, 10);
}

/// The character is one of the ASCII digits `0` to `9` (codes 48 to 57).
pub open spec fn is_digit_char(c: char) -> bool {
    48 <= c as u32 <= 57
}

/// The encoding of two texts one after the other is the two encodings.
proof fn lemma_encode_concat(a: Seq<char>, b: Seq<char>)
    ensures
        encode_utf8(a + b) == encode_utf8(a) + encode_utf8(b),
    decreases a.len(),
{
    if a.len() == 0 {
        assert(a + b =~= b);
        assert(encode_utf8(a) + encode_utf8(b) =~= encode_utf8(b));
    } else {
        assert((a + b).drop_first() =~= a.drop_first() + b);
        assert((a + b)[0] == a[0]);
        lemma_encode_concat(a.drop_first(), b);
        assert(encode_scalar(a[0] as u32) + (encode_utf8(a.drop_first()) + encode_utf8(b))
            =~= encode_scalar(a[0] as u32) + encode_utf8(a.drop_first()) + encode_utf8(b));
    }
}

/// Setting the high bit leaves no ASCII digit.
proof fn lemma_high_bytes(x: u8)
    by (bit_vector)
    ensures
        (0x80u8 | x) >= 0x80u8,
        (0xC0u8 | x) >= 0x80u8,
        (0xE0u8 | x) >= 0x80u8,
        (0xF0u8 | x) >= 0x80u8,
{
}

/// A character below 128 encodes as that one byte.
proof fn lemma_encode_ascii_char(c: char)
    requires
        (c as u32) < 0x80,
    ensures
        encode_scalar(c as u32) == seq![(c as u32) as u8],
{
    let v = c as u32;
    assert(((v & 0x7Fu32) as u8) == (v as u8)) by (bit_vector)
        requires
            v < 0x80u32,
    ;
    assert(encode_scalar(v) =~= seq![v as u8]);
}

/// Text without ASCII digits encodes to bytes without ASCII digits.
proof fn lemma_encode_no_digits(p: Seq<char>)
    requires
        forall|k: int| 0 <= k < p.len() ==> !is_digit_char(#[trigger] p[k]),
    ensures
        forall|j: int|
            0 <= j < encode_utf8(p).len() ==> !is_digit_byte(#[trigger] encode_utf8(p)[j]),
    decreases p.len(),
{
    if p.len() > 0 {
        let rest = p.drop_first();
        assert forall|k: int| 0 <= k < rest.len() implies !is_digit_char(#[trigger] rest[k]) by {
            assert(rest[k] == p[k + 1]);
        }
        lemma_encode_no_digits(rest);
        let c = p[0];
        let v = c as u32;
        char_is_scalar(c);
        assert(!is_digit_char(c));
        assert(v < 48 || v > 57);
        let head = encode_scalar(v);
        assert forall|j: int| 0 <= j < head.len() implies !is_digit_byte(#[trigger] head[j]) by {
            if has_width_1_encoding(v) {
                lemma_encode_ascii_char(c);
                assert(head[j] == v as u8);
            } else if has_width_2_encoding(v) {
                lemma_high_bytes(((v >> 6) & 0x1F) as u8);
                lemma_high_bytes((v & 0x3F) as u8);
            } else if has_width_3_encoding(v) {
                lemma_high_bytes(((v >> 12) & 0x0F) as u8);
                lemma_high_bytes(((v >> 6) & 0x3F) as u8);
                lemma_high_bytes((v & 0x3F) as u8);
            } else {
                lemma_high_bytes(((v >> 18) & 0x7) as u8);
                lemma_high_bytes(((v >> 12) & 0x3F) as u8);
                lemma_high_bytes(((v >> 6) & 0x3F) as u8);
                lemma_high_bytes((v & 0x3F) as u8);
            }
        }
        let e = encode_utf8(p);
        assert(e =~= head + encode_utf8(rest));
        assert forall|j: int| 0 <= j < e.len() implies !is_digit_byte(#[trigger] e[j]) by {
            if j < head.len() {
                assert(e[j] == head[j]);
            } else {
                assert(e[j] == encode_utf8(rest)[j - head.len()]);
            }
        }
    }
}

/// ASCII digits encode one byte each, their own codes.
proof fn lemma_encode_digits(s: Seq<char>)
    requires
        forall|k: int| 0 <= k < s.len() ==> is_digit_char(#[trigger] s[k]),
    ensures
        encode_utf8(s).len() == s.len(),
        forall|k: int| 0 <= k < s.len() ==> #[trigger] encode_utf8(s)[k] as u32 == s[k] as u32,
    decreases s.len(),
{
    if s.len() > 0 {
        let rest = s.drop_first();
        assert forall|k: int| 0 <= k < rest.len() implies is_digit_char(#[trigger] rest[k]) by {
            assert(rest[k] == s[k + 1]);
        }
        lemma_encode_digits(rest);
        assert(is_digit_char(s[0]));
        lemma_encode_ascii_char(s[0]);
        let e = encode_utf8(s);
        assert(e =~= seq![(s[0] as u32) as u8] + encode_utf8(rest));
        assert forall|k: int| 0 <= k < s.len() implies #[trigger] e[k] as u32 == s[k] as u32 by {
            if k > 0 {
                assert(e[k] == encode_utf8(rest)[k - 1]);
                assert(s[k] == rest[k - 1]);
            }
        }
    }
}

/// The search for a stamp from `i` finds the first stamp at or after `i`.
proof fn lemma_first_stamp_at(b: Seq<u8>, i: int, m: int)
    requires
        0 <= i <= m,
        stamp_at(b, m),
        forall|j: int| i <= j < m ==> !stamp_at(b, j),
    ensures
        first_stamp_from(b, i) == Some(m),
    decreases m - i,
{
    if i < m {
        lemma_first_stamp_at(b, i + 1, m);
    }
}

/// A date written as eight digits `YYYYMMDD` in a file name, after text
/// without digits, is read: a year from 1900 to 2100, a month from 1 to 12
/// and a day from 1 to 31 give a date with exactly those digits, whatever
/// follows.
pub proof fn law_filename_dates_are_read(p: Seq<char>, ymd: Seq<char>, r: Seq<char>)
    requires
        forall|k: int| 0 <= k < p.len() ==> !is_digit_char(#[trigger] p[k]),
        ymd.len() == 8,
        forall|k: int| 0 <= k < 8 ==> is_digit_char(#[trigger] ymd[k]),
        1900 <= digits_value(encode_utf8(ymd).subrange(0, 4)) <= 2100,
        1 <= digits_value(encode_utf8(ymd).subrange(4, 6)) <= 12,
        1 <= digits_value(encode_utf8(ymd).subrange(6, 8)) <= 31,
    ensures
        from_filename_spec(p + ymd + r) matches Some(d) && d.year == ymd.subrange(0, 4) && d.month
            == ymd.subrange(4, 6) && d.day == ymd.subrange(6, 8),
{
    let ep = encode_utf8(p);
    let ey = encode_utf8(ymd);
    let er = encode_utf8(r);
    lemma_encode_concat(p, ymd);
    lemma_encode_concat(p + ymd, r);
    let b = encode_utf8(p + ymd + r);
    assert(b =~= ep + ey + er);
    lemma_encode_no_digits(p);
    lemma_encode_digits(ymd);
    let m = ep.len() as int;
    assert forall|k: int| m <= k < m + 8 implies is_digit_byte(#[trigger] b[k]) by {
        assert(b[k] == ey[k - m]);
        assert(ey[k - m] as u32 == ymd[k - m] as u32);
        assert(is_digit_char(ymd[k - m]));
    }
    assert(b.subrange(m, m + 4) =~= ey.subrange(0, 4));
    assert(b.subrange(m + 4, m + 6) =~= ey.subrange(4, 6));
    assert(b.subrange(m + 6, m + 8) =~= ey.subrange(6, 8));
    assert(stamp_at(b, m));
    assert forall|j: int| 0 <= j < m implies !stamp_at(b, j) by {
        assert(b[j] == ep[j]);
        assert(!is_digit_byte(ep[j]));
    }
    lemma_first_stamp_at(b, 0, m);
    assert forall|k: int| 0 <= k < 8 implies (#[trigger] b[m + k] as char) == ymd[k] by {
        assert(b[m + k] == ey[k]);
        assert(ey[k] as u32 == ymd[k] as u32);
        char_u32_cast(ymd[k], ymd[k] as u32);
    }
    assert(ascii_text(b.subrange(m, m + 4)) =~= ymd.subrange(0, 4)) by {
        assert forall|k: int| 0 <= k < 4 implies #[trigger] ascii_text(b.subrange(m, m + 4))[k]
            == ymd[k] by {
            assert(b.subrange(m, m + 4)[k] == b[m + k]);
        }
    }
    assert(ascii_text(b.subrange(m + 4, m + 6)) =~= ymd.subrange(4, 6)) by {
        assert forall|k: int| 0 <= k < 2 implies #[trigger] ascii_text(b.subrange(m + 4, m + 6))[k]
            == ymd[k + 4] by {
            assert(b.subrange(m + 4, m + 6)[k] == b[m + (k + 4)]);
        }
    }
    assert(ascii_text(b.subrange(m + 6, m + 8)) =~= ymd.subrange(6, 8)) by {
        assert forall|k: int| 0 <= k < 2 implies #[trigger] ascii_text(b.subrange(m + 6, m + 8))[k]
            == ymd[k + 6] by {
            assert(b.subrange(m + 6, m + 8)[k] == b[m + (k + 6)]);
        }
    }
}

} // verus!
