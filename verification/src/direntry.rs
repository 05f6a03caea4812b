//! FAT16 directory entries: 8.3 short filenames, attributes, clusters and DOS
//! timestamps, parsed from 32-byte on-disk records.

use vstd::prelude::*;

use crate::{FilenameError, FsError};
use crate::bytes::{spec_u16_le, spec_u32_le, u16_le, u32_le};
use crate::strutil::{ascii_string, bytes_at, spec_ascii_chars};
use vstd::string::StringSliceAdditionalSpecFns;

verus! {

/// Magic cluster number of the root directory, which has no real cluster in
/// FAT16.
pub const CLUSTER_ROOT_DIR: u32 = 0xFFFF_FFFC;

/// Magic cluster number marking a bad cluster.
pub const CLUSTER_BAD: u32 = 0xFFFF_FFF7;

/// Magic cluster number of an empty entry.
pub const CLUSTER_EMPTY: u32 = 0x0000_0000;

/// Magic cluster number marking the final cluster of a file.
pub const CLUSTER_END_OF_FILE: u32 = 0xFFFF_FFFF;

/// Magic cluster number marking an invalid cluster value.
pub const CLUSTER_INVALID: u32 = 0xFFFF_FFF6;

/// A FAT allocation unit number.
#[derive(Debug, Clone, Copy, PartialEq, Eq, Structural)]
pub struct Cluster(pub u32);

/// The attribute bits of a directory entry.
pub const ATTR_READ_ONLY: u8 = 0x01;

pub const ATTR_HIDDEN: u8 = 0x02;

pub const ATTR_SYSTEM: u8 = 0x04;

pub const ATTR_VOLUME_ID: u8 = 0x08;

pub const ATTR_DIRECTORY: u8 = 0x10;

pub const ATTR_ARCHIVE: u8 = 0x20;

/// A long-filename marker entry carries all four low bits at once.
pub const ATTR_LFN: u8 = 0x0F;

/// File attribute flags, one bit per attribute.
#[derive(Debug, Clone, Copy, PartialEq, Eq, Structural, Hash)]
pub struct Attributes {
    bits: u8,
}

impl Attributes {
    pub closed spec fn spec_bits(&self) -> u8 {
        self.bits
    }

    /// Keeps the defined attribute bits of `bits` and drops the rest.
    pub fn from_bits_truncate(bits: u8) -> (r: Attributes)
        ensures
            r.spec_bits() == bits & 0x3F,
    {
        Attributes { bits: bits & 0x3F }
    }

    /// The raw attribute bits.
    pub fn bits(&self) -> (r: u8)
        ensures
            r == self.spec_bits(),
    {
        self.bits
    }

    /// Whether every bit of `mask` is set.
    pub fn contains(&self, mask: u8) -> (r: bool)
        ensures
            r == (self.spec_bits() & mask == mask),
    {
        self.bits & mask == mask
    }
}

/// A calendar timestamp, with second precision, as stored on a FAT volume.
#[derive(Debug, Clone, Copy, PartialEq, Eq, Structural)]
pub struct FsTime {
    pub year: u16,
    pub month: u8,
    pub day: u8,
    pub hour: u8,
    pub min: u8,
    pub sec: u8,
}

impl FsTime {
    /// The epoch timestamp substituted for invalid on-disk fields.
    pub fn epoch() -> (r: FsTime)
        ensures
            r == spec_epoch(),
    {
        FsTime { year: 1970, month: 1, day: 1, hour: 0, min: 0, sec: 0 }
    }

    pub fn new(year: u16, month: u8, day: u8, hour: u8, min: u8, sec: u8) -> (r: FsTime)
        ensures
            r == (FsTime { year, month, day, hour, min, sec }),
    {
        FsTime { year, month, day, hour, min, sec }
    }
}

pub open spec fn spec_epoch() -> FsTime {
    FsTime { year: 1970, month: 1, day: 1, hour: 0, min: 0, sec: 0 }
}

/// Whether `year` is a leap year in the Gregorian calendar.
pub open spec fn spec_is_leap_year(year: int) -> bool {
    (year % 4 == 0 && year % 100 != 0) || year % 400 == 0
}

/// The number of days of `month` in `year`.
pub open spec fn spec_days_in_month(year: int, month: int) -> int {
    if month == 2 {
        if spec_is_leap_year(year) {
            29
        } else {
            28
        }
    } else if month == 4 || month == 6 || month == 9 || month == 11 {
        30
    } else {
        31
    }
}

/// Whether the clock fields form a real calendar date and time of day.
pub open spec fn spec_valid_datetime(
    year: int,
    month: int,
    day: int,
    hour: int,
    min: int,
    sec: int,
) -> bool {
    &&& 1 <= month <= 12
    &&& 1 <= day <= spec_days_in_month(year, month)
    &&& 0 <= hour <= 23
    &&& 0 <= min <= 59
    &&& 0 <= sec <= 59
}

/// The timestamp denoted by a DOS date and time pair: invalid fields yield
/// the epoch.
pub open spec fn spec_parse_datetime(date: u16, time: u16) -> FsTime {
    let year = (1980 + ((date >> 9) & 0x7F)) as u16;
    let month = ((date >> 5) & 0x0F) as u8;
    let day = (date & 0x1F) as u8;
    let hour = ((time >> 11) & 0x1F) as u8;
    let min = ((time >> 5) & 0x3F) as u8;
    let sec = ((time & 0x1F) * 2) as u8;
    if spec_valid_datetime(
        year as int,
        month as int,
        day as int,
        hour as int,
        min as int,
        sec as int,
    ) {
        FsTime { year, month, day, hour, min, sec }
    } else {
        spec_epoch()
    }
}

/// Checks whether the clock fields form a real calendar date and time of day.
fn valid_datetime(year: u16, month: u8, day: u8, hour: u8, min: u8, sec: u8) -> (r: bool)
    ensures
        r == spec_valid_datetime(
            year as int,
            month as int,
            day as int,
            hour as int,
            min as int,
            sec as int,
        ),
{
    let leap: bool = (year % 4 == 0 && year % 100 != 0) || year % 400 == 0;
    let dim: u8 = if month == 2 {
        if leap {
            29
        } else {
            28
        }
    } else if month == 4 || month == 6 || month == 9 || month == 11 {
        30
    } else {
        31
    };
    1 <= month && month <= 12 && 1 <= day && day <= dim && hour <= 23 && min <= 59 && sec <= 59
}

/// Decodes a DOS date (`(year-1980) << 9 | month << 5 | day`) and time
/// (`hour << 11 | minute << 5 | second/2`) pair; invalid fields yield the
/// epoch.
pub fn parse_datetime(date: u16, time: u16) -> (r: FsTime)
    ensures
        r == spec_parse_datetime(date, time),
{
    assert(((date >> 9) & 0x7F) <= 0x7F && ((date >> 5) & 0x0F) <= 0x0F && (date & 0x1F) <= 0x1F)
        by (bit_vector);
    assert(((time >> 11) & 0x1F) <= 0x1F && ((time >> 5) & 0x3F) <= 0x3F && (time & 0x1F) <= 0x1F)
        by (bit_vector);
    let year: u16 = 1980 + ((date >> 9) & 0x7F);
    let month = ((date >> 5) & 0x0F) as u8;
    let day = (date & 0x1F) as u8;
    let hour = ((time >> 11) & 0x1F) as u8;
    let min = ((time >> 5) & 0x3F) as u8;
    let sec = ((time & 0x1F) * 2) as u8;
    if valid_datetime(year, month, day, hour, min, sec) {
        FsTime { year, month, day, hour, min, sec }
    } else {
        FsTime::epoch()
    }
}

/// The ASCII uppercase image of one byte.
pub open spec fn spec_upper_byte(b: u8) -> u8 {
    if 0x61 <= b <= 0x7A {
        (b - 0x20) as u8
    } else {
        b
    }
}

/// The ASCII uppercase image of a byte sequence.
pub open spec fn spec_upper(s: Seq<u8>) -> Seq<u8> {
    Seq::new(s.len(), |i: int| spec_upper_byte(s[i]))
}

/// Whether a byte may not appear in an 8.3 filename: controls, space, and
/// the punctuation the on-disk format reserves.
pub open spec fn spec_is_invalid_byte(b: u8) -> bool {
    ||| b <= 0x20
    ||| b == 0x22
    ||| b == 0x2A
    ||| b == 0x2B
    ||| b == 0x2C
    ||| b == 0x2F
    ||| b == 0x3A
    ||| b == 0x3B
    ||| b == 0x3C
    ||| b == 0x3D
    ||| b == 0x3E
    ||| b == 0x3F
    ||| b == 0x5B
    ||| b == 0x5C
    ||| b == 0x5D
    ||| b == 0x7C
}

pub open spec fn spec_has_invalid_byte(s: Seq<u8>) -> bool {
    exists|i: int| 0 <= i < s.len() && spec_is_invalid_byte(s[i])
}

/// The index of the first period in `s`, or `s.len()` when there is none.
pub open spec fn spec_first_dot(s: Seq<u8>) -> int
    decreases s.len(),
{
    if s.len() == 0 {
        0
    } else if s[0] == 0x2E {
        0
    } else {
        1 + spec_first_dot(s.subrange(1, s.len() as int))
    }
}

/// The first-period index is within bounds, no period precedes it, and it
/// points at a period whenever one exists.
pub proof fn lemma_first_dot_props(s: Seq<u8>)
    ensures
        0 <= spec_first_dot(s) <= s.len(),
        forall|j: int| 0 <= j < spec_first_dot(s) ==> s[j] != 0x2E,
        spec_first_dot(s) < s.len() ==> s[spec_first_dot(s)] == 0x2E,
    decreases s.len(),
{
    if s.len() == 0 {
    } else if s[0] == 0x2E {
    } else {
        let t = s.subrange(1, s.len() as int);
        lemma_first_dot_props(t);
        assert forall|j: int| 0 <= j < spec_first_dot(s) implies s[j] != 0x2E by {
            if j > 0 {
                assert(t[j - 1] == s[j]);
            }
        }
        if spec_first_dot(s) < s.len() {
            assert(s[spec_first_dot(s)] == t[spec_first_dot(t)]);
        }
    }
}

/// A scan that finds no period before `d`, and a period at `d` unless `d` is
/// the length, has found the first-period index.
pub proof fn lemma_first_dot_char(s: Seq<u8>, d: int)
    requires
        0 <= d <= s.len(),
        forall|j: int| 0 <= j < d ==> s[j] != 0x2E,
        d < s.len() ==> s[d] == 0x2E,
    ensures
        spec_first_dot(s) == d,
    decreases s.len(),
{
    if s.len() == 0 {
    } else if s[0] == 0x2E {
        assert(d == 0);
    } else {
        let t = s.subrange(1, s.len() as int);
        assert(d >= 1);
        assert(forall|j: int| 0 <= j < d - 1 ==> t[j] == s[j + 1] && s[j + 1] != 0x2E);
        lemma_first_dot_char(t, d - 1);
    }
}

/// `s` padded with ASCII spaces on the right to length `n`.
pub open spec fn spec_pad_spaces(s: Seq<u8>, n: int) -> Seq<u8>
    recommends
        s.len() <= n,
{
    Seq::new(n as nat, |i: int| if i < s.len() { s[i] } else { 0x20u8 })
}

/// `s` with its trailing ASCII spaces removed.
pub open spec fn spec_trim_spaces(s: Seq<u8>) -> Seq<u8>
    decreases s.len(),
{
    if s.len() > 0 && s[s.len() - 1] == 0x20 {
        spec_trim_spaces(s.drop_last())
    } else {
        s
    }
}

/// Trimming undoes padding whenever the padded sequence does not itself end
/// with a space.
pub proof fn lemma_trim_spaces_pad(s: Seq<u8>, n: int)
    requires
        s.len() <= n,
        s.len() == 0 || s[s.len() - 1] != 0x20,
    ensures
        spec_trim_spaces(spec_pad_spaces(s, n)) == s,
    decreases n - s.len(),
{
    let p = spec_pad_spaces(s, n);
    if n == s.len() {
        assert(p =~= s);
    } else {
        assert(p[n - 1] == 0x20);
        assert(p.drop_last() =~= spec_pad_spaces(s, n - 1));
        lemma_trim_spaces_pad(s, n - 1);
    }
}

/// The text form of a stored 8.3 name: the name part with its padding
/// removed, then, when the extension is present, a period and the trimmed
/// extension.
pub open spec fn spec_format_sfn(name: Seq<u8>, ext: Seq<u8>) -> Seq<u8> {
    if ext.len() == 0 || ext[0] == 0x20 {
        spec_trim_spaces(name)
    } else {
        spec_trim_spaces(name) + seq![0x2Eu8] + spec_trim_spaces(ext)
    }
}

/// What parsing a filename into its stored 8.3 form yields: the uppercased
/// name and extension parts padded with spaces, or the error that the input
/// earns. Errors are checked in this order: empty input, an invalid byte, a
/// period after position 8, a name or extension part that is too long.
pub open spec fn spec_parse_sfn(b: Seq<u8>) -> Result<(Seq<u8>, Seq<u8>), FsError> {
    let d = spec_first_dot(b);
    if b.len() == 0 {
        Err(FsError::FilenameError(FilenameError::Empty))
    } else if spec_has_invalid_byte(b) {
        Err(FsError::FilenameError(FilenameError::InvalidCharacter))
    } else if d < b.len() {
        if d > 8 {
            Err(FsError::FilenameError(FilenameError::MisplacedPeriod))
        } else if b.len() - d - 1 > 3 {
            Err(FsError::FilenameError(FilenameError::TooLong))
        } else {
            Ok(
                (
                    spec_pad_spaces(spec_upper(b.subrange(0, d)), 8),
                    spec_pad_spaces(spec_upper(b.subrange(d + 1, b.len() as int)), 3),
                ),
            )
        }
    } else {
        if b.len() > 8 {
            Err(FsError::FilenameError(FilenameError::TooLong))
        } else {
            Ok((spec_pad_spaces(spec_upper(b), 8), spec_pad_spaces(Seq::<u8>::empty(), 3)))
        }
    }
}

/// 8.3 round trip: for every input the parser accepts, except one whose
/// period has nothing after it, formatting the parsed name reproduces the
/// uppercased input.
pub proof fn lemma_sfn_round_trip(b: Seq<u8>)
    requires
        spec_parse_sfn(b) is Ok,
        spec_first_dot(b) + 1 != b.len(),
    ensures
        spec_format_sfn(spec_parse_sfn(b)->Ok_0.0, spec_parse_sfn(b)->Ok_0.1) == spec_upper(b),
{
    lemma_first_dot_props(b);
    let d = spec_first_dot(b);
    assert(!spec_has_invalid_byte(b));
    assert(forall|i: int| 0 <= i < b.len() ==> !spec_is_invalid_byte(b[i]));
    assert(forall|i: int| 0 <= i < b.len() ==> b[i] > 0x20 && spec_upper_byte(b[i]) != 0x20);
    if d < b.len() {
        let base = spec_upper(b.subrange(0, d));
        let ext = spec_upper(b.subrange(d + 1, b.len() as int));
        assert(ext.len() == b.len() - d - 1);
        assert(base.len() == 0 || base[base.len() - 1] != 0x20);
        assert(ext.len() > 0 && ext[0] != 0x20);
        lemma_trim_spaces_pad(base, 8);
        lemma_trim_spaces_pad(ext, 3);
        let name_p = spec_pad_spaces(base, 8);
        let ext_p = spec_pad_spaces(ext, 3);
        assert(ext_p[0] == ext[0]);
        assert(spec_format_sfn(name_p, ext_p) == base + seq![0x2Eu8] + ext);
        assert(base + seq![0x2Eu8] + ext =~= spec_upper(b));
    } else {
        let base = spec_upper(b);
        assert(base.len() == 0 || base[base.len() - 1] != 0x20);
        lemma_trim_spaces_pad(base, 8);
        let ext_p = spec_pad_spaces(Seq::<u8>::empty(), 3);
        assert(ext_p[0] == 0x20);
        assert(spec_format_sfn(spec_pad_spaces(base, 8), ext_p) == base);
    }
}

/// An 8.3 short filename as stored on disk: eight name bytes and three
/// extension bytes, space padded.
#[derive(Debug, Clone, PartialEq, Eq)]
pub struct ShortFileName {
    pub name: Vec<u8>,
    pub ext: Vec<u8>,
}

impl ShortFileName {
    /// A stored name always holds exactly eight name bytes and three
    /// extension bytes.
    pub open spec fn wf(&self) -> bool {
        self.name@.len() == 8 && self.ext@.len() == 3
    }

    /// Takes the eleven name bytes of a directory record apart.
    pub fn new(buf: &[u8]) -> (r: ShortFileName)
        requires
            buf@.len() >= 11,
        ensures
            r.name@ == buf@.subrange(0, 8),
            r.ext@ == buf@.subrange(8, 11),
            r.wf(),
    {
        ShortFileName { name: bytes_at(buf, 0, 8), ext: bytes_at(buf, 8, 3) }
    }

    /// The raw name part as text, padding included.
    pub fn basename(&self) -> (r: String)
        ensures
            r@ == spec_ascii_chars(self.name@),
    {
        ascii_string(&self.name)
    }

    /// The raw extension part as text, padding included.
    pub fn extension(&self) -> (r: String)
        ensures
            r@ == spec_ascii_chars(self.ext@),
    {
        ascii_string(&self.ext)
    }

    /// Whether this entry marks the end of a directory.
    pub fn is_eod(&self) -> (r: bool)
        requires
            self.wf(),
        ensures
            r == (self.name@[0] == 0x00 && self.ext@[0] == 0x00),
    {
        self.name[0] == 0x00 && self.ext[0] == 0x00
    }

    /// Whether this entry was deleted and its slot left unused.
    pub fn is_unused(&self) -> (r: bool)
        requires
            self.wf(),
        ensures
            r == (self.name@[0] == 0xE5),
    {
        self.name[0] == 0xE5
    }

    /// Whether the two stored names are byte-for-byte equal.
    pub fn matches(&self, sfn: &ShortFileName) -> (r: bool)
        ensures
            r == (self.name@ =~= sfn.name@ && self.ext@ =~= sfn.ext@),
    {
        let n = self.name == sfn.name;
        let e = self.ext == sfn.ext;
        n && e
    }

    /// The text form of this name: padding trimmed, a period before any
    /// extension.
    pub fn format_text(&self) -> (r: String)
        requires
            self.wf(),
        ensures
            r@ == spec_ascii_chars(spec_format_sfn(self.name@, self.ext@)),
    {
        let trimmed_name = trim_spaces(&self.name);
        let trimmed_ext = trim_spaces(&self.ext);
        if self.ext[0] == 0x20 {
            ascii_string(&trimmed_name)
        } else {
            let mut out = trimmed_name;
            out.push(0x2E);
            let mut i: usize = 0;
            while i < trimmed_ext.len()
                invariant
                    i <= trimmed_ext@.len(),
                    out@ == spec_trim_spaces(self.name@) + seq![0x2Eu8] + trimmed_ext@.subrange(
                        0,
                        i as int,
                    ),
                    trimmed_ext@ == spec_trim_spaces(self.ext@),
                decreases trimmed_ext@.len() - i,
            {
                out.push(trimmed_ext[i]);
                assert(out@ =~= spec_trim_spaces(self.name@) + seq![0x2Eu8]
                    + trimmed_ext@.subrange(0, i + 1));
                i = i + 1;
            }
            assert(trimmed_ext@.subrange(0, trimmed_ext@.len() as int) == trimmed_ext@);
            ascii_string(&out)
        }
    }

    /// Parses a filename given as text into its stored 8.3 form: uppercased,
    /// split at the first period, space padded; inputs that are empty, hold
    /// an invalid byte, place the period after position 8, or overflow a
    /// part are rejected with the matching error.
    pub fn parse(name: &str) -> (r: Result<ShortFileName, FsError>)
        ensures
            match r {
                Ok(sfn) => sfn.wf() && spec_parse_sfn(name.spec_bytes()) == Ok::<
                    (Seq<u8>, Seq<u8>),
                    FsError,
                >((sfn.name@, sfn.ext@)),
                Err(e) => spec_parse_sfn(name.spec_bytes()) == Err::<(Seq<u8>, Seq<u8>), FsError>(
                    e,
                ),
            },
    {
        ShortFileName::parse_bytes(name.as_bytes())
    }

    /// `parse`, on the filename's bytes.
    pub fn parse_bytes(b: &[u8]) -> (r: Result<ShortFileName, FsError>)
        ensures
            match r {
                Ok(sfn) => sfn.wf() && spec_parse_sfn(b@) == Ok::<(Seq<u8>, Seq<u8>), FsError>(
                    (sfn.name@, sfn.ext@),
                ),
                Err(e) => spec_parse_sfn(b@) == Err::<(Seq<u8>, Seq<u8>), FsError>(e),
            },
    {
        let n = b.len();
        if n == 0 {
            return Err(FsError::FilenameError(FilenameError::Empty));
        }
        if has_invalid_byte(b) {
            return Err(FsError::FilenameError(FilenameError::InvalidCharacter));
        }
        let d = find_first_dot(b);
        if d < n {
            if d > 8 {
                return Err(FsError::FilenameError(FilenameError::MisplacedPeriod));
            }
            if n - d - 1 > 3 {
                return Err(FsError::FilenameError(FilenameError::TooLong));
            }
            let base = upper_range(b, 0, d);
            let ext = upper_range(b, d + 1, n);
            let name_arr = pad_to(base, 8);
            let ext_arr = pad_to(ext, 3);
            Ok(ShortFileName { name: name_arr, ext: ext_arr })
        } else {
            if n > 8 {
                return Err(FsError::FilenameError(FilenameError::TooLong));
            }
            let base = upper_range(b, 0, n);
            let name_arr = pad_to(base, 8);
            let ext_arr = pad_to(Vec::new(), 3);
            assert(b@.subrange(0, n as int) == b@);
            Ok(ShortFileName { name: name_arr, ext: ext_arr })
        }
    }
}

/// The size of an on-disk directory record in bytes.
pub const DIR_ENTRY_LEN: usize = 0x20;

/// The kind of object a directory entry names.
#[derive(Debug, Clone, Copy, PartialEq, Eq, Structural)]
pub enum FileType {
    File,
    Directory,
}

/// A parsed directory entry.
#[derive(Debug, Clone, PartialEq, Eq)]
pub struct DirEntry {
    pub filename: ShortFileName,
    pub modified_time: FsTime,
    pub created_time: FsTime,
    pub accessed_time: FsTime,
    pub cluster: Cluster,
    pub attributes: Attributes,
    pub size: u32,
}

/// What a directory's entry metadata looks like to callers.
#[derive(Debug, Clone)]
pub struct Metadata {
    pub entry_type: FileType,
    pub name: String,
    pub len: usize,
    pub created: Option<FsTime>,
    pub accessed: Option<FsTime>,
    pub modified: Option<FsTime>,
}

impl DirEntry {
    pub open spec fn wf(&self) -> bool {
        self.filename.wf()
    }

    /// Whether this slot names an object at all: neither unused nor the
    /// end-of-directory marker.
    pub fn is_valid(&self) -> (r: bool)
        requires
            self.wf(),
        ensures
            r == (self.filename.name@[0] != 0xE5 && !(self.filename.name@[0] == 0x00
                && self.filename.ext@[0] == 0x00)),
    {
        !self.filename.is_unused() && !self.filename.is_eod()
    }

    /// Whether the directory attribute bit is set.
    pub fn is_directory(&self) -> (r: bool)
        ensures
            r == (self.attributes.spec_bits() & ATTR_DIRECTORY == ATTR_DIRECTORY),
    {
        self.attributes.contains(ATTR_DIRECTORY)
    }

    /// Whether the entry names a plain file: neither a directory nor the
    /// volume label.
    pub fn is_file(&self) -> (r: bool)
        ensures
            r == (self.attributes.spec_bits() & ATTR_DIRECTORY != ATTR_DIRECTORY
                && self.attributes.spec_bits() & ATTR_VOLUME_ID != ATTR_VOLUME_ID),
    {
        !self.is_directory() && !self.attributes.contains(ATTR_VOLUME_ID)
    }

    /// Whether this slot is part of a long-filename run.
    pub fn is_long_name(&self) -> (r: bool)
        ensures
            r == (self.attributes.spec_bits() & ATTR_LFN == ATTR_LFN),
    {
        self.attributes.contains(ATTR_LFN)
    }

    /// The entry's name as text; slots that name nothing readable come back
    /// as `unknown`.
    pub fn filename(&self) -> (r: String)
        requires
            self.wf(),
        ensures
            (self.filename.name@[0] != 0xE5 && !(self.filename.name@[0] == 0x00
                && self.filename.ext@[0] == 0x00) && self.attributes.spec_bits() & ATTR_LFN
                != ATTR_LFN) ==> r@ == spec_ascii_chars(
                spec_format_sfn(self.filename.name@, self.filename.ext@),
            ),
            !(self.filename.name@[0] != 0xE5 && !(self.filename.name@[0] == 0x00
                && self.filename.ext@[0] == 0x00) && self.attributes.spec_bits() & ATTR_LFN
                != ATTR_LFN) ==> r@ == "unknown"@,
    {
        if self.is_valid() && !self.is_long_name() {
            self.filename.format_text()
        } else {
            let s: &str = "unknown";
            s.to_owned()
        }
    }

    /// Parses one 32-byte directory record: the stored name, attribute bits,
    /// the three DOS timestamps, the first cluster assembled from its two
    /// halves, and the byte size.
    pub fn parse(data: &[u8]) -> (r: Result<DirEntry, FsError>)
        requires
            data@.len() >= 32,
        ensures
            match r {
                Ok(e) => {
                    &&& e.wf()
                    &&& e.filename.name@ == data@.subrange(0, 8)
                    &&& e.filename.ext@ == data@.subrange(8, 11)
                    &&& e.attributes.spec_bits() == data@[11] & 0x3F
                    &&& e.created_time == spec_parse_datetime(
                        spec_u16_le(data@, 16),
                        spec_u16_le(data@, 14),
                    )
                    &&& e.accessed_time == spec_parse_datetime(spec_u16_le(data@, 18), 0)
                    &&& e.modified_time == spec_parse_datetime(
                        spec_u16_le(data@, 24),
                        spec_u16_le(data@, 22),
                    )
                    &&& e.cluster.0 == ((spec_u16_le(data@, 20) as u32) << 16) | (spec_u16_le(
                        data@,
                        26,
                    ) as u32)
                    &&& e.size == spec_u32_le(data@, 28)
                },
                Err(_) => false,
            },
    {
        let filename = ShortFileName::new(data);
        let attributes = Attributes::from_bits_truncate(data[11]);
        let created_time_raw = u16_le(data, 14);
        let created_date_raw = u16_le(data, 16);
        let created_time = parse_datetime(created_date_raw, created_time_raw);
        let accessed_date_raw = u16_le(data, 18);
        let accessed_time = parse_datetime(accessed_date_raw, 0);
        let cluster_hi = u16_le(data, 20) as u32;
        let cluster_lo = u16_le(data, 26) as u32;
        let cluster = (cluster_hi << 16u32) | cluster_lo;
        let modified_time_raw = u16_le(data, 22);
        let modified_date_raw = u16_le(data, 24);
        let modified_time = parse_datetime(modified_date_raw, modified_time_raw);
        let size = u32_le(data, 28);
        Ok(
            DirEntry {
                filename,
                modified_time,
                created_time,
                accessed_time,
                cluster: Cluster(cluster),
                attributes,
                size,
            },
        )
    }

    /// The entry's metadata: its kind, text name, byte length and
    /// timestamps.
    pub fn as_meta(&self) -> (r: Metadata)
        requires
            self.wf(),
        ensures
            r.entry_type == if self.attributes.spec_bits() & ATTR_DIRECTORY == ATTR_DIRECTORY {
                FileType::Directory
            } else {
                FileType::File
            },
            r.len == self.size as usize,
            r.created == Some(self.created_time),
            r.accessed == Some(self.accessed_time),
            r.modified == Some(self.modified_time),
    {
        Metadata {
            entry_type: if self.is_directory() {
                FileType::Directory
            } else {
                FileType::File
            },
            name: self.filename(),
            len: self.size as usize,
            created: Some(self.created_time),
            accessed: Some(self.accessed_time),
            modified: Some(self.modified_time),
        }
    }
}

/// Scans for a byte that an 8.3 filename may not hold.
fn has_invalid_byte(s: &[u8]) -> (r: bool)
    ensures
        r == spec_has_invalid_byte(s@),
{
    let n = s.len();
    let mut i: usize = 0;
    while i < n
        invariant
            i <= n == s@.len(),
            forall|j: int| 0 <= j < i ==> !spec_is_invalid_byte(s@[j]),
        decreases n - i,
    {
        let b = s[i];
        if b <= 0x20 || b == 0x22 || b == 0x2A || b == 0x2B || b == 0x2C || b == 0x2F || b == 0x3A
            || b == 0x3B || b == 0x3C || b == 0x3D || b == 0x3E || b == 0x3F || b == 0x5B || b
            == 0x5C || b == 0x5D || b == 0x7C {
            assert(spec_is_invalid_byte(s@[i as int]));
            return true;
        }
        i = i + 1;
    }
    false
}

/// Finds the index of the first period, or the length when there is none.
fn find_first_dot(s: &[u8]) -> (r: usize)
    ensures
        r == spec_first_dot(s@),
        r <= s@.len(),
{
    let n = s.len();
    let mut i: usize = 0;
    while i < n
        invariant
            i <= n == s@.len(),
            forall|j: int| 0 <= j < i ==> s@[j] != 0x2E,
        decreases n - i,
    {
        if s[i] == 0x2E {
            proof {
                lemma_first_dot_char(s@, i as int);
            }
            return i;
        }
        i = i + 1;
    }
    proof {
        lemma_first_dot_char(s@, n as int);
    }
    n
}

/// The ASCII uppercase image of `s[from..to]`.
fn upper_range(s: &[u8], from: usize, to: usize) -> (r: Vec<u8>)
    requires
        from <= to <= s@.len(),
    ensures
        r@ == spec_upper(s@.subrange(from as int, to as int)),
{
    let mut out: Vec<u8> = Vec::new();
    let mut i: usize = from;
    while i < to
        invariant
            from <= i <= to <= s@.len(),
            out@ =~= spec_upper(s@.subrange(from as int, i as int)),
        decreases to - i,
    {
        let b = s[i];
        let u: u8 = if 0x61 <= b && b <= 0x7A {
            b - 0x20
        } else {
            b
        };
        out.push(u);
        assert(out@ =~= spec_upper(s@.subrange(from as int, i + 1)));
        i = i + 1;
    }
    out
}

/// Pads `v` with ASCII spaces on the right to length `n`.
fn pad_to(v: Vec<u8>, n: usize) -> (r: Vec<u8>)
    requires
        v@.len() <= n,
    ensures
        r@ == spec_pad_spaces(v@, n as int),
{
    let ghost orig = v@;
    let mut out = v;
    while out.len() < n
        invariant
            orig.len() <= out@.len() <= n,
            out@ =~= spec_pad_spaces(orig, out@.len() as int),
        decreases n - out@.len(),
    {
        out.push(0x20);
        assert(out@ =~= spec_pad_spaces(orig, out@.len() as int));
    }
    assert(out@ =~= spec_pad_spaces(orig, n as int));
    out
}

/// Removes the trailing ASCII spaces of `v`.
fn trim_spaces(v: &Vec<u8>) -> (r: Vec<u8>)
    ensures
        r@ == spec_trim_spaces(v@),
{
    let mut k = v.len();
    proof {
        assert(v@.subrange(0, v@.len() as int) =~= v@);
    }
    while k > 0 && v[k - 1] == 0x20
        invariant
            k <= v@.len(),
            spec_trim_spaces(v@) == spec_trim_spaces(v@.subrange(0, k as int)),
        decreases k,
    {
        proof {
            assert(v@.subrange(0, k as int).drop_last() =~= v@.subrange(0, k - 1));
        }
        k = k - 1;
    }
    let r = bytes_at(v.as_slice(), 0, k);
    assert(r@ == v@.subrange(0, k as int));
    r
}

} // verus!
