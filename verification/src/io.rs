//! Which kind of file holds a wind map, told by its name.
use crate::bytes;
use crate::given;
use crate::grib2;
use crate::grib2::Grib2Bbox;
use crate::io_error::IoError;
use crate::number::Real32;
use crate::paths;
use crate::wind_av1::decoder::DecodeError;
use vstd::prelude::*;
use vstd::string::*;
use vstd::utf8::*;

verus! {

/// The kinds of files that hold wind maps.
#[derive(Clone, Copy, Debug, PartialEq, Eq, Structural)]
pub enum Format {
    /// GRIB2, with the extension `grib2`, `grb2` or `grib`.
    Grib2,
    /// Wind fields as pictures, with the extension `wcav`.
    WindAv1,
}

/// Why a wind map cannot be loaded.
#[derive(Debug)]
pub enum LoadError {
    /// The name does not tell what kind of file it is.
    UnknownExtension(String),
    /// Something is asked for that files of this kind do not give.
    OptionNotApplicable(&'static str),
    /// The file cannot be opened.
    Io { path: String, source: IoError },
    /// The file is no good GRIB2 file.
    Grib(grib2::LoadError),
    /// The file is no good file of wind fields.
    WindAv1(DecodeError),
}

/// A byte, in lower case where it is a letter of ASCII.
pub open spec fn lower(b: u8) -> u8 {
    if 65 <= b <= 90 {
        (b + 32) as u8
    } else {
        b
    }
}

/// Bytes, in lower case where they are letters of ASCII.
pub open spec fn in_lower_case(s: Seq<u8>) -> Seq<u8> {
    s.map_values(|b: u8| lower(b))
}

/// Whether a path has an extension, whatever its case.
pub open spec fn has_extension(path: Seq<char>, ext: Seq<char>) -> bool {
    paths::extension(encode_utf8(path)) matches Some(e) && in_lower_case(e) == encode_utf8(ext)
}

/// What kind of file a path leads to.
pub open spec fn format_of(path: Seq<char>) -> Option<Format> {
    if has_extension(path, "grib2"@) || has_extension(path, "grb2"@) || has_extension(
        path,
        "grib"@,
    ) {
        Some(Format::Grib2)
    } else if has_extension(path, "wcav"@) {
        Some(Format::WindAv1)
    } else {
        None
    }
}

/// Whether bytes are those of `word`, but for their case.
fn spells(lowered: &Vec<u8>, word: &str) -> (r: bool)
    ensures
        r == (lowered@ == encode_utf8(word@)),
{
    let word: &[u8] = word.as_bytes();
    if lowered.len() != word.len() {
        return false;
    }
    let r: bool = bytes::holds_at(lowered.as_slice(), 0, word);
    assert(lowered@.subrange(0, word@.len() as int) =~= lowered@);
    r
}

/// The bytes from `from` on and before `to`, in lower case.
fn lowered(s: &[u8], from: usize, to: usize) -> (out: Vec<u8>)
    requires
        from <= to <= s@.len(),
    ensures
        out@ == in_lower_case(s@.subrange(from as int, to as int)),
{
    let mut out: Vec<u8> = Vec::new();
    let mut k: usize = from;
    while k < to
        invariant
            from <= k <= to <= s@.len(),
            out@ == in_lower_case(s@.subrange(from as int, k as int)),
        decreases to - k,
    {
        let b: u8 = s[k];
        out.push(if 65 <= b && b <= 90 { b + 32 } else { b });
        assert(s@.subrange(from as int, k + 1) =~= s@.subrange(from as int, k as int).push(b));
        assert(out@ =~= in_lower_case(s@.subrange(from as int, k + 1)));
        k += 1;
    }
    out
}

impl Format {
    /// What kind of file a path leads to, told by its extension.
    pub fn from_path(path: &str) -> (r: Result<Format, LoadError>)
        ensures
            r is Ok <==> format_of(path@) is Some,
            r matches Ok(f) ==> format_of(path@) == Some(f),
            r matches Err(e) ==> e matches LoadError::UnknownExtension(p) && p@ == path@,
    {
        let b: &[u8] = path.as_bytes();
        let (_start, dot, end) = paths::extension_span(b);
        if let Some(dot) = dot {
            let ext: Vec<u8> = lowered(b, dot + 1, end);
            if spells(&ext, "grib2") || spells(&ext, "grb2") || spells(&ext, "grib") {
                return Ok(Format::Grib2);
            }
            if spells(&ext, "wcav") {
                return Ok(Format::WindAv1);
            }
        }
        Err(LoadError::UnknownExtension(path.to_owned()))
    }

    /// What a kind of file is called.
    pub fn name(self) -> (s: &'static str)
        ensures
            self == Format::Grib2 ==> s@ == "GRIB2"@,
            self == Format::WindAv1 ==> s@ == "wind_av1"@,
    {
        match self {
            Format::Grib2 => "GRIB2",
            Format::WindAv1 => "wind_av1",
        }
    }
}

impl LoadError {
    /// The error in words. `show` writes numbers.
    pub open spec fn words<S: Fn(Real32) -> String>(&self, show: S) -> Seq<char> {
        match self {
            LoadError::UnknownExtension(p) => "cannot infer wind-map format from extension of "@
                + p@ + ": known extensions are .grib2 / .grb2 / .grib / .wcav"@,
            LoadError::OptionNotApplicable(msg) => msg@,
            LoadError::Io { path, source } => "I/O error on "@ + path@ + ": "@ + source.message@,
            LoadError::Grib(e) => e.words(),
            LoadError::WindAv1(e) => e.words(show),
        }
    }

    /// The error in words. `show` writes numbers.
    pub fn message<S: Fn(Real32) -> String>(&self, show: &S) -> (s: String)
        requires
            given::worded1(*show),
        ensures
            s@ == self.words(*show),
    {
        match self {
            LoadError::UnknownExtension(p) => {
                let mut s: String = "cannot infer wind-map format from extension of ".to_owned();
                s.append(p.as_str());
                s.append(": known extensions are .grib2 / .grb2 / .grib / .wcav");
                s
            },
            LoadError::OptionNotApplicable(msg) => (*msg).to_owned(),
            LoadError::Io { path, source } => {
                let mut s: String = "I/O error on ".to_owned();
                s.append(path.as_str());
                s.append(": ");
                s.append(source.message.as_str());
                s
            },
            LoadError::Grib(e) => e.message(),
            LoadError::WindAv1(e) => e.message(show),
        }
    }
}

/// How a file is to be loaded: what kind of file it is. A stride and a box can be
/// asked of GRIB2 files only.
pub fn plan_load(path: &str, grib_stride: usize, grib_bbox: Option<Grib2Bbox>) -> (r: Result<
    Format,
    LoadError,
>)
    ensures
        match format_of(path@) {
            None => r matches Err(LoadError::UnknownExtension(p)) && p@ == path@,
            Some(Format::Grib2) => r == Ok::<Format, LoadError>(Format::Grib2),
            Some(Format::WindAv1) => if grib_stride > 1 || grib_bbox is Some {
                r matches Err(LoadError::OptionNotApplicable(msg)) && msg@
                    == "grib_stride / grib_bbox apply only to GRIB2 input"@
            } else {
                r == Ok::<Format, LoadError>(Format::WindAv1)
            },
        },
{
    match Format::from_path(path) {
        Err(e) => Err(e),
        Ok(Format::Grib2) => Ok(Format::Grib2),
        Ok(Format::WindAv1) => {
            if grib_stride > 1 || grib_bbox.is_some() {
                Err(
                    LoadError::OptionNotApplicable(
                        "grib_stride / grib_bbox apply only to GRIB2 input",
                    ),
                )
            } else {
                Ok(Format::WindAv1)
            }
        },
    }
}


/// Whether two bytes are the same letter in either case, or the same byte.
pub open spec fn same_letter(a: u8, b: u8) -> bool {
    a == b || (65 <= a <= 90 && b == a + 32) || (65 <= b <= 90 && a == b + 32)
}

/// Whether bytes spell a word in small letters and digits, in either case.
pub open spec fn spelled(s: Seq<u8>, word: Seq<char>) -> bool {
    s.len() == word.len() && forall|k: int|
        0 <= k < s.len() ==> same_letter(#[trigger] s[k], word[k] as u8)
}

/// Bytes in lower case are a word in lower case just if they spell it.
proof fn lemma_lower_case(s: Seq<u8>, word: Seq<char>)
    requires
        is_ascii_chars(word),
        forall|k: int| 0 <= k < word.len() ==> !(65 <= (#[trigger] word[k]) as u8 <= 90),
    ensures
        in_lower_case(s) == encode_utf8(word) <==> spelled(s, word),
{
    is_ascii_chars_encode_utf8(word);
    let w = encode_utf8(word);
    let l = in_lower_case(s);
    if l == w {
        assert forall|k: int| 0 <= k < s.len() implies same_letter(#[trigger] s[k], word[k] as u8) by {
            assert(l[k] == lower(s[k]));
            assert(w[k] == word[k] as u8);
        }
    }
    if spelled(s, word) {
        assert forall|k: int| 0 <= k < s.len() implies l[k] == w[k] by {
            assert(l[k] == lower(s[k]));
            assert(same_letter(s[k], word[k] as u8));
            assert(w[k] == word[k] as u8);
        }
        assert(l =~= w);
    }
}

/// A file is GRIB2 where its extension is `grib2`, `grb2` or `grib`, in letters of either
/// case, and holds wind fields where it is `wcav`. No other extension tells anything.
pub proof fn law_formats_by_extension(path: Seq<char>)
    ensures
        match paths::extension(encode_utf8(path)) {
            None => format_of(path) is None,
            Some(e) => {
                &&& spelled(e, "grib2"@) || spelled(e, "grb2"@) || spelled(e, "grib"@)
                    <==> format_of(path) == Some(Format::Grib2)
                &&& spelled(e, "wcav"@) <==> format_of(path) == Some(Format::WindAv1)
            },
        },
{
    reveal_strlit("grib2");
    reveal_strlit("grb2");
    reveal_strlit("grib");
    reveal_strlit("wcav");
    match paths::extension(encode_utf8(path)) {
        None => {},
        Some(e) => {
            lemma_lower_case(e, "grib2"@);
            lemma_lower_case(e, "grb2"@);
            lemma_lower_case(e, "grib"@);
            lemma_lower_case(e, "wcav"@);
            if spelled(e, "wcav"@) && (spelled(e, "grib"@) || spelled(e, "grb2"@)) {
                assert(same_letter(e[0], "wcav"@[0] as u8));
                if spelled(e, "grib"@) {
                    assert(same_letter(e[0], "grib"@[0] as u8));
                } else {
                    assert(same_letter(e[0], "grb2"@[0] as u8));
                }
            }
        },
    }
}

} // verus!
