//! Sidecar and thumbnail path derivation, and the thumbnail size list
//! parser.
//!
//! Paths are plain strings here; the derivation rules (stem, extension,
//! directory isolation) are stated over `Seq<char>` and the executable
//! functions are verified against them. Writing the sidecar files and the
//! thumbnails themselves is I/O and stays with the caller.

use vstd::prelude::*;
use vstd::string::*;

use crate::store_codec::{all_digits, digit_val, foldl_val, is_dec_digit, lemma_foldl_append,
    lemma_foldl_ge, lemma_foldl_split};
use crate::strutil::{extension_of, join_paths, join_paths_exec, parent_of, parent_of_exec,
    path_extension, stem_or_unknown, stem_or_unknown_exec, strip_leading_slash,
    strip_leading_slash_exec, with_extension, with_extension_exec, dec_chars, u64_to_string};

verus! {

/// What one processing pass produced for a file, as recorded beside the
/// fingerprint cache.
#[derive(Debug, Clone)]
pub struct ProcessingCache {
    pub sidecar_generated: bool,
    pub thumbnails_generated: Vec<String>,
    pub orientation_corrected: bool,
    pub file_size: u64,
    pub modified: u64,
}

/// The sidecar path of an image: the image path, mirrored below the
/// metadata directory when one is given, with its extension replaced by
/// `json`.
pub open spec fn sidecar_path_spec(p: Seq<char>, dir: Option<Seq<char>>) -> Seq<char> {
    let base = match dir {
        Some(d) => join_paths(d, strip_leading_slash(p)),
        None => p,
    };
    with_extension(base, "json"@)
}

/// Derives the sidecar path for an image.
pub fn create_sidecar_path(image_path: &str, metadata_dir: Option<&str>) -> (r: String)
    ensures
        r@ == sidecar_path_spec(
            image_path@,
            match metadata_dir {
                Some(d) => Some(d@),
                None => None,
            },
        ),
{
    match metadata_dir {
        Some(dir) => {
            let rel = strip_leading_slash_exec(image_path);
            let base = join_paths_exec(dir, rel);
            with_extension_exec(base.as_str(), "json")
        },
        None => with_extension_exec(image_path, "json"),
    }
}

/// The isolated sidecar file name: the image's stem with a fixed suffix.
pub open spec fn sidecar_name_spec(p: Seq<char>) -> Seq<char> {
    stem_or_unknown(p) + ".fclones.json"@
}

/// The isolated sidecar path: the sidecar name beside the image, or under
/// the metadata directory mirroring the image's parent directory.
pub open spec fn sidecar_path_isolated_spec(p: Seq<char>, dir: Option<Seq<char>>) -> Seq<char> {
    match dir {
        Some(d) => join_paths(d, join_paths(parent_of(strip_leading_slash(p)), sidecar_name_spec(p))),
        None => join_paths(parent_of(p), sidecar_name_spec(p)),
    }
}

/// Derives the isolated sidecar path for an image.
pub fn create_sidecar_path_isolated(image_path: &str, metadata_dir: Option<&str>) -> (r: String)
    ensures
        r@ == sidecar_path_isolated_spec(
            image_path@,
            match metadata_dir {
                Some(d) => Some(d@),
                None => None,
            },
        ),
{
    let mut name = stem_or_unknown_exec(image_path);
    name.append(".fclones.json");
    match metadata_dir {
        Some(dir) => {
            let rel = strip_leading_slash_exec(image_path);
            let parent = parent_of_exec(rel);
            let below = join_paths_exec(parent.as_str(), name.as_str());
            join_paths_exec(dir, below.as_str())
        },
        None => {
            let parent = parent_of_exec(image_path);
            join_paths_exec(parent.as_str(), name.as_str())
        },
    }
}

/// The extension used in a thumbnail's name, or `img` for an image path
/// without one.
pub open spec fn ext_or_img(p: Seq<char>) -> Seq<char> {
    match extension_of(p) {
        Some(e) => e,
        None => "img"@,
    }
}

/// The thumbnail file name: stem, original extension and pixel size,
/// always stored as JPEG.
pub open spec fn thumb_name_spec(p: Seq<char>, w: u32, h: u32) -> Seq<char> {
    stem_or_unknown(p) + seq!['_'] + ext_or_img(p) + seq!['_'] + dec_chars(w as nat) + seq!['x']
        + dec_chars(h as nat) + ".jpg"@
}

/// The isolated thumbnail path: under the thumbnail directory mirroring
/// the image's parent, or in a dot-directory beside the image.
pub open spec fn thumbnail_path_isolated_spec(
    p: Seq<char>,
    w: u32,
    h: u32,
    dir: Option<Seq<char>>,
) -> Seq<char> {
    match dir {
        Some(d) => join_paths(d, join_paths(parent_of(strip_leading_slash(p)), thumb_name_spec(p, w, h))),
        None => join_paths(parent_of(p), ".thumbnails/"@ + thumb_name_spec(p, w, h)),
    }
}

/// Derives the isolated thumbnail path for an image and a pixel size.
pub fn create_thumbnail_path_isolated(
    image_path: &str,
    size: (u32, u32),
    thumbnail_dir: Option<&str>,
) -> (r: String)
    ensures
        r@ == thumbnail_path_isolated_spec(
            image_path@,
            size.0,
            size.1,
            match thumbnail_dir {
                Some(d) => Some(d@),
                None => None,
            },
        ),
{
    let mut name = stem_or_unknown_exec(image_path);
    name.append("_");
    match path_extension(image_path) {
        Some(e) => name.append(e.as_str()),
        None => name.append("img"),
    }
    name.append("_");
    let w = u64_to_string(size.0 as u64);
    name.append(w.as_str());
    name.append("x");
    let h = u64_to_string(size.1 as u64);
    name.append(h.as_str());
    name.append(".jpg");
    proof {
        reveal_strlit("_");
        reveal_strlit("x");
        assert("_"@ =~= seq!['_']);
        assert("x"@ =~= seq!['x']);
        assert(name@ =~= thumb_name_spec(image_path@, size.0, size.1));
    }
    match thumbnail_dir {
        Some(dir) => {
            let rel = strip_leading_slash_exec(image_path);
            let parent = parent_of_exec(rel);
            let below = join_paths_exec(parent.as_str(), name.as_str());
            join_paths_exec(dir, below.as_str())
        },
        None => {
            let parent = parent_of_exec(image_path);
            let mut hidden = String::new();
            hidden.append(".thumbnails/");
            hidden.append(name.as_str());
            join_paths_exec(parent.as_str(), hidden.as_str())
        },
    }
}

/// Whether the path's extension matches the extended image allow-list,
/// case-insensitively.
pub fn is_image_file(path: &str) -> (r: bool)
    ensures
        r == crate::metadata_preserve::is_image_path_extended(path@),
{
    crate::metadata_preserve::is_image_file(path)
}

// ---------------------------------------------------------------------
// The thumbnail size list: comma-separated `WIDTHxHEIGHT` entries.
// ---------------------------------------------------------------------
/// A thumbnail size list did not parse; each variant carries the
/// offending piece of the input.
#[derive(Debug, Clone, PartialEq, Eq)]
pub enum SizeParseError {
    /// A segment is not of the form `WIDTHxHEIGHT`.
    InvalidFormat(String),
    /// The width is not an unsigned decimal number in range.
    InvalidWidth(String),
    /// The height is not an unsigned decimal number in range.
    InvalidHeight(String),
}

/// Mathematical model of a [`SizeParseError`].
pub ghost enum SizeParseErrorModel {
    InvalidFormat(Seq<char>),
    InvalidWidth(Seq<char>),
    InvalidHeight(Seq<char>),
}

impl View for SizeParseError {
    type V = SizeParseErrorModel;

    open spec fn view(&self) -> SizeParseErrorModel {
        match self {
            SizeParseError::InvalidFormat(s) => SizeParseErrorModel::InvalidFormat(s@),
            SizeParseError::InvalidWidth(s) => SizeParseErrorModel::InvalidWidth(s@),
            SizeParseError::InvalidHeight(s) => SizeParseErrorModel::InvalidHeight(s@),
        }
    }
}

pub open spec fn is_space(c: char) -> bool {
    c == ' ' || c == '\t'
}

pub open spec fn trim_front(s: Seq<char>) -> Seq<char>
    decreases s.len(),
{
    if s.len() > 0 && is_space(s[0]) {
        trim_front(s.skip(1))
    } else {
        s
    }
}

pub open spec fn trim_back(s: Seq<char>) -> Seq<char>
    decreases s.len(),
{
    if s.len() > 0 && is_space(s.last()) {
        trim_back(s.drop_last())
    } else {
        s
    }
}

/// A segment with the surrounding blanks removed.
pub open spec fn trimmed(s: Seq<char>) -> Seq<char> {
    trim_back(trim_front(s))
}

/// Position of the first `c` at or after `i`, or the length.
pub open spec fn find_from(s: Seq<char>, i: int, c: char) -> int
    decreases s.len() - i,
    when 0 <= i <= s.len()
{
    if i >= s.len() {
        s.len() as int
    } else if s[i] == c {
        i
    } else {
        find_from(s, i + 1, c)
    }
}

/// The number a digit string denotes, if it is one and it fits.
pub open spec fn parse_u32_all(d: Seq<char>) -> Option<u32> {
    if d.len() >= 1 && all_digits(d) && foldl_val(0, d) <= 0xffff_ffff {
        Some(foldl_val(0, d) as u32)
    } else {
        None
    }
}

/// One trimmed segment: exactly one `x` between two numbers.
pub open spec fn parse_one_size(seg: Seq<char>) -> Result<(u32, u32), SizeParseErrorModel> {
    let t = trimmed(seg);
    let x = find_from(t, 0, 'x');
    if x == t.len() {
        Err(SizeParseErrorModel::InvalidFormat(seg))
    } else if find_from(t, x + 1, 'x') != t.len() {
        Err(SizeParseErrorModel::InvalidFormat(seg))
    } else {
        match parse_u32_all(t.subrange(0, x)) {
            None => Err(SizeParseErrorModel::InvalidWidth(t.subrange(0, x))),
            Some(w) => match parse_u32_all(t.subrange(x + 1, t.len() as int)) {
                None => Err(SizeParseErrorModel::InvalidHeight(t.subrange(x + 1, t.len() as int))),
                Some(h) => Ok((w, h)),
            },
        }
    }
}

/// The comma-separated segments from position `i` on; the first failing
/// segment's error wins.
pub open spec fn parse_sizes_from(s: Seq<char>, i: int) -> Result<
    Seq<(u32, u32)>,
    SizeParseErrorModel,
>
    decreases s.len() - i,
    when 0 <= i <= s.len()
{
    let e = find_from(s, i, ',');
    if i <= e <= s.len() {
        let seg = s.subrange(i, e);
        match parse_one_size(seg) {
            Err(er) => Err(er),
            Ok(p) => if e == s.len() {
                Ok(seq![p])
            } else if e + 1 <= s.len() {
                match parse_sizes_from(s, e + 1) {
                    Ok(rest) => Ok(seq![p] + rest),
                    Err(er) => Err(er),
                }
            } else {
                Err(SizeParseErrorModel::InvalidFormat(seg))
            },
        }
    } else {
        Err(SizeParseErrorModel::InvalidFormat(Seq::empty()))
    }
}

/// A whole size list.
pub open spec fn parse_sizes_spec(s: Seq<char>) -> Result<Seq<(u32, u32)>, SizeParseErrorModel> {
    parse_sizes_from(s, 0)
}

proof fn lemma_find_from(s: Seq<char>, i: int, k: int, c: char)
    requires
        0 <= i <= k <= s.len(),
        forall|j: int| i <= j < k ==> s[j] != c,
        k == s.len() || s[k] == c,
    ensures
        find_from(s, i, c) == k,
    decreases k - i,
{
    if i < k {
        assert(s[i] != c);
        lemma_find_from(s, i + 1, k, c);
    }
}

proof fn lemma_trim_front(s: Seq<char>, lo: int)
    requires
        0 <= lo <= s.len(),
        forall|j: int| 0 <= j < lo ==> is_space(s[j]),
        lo == s.len() || !is_space(s[lo]),
    ensures
        trim_front(s) == s.subrange(lo, s.len() as int),
    decreases lo,
{
    if lo == 0 {
        assert(s.subrange(0, s.len() as int) =~= s);
    } else {
        assert(is_space(s[0]));
        assert forall|j: int| 0 <= j < lo - 1 implies is_space(s.skip(1)[j]) by {
            assert(s.skip(1)[j] == s[j + 1]);
        }
        assert(lo - 1 == s.skip(1).len() || !is_space(s.skip(1)[lo - 1]));
        lemma_trim_front(s.skip(1), lo - 1);
        assert(s.skip(1).subrange(lo - 1, s.skip(1).len() as int) =~= s.subrange(
            lo,
            s.len() as int,
        ));
    }
}

proof fn lemma_trim_back(s: Seq<char>, hi: int)
    requires
        0 <= hi <= s.len(),
        forall|j: int| hi <= j < s.len() ==> is_space(s[j]),
        hi == 0 || !is_space(s[hi - 1]),
    ensures
        trim_back(s) == s.subrange(0, hi),
    decreases s.len() - hi,
{
    if hi == s.len() {
        assert(s.subrange(0, hi) =~= s);
        if s.len() > 0 {
            assert(!is_space(s.last()));
        }
    } else {
        assert(is_space(s.last()));
        assert forall|j: int| hi <= j < s.drop_last().len() implies is_space(
            s.drop_last()[j],
        ) by {
            assert(s.drop_last()[j] == s[j]);
        }
        if hi > 0 {
            assert(s.drop_last()[hi - 1] == s[hi - 1]);
        }
        lemma_trim_back(s.drop_last(), hi);
        assert(s.drop_last().subrange(0, hi) =~= s.subrange(0, hi));
    }
}

fn find_char(s: &str, pos: usize, c: char) -> (r: usize)
    requires
        pos <= s@.len(),
    ensures
        r == find_from(s@, pos as int, c),
        pos <= r <= s@.len(),
        r < s@.len() ==> s@[r as int] == c,
{
    let n = s.unicode_len();
    let mut i: usize = pos;
    while i < n
        invariant
            pos <= i <= n,
            n == s@.len(),
            forall|j: int| pos <= j < i ==> s@[j] != c,
        decreases n - i,
    {
        if s.get_char(i) == c {
            proof {
                lemma_find_from(s@, pos as int, i as int, c);
            }
            return i;
        }
        i += 1;
    }
    proof {
        lemma_find_from(s@, pos as int, n as int, c);
    }
    n
}

fn scan_spaces(s: &str, start: usize) -> (r: usize)
    requires
        start <= s@.len(),
    ensures
        start <= r <= s@.len(),
        forall|j: int| start <= j < r ==> is_space(s@[j]),
        r < s@.len() ==> !is_space(s@[r as int]),
{
    let n = s.unicode_len();
    let mut i: usize = start;
    while i < n
        invariant
            start <= i <= n,
            n == s@.len(),
            forall|j: int| start <= j < i ==> is_space(s@[j]),
        decreases n - i,
    {
        let c = s.get_char(i);
        if !(c == ' ' || c == '\t') {
            return i;
        }
        i += 1;
    }
    n
}

fn scan_spaces_back(s: &str, lo: usize) -> (r: usize)
    requires
        lo <= s@.len(),
    ensures
        lo <= r <= s@.len(),
        forall|j: int| r <= j < s@.len() ==> is_space(s@[j]),
        r > lo ==> !is_space(s@[r - 1]),
{
    let n = s.unicode_len();
    let mut i: usize = n;
    while i > lo
        invariant
            lo <= i <= n,
            n == s@.len(),
            forall|j: int| i <= j < n ==> is_space(s@[j]),
        decreases i,
    {
        let c = s.get_char(i - 1);
        if !(c == ' ' || c == '\t') {
            return i;
        }
        i -= 1;
    }
    lo
}

fn parse_u32_digits(d: &str) -> (r: Option<u32>)
    ensures
        match r {
            Some(v) => parse_u32_all(d@) == Some(v),
            None => parse_u32_all(d@) is None,
        },
{
    let n = d.unicode_len();
    if n == 0 {
        return None;
    }
    let mut val: u32 = 0;
    let mut i: usize = 0;
    while i < n
        invariant
            i <= n,
            n == d@.len(),
            all_digits(d@.take(i as int)),
            val == foldl_val(0, d@.take(i as int)),
        decreases n - i,
    {
        let c = d.get_char(i) as u32;
        if !(48 <= c && c <= 57) {
            proof {
                assert(!is_dec_digit(d@[i as int]));
            }
            return None;
        }
        let dv = c - 48;
        proof {
            assert(d@.take(i + 1) =~= d@.take(i as int).push(d@[i as int]));
            lemma_foldl_append(0, d@.take(i as int), d@[i as int]);
            assert forall|j: int| 0 <= j < i + 1 implies is_dec_digit(
                #[trigger] d@.take(i + 1)[j],
            ) by {
                if j < i {
                    assert(d@.take(i as int)[j] == d@[j]);
                }
            }
        }
        if val > (0xffff_ffffu32 - dv) / 10 {
            proof {
                assert(val as int * 10 + dv > 0xffff_ffff) by (nonlinear_arith)
                    requires
                        val as int > (0xffff_ffff - dv) / 10,
                        0 <= dv <= 9,
                ;
                if all_digits(d@) && d@.len() >= 1 {
                    lemma_foldl_split(0, d@, i + 1);
                    assert forall|j: int| 0 <= j < d@.skip(i + 1).len() implies is_dec_digit(
                        #[trigger] d@.skip(i + 1)[j],
                    ) by {
                        assert(d@.skip(i + 1)[j] == d@[j + i + 1]);
                    }
                    lemma_foldl_ge(foldl_val(0, d@.take(i + 1)), d@.skip(i + 1));
                }
            }
            return None;
        }
        proof {
            assert(val as int * 10 + dv <= 0xffff_ffff) by (nonlinear_arith)
                requires
                    val as int <= (0xffff_ffff - dv) / 10,
                    0 <= dv <= 9,
            ;
        }
        val = val * 10 + dv;
        i += 1;
    }
    proof {
        assert(d@.take(n as int) =~= d@);
    }
    Some(val)
}

fn parse_one_size_exec(seg: &str) -> (r: Result<(u32, u32), SizeParseError>)
    ensures
        match r {
            Ok(p) => parse_one_size(seg@) == Ok::<(u32, u32), SizeParseErrorModel>(p),
            Err(e) => parse_one_size(seg@) == Err::<(u32, u32), SizeParseErrorModel>(e@),
        },
{
    let n = seg.unicode_len();
    let lo = scan_spaces(seg, 0);
    let hi = scan_spaces_back(seg, lo);
    proof {
        lemma_trim_front(seg@, lo as int);
        let t0 = seg@.subrange(lo as int, n as int);
        assert forall|j: int| (hi - lo) <= j < t0.len() implies is_space(t0[j]) by {
            assert(t0[j] == seg@[lo + j]);
        }
        if hi > lo {
            assert(t0[hi - lo - 1] == seg@[hi - 1]);
        }
        lemma_trim_back(t0, hi - lo);
        assert(t0.subrange(0, hi - lo) =~= seg@.subrange(lo as int, hi as int));
    }
    let t = seg.substring_char(lo, hi);
    proof {
        assert(t@ =~= trimmed(seg@));
    }
    let tn = t.unicode_len();
    let x = find_char(t, 0, 'x');
    if x == tn {
        return Err(SizeParseError::InvalidFormat(seg.to_owned()));
    }
    let x2 = find_char(t, x + 1, 'x');
    if x2 != tn {
        return Err(SizeParseError::InvalidFormat(seg.to_owned()));
    }
    let wpart = t.substring_char(0, x);
    match parse_u32_digits(wpart) {
        None => Err(SizeParseError::InvalidWidth(wpart.to_owned())),
        Some(w) => {
            let hpart = t.substring_char(x + 1, tn);
            match parse_u32_digits(hpart) {
                None => Err(SizeParseError::InvalidHeight(hpart.to_owned())),
                Some(h) => Ok((w, h)),
            }
        },
    }
}

fn parse_sizes_rec(s: &str, pos: usize) -> (r: Result<Vec<(u32, u32)>, SizeParseError>)
    requires
        pos <= s@.len(),
    ensures
        match r {
            Ok(v) => parse_sizes_from(s@, pos as int) == Ok::<
                Seq<(u32, u32)>,
                SizeParseErrorModel,
            >(v@),
            Err(e) => parse_sizes_from(s@, pos as int) == Err::<
                Seq<(u32, u32)>,
                SizeParseErrorModel,
            >(e@),
        },
    decreases s@.len() - pos,
{
    let n = s.unicode_len();
    let e = find_char(s, pos, ',');
    let seg = s.substring_char(pos, e);
    match parse_one_size_exec(seg) {
        Err(er) => Err(er),
        Ok(p) => {
            if e == n {
                let mut v: Vec<(u32, u32)> = Vec::new();
                v.push(p);
                proof {
                    assert(v@ =~= seq![p]);
                }
                Ok(v)
            } else {
                match parse_sizes_rec(s, e + 1) {
                    Ok(rest) => {
                        let ghost rest_view = rest@;
                        let mut v = rest;
                        v.insert(0, p);
                        proof {
                            assert(v@ =~= seq![p] + rest_view);
                        }
                        Ok(v)
                    },
                    Err(er) => Err(er),
                }
            }
        },
    }
}

/// Parses a comma-separated list of `WIDTHxHEIGHT` thumbnail sizes, each
/// segment optionally surrounded by blanks.
pub fn parse_thumbnail_sizes(sizes_str: &str) -> (r: Result<Vec<(u32, u32)>, SizeParseError>)
    ensures
        match r {
            Ok(v) => parse_sizes_spec(sizes_str@) == Ok::<Seq<(u32, u32)>, SizeParseErrorModel>(
                v@,
            ),
            Err(e) => parse_sizes_spec(sizes_str@) == Err::<
                Seq<(u32, u32)>,
                SizeParseErrorModel,
            >(e@),
        },
{
    parse_sizes_rec(sizes_str, 0)
}

} // verus!
