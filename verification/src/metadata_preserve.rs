//! Image metadata carried in extended attributes (EXIF, IPTC and XMP
//! key-value pairs), merged across duplicate copies of a file.
//!
//! Reading and writing the attributes goes through trusted wrappers around
//! the xattr crate; the classification by prefix and the newest-wins merge
//! are verified.

use vstd::prelude::*;
use vstd::string::*;

use crate::enhanced_cache::{assoc_set, assoc_view, unique_keys};
use crate::strutil::{eq_ignore_case, extension_of, is_prefix_of, path_extension,
    str_eq_ignore_case, str_starts_with};

verus! {

/// The metadata of one image file: three key-value sections and the file's
/// modification time (integer seconds since the epoch).
pub struct ImageMetadata {
    pub exif: Vec<(String, String)>,
    pub iptc: Vec<(String, String)>,
    pub xmp: Vec<(String, String)>,
    pub modified_time: u64,
}

/// Writing the metadata back to a file failed.
#[derive(Debug, Clone, Copy, PartialEq, Eq, Structural)]
pub enum MetadataError {
    AttributeWrite,
}

impl ImageMetadata {
    /// Each section keeps its keys unique.
    pub open spec fn wf(&self) -> bool {
        unique_keys(self.exif@) && unique_keys(self.iptc@) && unique_keys(self.xmp@)
    }

    pub open spec fn exif_map(&self) -> Map<Seq<char>, Seq<char>> {
        assoc_view(self.exif@)
    }

    pub open spec fn iptc_map(&self) -> Map<Seq<char>, Seq<char>> {
        assoc_view(self.iptc@)
    }

    pub open spec fn xmp_map(&self) -> Map<Seq<char>, Seq<char>> {
        assoc_view(self.xmp@)
    }
}

/// What one merged section holds: when the other side is newer its values
/// win everywhere; otherwise its pairs only fill keys this side lacks.
pub open spec fn merged_section(
    mine: Map<Seq<char>, Seq<char>>,
    other: Map<Seq<char>, Seq<char>>,
    other_newer: bool,
) -> Map<Seq<char>, Seq<char>> {
    if other_newer {
        mine.union_prefer_right(other)
    } else {
        other.union_prefer_right(mine)
    }
}

/// The conditional inserts that merging performs, pair by pair.
pub open spec fn merge_fold(
    a: Map<Seq<char>, Seq<char>>,
    s: Seq<(String, String)>,
    newer: bool,
) -> Map<Seq<char>, Seq<char>>
    decreases s.len(),
{
    if s.len() == 0 {
        a
    } else {
        let m = merge_fold(a, s.drop_last(), newer);
        if newer || !a.contains_key(s.last().0@) {
            m.insert(s.last().0@, s.last().1@)
        } else {
            m
        }
    }
}

proof fn lemma_merge_fold_dom(
    a: Map<Seq<char>, Seq<char>>,
    s: Seq<(String, String)>,
    newer: bool,
    k: Seq<char>,
)
    requires
        forall|i: int| 0 <= i < s.len() ==> s[i].0@ != k,
    ensures
        merge_fold(a, s, newer).contains_key(k) == a.contains_key(k),
        merge_fold(a, s, newer).contains_key(k) ==> merge_fold(a, s, newer)[k] == a[k],
    decreases s.len(),
{
    if s.len() > 0 {
        assert(s[s.len() - 1].0@ != k);
        assert forall|i: int| 0 <= i < s.drop_last().len() implies s.drop_last()[i].0@ != k by {
            assert(s.drop_last()[i] == s[i]);
        }
        lemma_merge_fold_dom(a, s.drop_last(), newer, k);
    }
}

proof fn lemma_merge_fold_union(
    a: Map<Seq<char>, Seq<char>>,
    s: Seq<(String, String)>,
    newer: bool,
)
    requires
        unique_keys(s),
    ensures
        merge_fold(a, s, newer) == merged_section(a, assoc_view(s), newer),
    decreases s.len(),
{
    if s.len() == 0 {
        assert(merge_fold(a, s, newer) =~= merged_section(a, assoc_view(s), newer));
    } else {
        let pre = s.drop_last();
        assert(unique_keys(pre)) by {
            assert forall|i: int, j: int| 0 <= i < j < pre.len() implies pre[i].0@ != pre[j].0@ by {
                assert(pre[i] == s[i]);
                assert(pre[j] == s[j]);
                assert(s[i].0@ != s[j].0@);
            }
        }
        lemma_merge_fold_union(a, pre, newer);
        let k = s.last().0@;
        let v = s.last().1@;
        if newer {
            assert(merge_fold(a, s, newer) =~= merged_section(a, assoc_view(s), newer));
        } else {
            if a.contains_key(k) {
                assert(merge_fold(a, s, newer) =~= merged_section(a, assoc_view(s), newer));
            } else {
                assert(merge_fold(a, s, newer) =~= merged_section(a, assoc_view(s), newer));
            }
        }
    }
}

/// Merges one section of `src` into `dst`: when `newer`, every pair of
/// `src` wins; otherwise a pair of `src` is taken only for a key `dst`
/// does not hold.
fn merge_section(dst: &mut Vec<(String, String)>, src: &Vec<(String, String)>, newer: bool)
    requires
        unique_keys(old(dst)@),
        unique_keys(src@),
    ensures
        unique_keys(final(dst)@),
        assoc_view(final(dst)@) == merged_section(assoc_view(old(dst)@), assoc_view(src@), newer),
{
    let ghost a = assoc_view(old(dst)@);
    let n = src.len();
    let mut i: usize = 0;
    while i < n
        invariant
            i <= n,
            n == src@.len(),
            unique_keys(src@),
            unique_keys(dst@),
            assoc_view(dst@) == merge_fold(a, src@.take(i as int), newer),
        decreases n - i,
    {
        proof {
            assert(src@.take(i + 1).drop_last() =~= src@.take(i as int));
            assert(src@.take(i + 1).last() == src@[i as int]);
            assert forall|j: int| 0 <= j < src@.take(i as int).len() implies src@.take(
                i as int,
            )[j].0@ != src@[i as int].0@ by {
                assert(src@.take(i as int)[j] == src@[j]);
            }
            lemma_merge_fold_dom(a, src@.take(i as int), newer, src@[i as int].0@);
        }
        let mut insert_it = newer;
        if !insert_it {
            match crate::enhanced_cache::assoc_get(dst, src[i].0.as_str()) {
                Some(_) => {
                    insert_it = false;
                },
                None => {
                    insert_it = true;
                },
            }
        }
        if insert_it {
            assoc_set(dst, src[i].0.as_str(), src[i].1.clone());
        }
        i += 1;
    }
    proof {
        assert(src@.take(n as int) =~= src@);
        lemma_merge_fold_union(a, src@, newer);
    }
}

impl ImageMetadata {
    /// Merges another file's metadata into this one: the newer side's
    /// values win on conflicts, missing keys are filled either way, and
    /// the modification time advances to the later of the two.
    pub fn merge(&mut self, other: &ImageMetadata)
        requires
            old(self).wf(),
            other.wf(),
        ensures
            final(self).wf(),
            final(self).exif_map() == merged_section(
                old(self).exif_map(),
                other.exif_map(),
                other.modified_time > old(self).modified_time,
            ),
            final(self).iptc_map() == merged_section(
                old(self).iptc_map(),
                other.iptc_map(),
                other.modified_time > old(self).modified_time,
            ),
            final(self).xmp_map() == merged_section(
                old(self).xmp_map(),
                other.xmp_map(),
                other.modified_time > old(self).modified_time,
            ),
            final(self).modified_time == if other.modified_time > old(self).modified_time {
                other.modified_time
            } else {
                old(self).modified_time
            },
    {
        let newer = other.modified_time > self.modified_time;
        merge_section(&mut self.exif, &other.exif, newer);
        merge_section(&mut self.iptc, &other.iptc, newer);
        merge_section(&mut self.xmp, &other.xmp, newer);
        if newer {
            self.modified_time = other.modified_time;
        }
    }

    /// Writes every pair of every section back as an extended attribute of
    /// the file; the first failed write is reported.
    pub fn apply(&self, path: &str) -> (r: Result<(), MetadataError>)
        requires
            self.wf(),
    {
        if !apply_section(path, &self.exif) {
            return Err(MetadataError::AttributeWrite);
        }
        if !apply_section(path, &self.iptc) {
            return Err(MetadataError::AttributeWrite);
        }
        if !apply_section(path, &self.xmp) {
            return Err(MetadataError::AttributeWrite);
        }
        Ok(())
    }
}

fn apply_section(path: &str, section: &Vec<(String, String)>) -> (r: bool) {
    let n = section.len();
    let mut i: usize = 0;
    while i < n
        invariant
            i <= n,
            n == section@.len(),
        decreases n - i,
    {
        if !xattr_set_value(path, section[i].0.as_str(), section[i].1.as_str()) {
            return false;
        }
        i += 1;
    }
    true
}

/// Relies on xattr::list: the names of the extended attributes the file
/// currently carries, as text; names that are not UTF-8 are skipped, and a
/// failed listing yields none.
#[verifier::external_body]
fn xattr_list_names(path: &str) -> (r: Vec<String>) {
    match xattr::list(path) {
        Ok(attrs) => attrs.filter_map(|a| a.to_str().map(|s| s.to_string())).collect(),
        Err(_) => Vec::new(),
    }
}

/// Relies on xattr::get: one attribute's current value, when the attribute
/// exists, the read succeeds and the value is UTF-8 text.
#[verifier::external_body]
fn xattr_get_value(path: &str, name: &str) -> (r: Option<String>) {
    match xattr::get(path, name) {
        Ok(Some(v)) => String::from_utf8(v).ok(),
        _ => None,
    }
}

/// Relies on xattr::set: writes one attribute value; true on success.
#[verifier::external_body]
fn xattr_set_value(path: &str, name: &str, value: &str) -> (r: bool) {
    xattr::set(path, name, value.as_bytes()).is_ok()
}

/// Where classification puts the pairs bearing one prefix: later pairs win.
pub open spec fn classify_fold(
    ms: Seq<(String, String)>,
    prefix: Seq<char>,
) -> Map<Seq<char>, Seq<char>>
    decreases ms.len(),
{
    if ms.len() == 0 {
        Map::empty()
    } else {
        let m = classify_fold(ms.drop_last(), prefix);
        if is_prefix_of(prefix, ms.last().0@) {
            m.insert(ms.last().0@, ms.last().1@)
        } else {
            m
        }
    }
}

/// Sorts attribute pairs into the three metadata sections by their name
/// prefix; pairs bearing none of the prefixes are dropped.
pub fn classify_attrs(attrs: &Vec<(String, String)>, modified_time: u64) -> (r: ImageMetadata)
    ensures
        r.wf(),
        r.modified_time == modified_time,
        r.exif_map() == classify_fold(attrs@, "user.exif."@),
        r.iptc_map() == classify_fold(attrs@, "user.iptc."@),
        r.xmp_map() == classify_fold(attrs@, "user.xmp."@),
{
    let mut exif: Vec<(String, String)> = Vec::new();
    let mut iptc: Vec<(String, String)> = Vec::new();
    let mut xmp: Vec<(String, String)> = Vec::new();
    let n = attrs.len();
    let mut i: usize = 0;
    proof {
        assert(assoc_view(exif@) =~= Map::<Seq<char>, Seq<char>>::empty());
    }
    while i < n
        invariant
            i <= n,
            n == attrs@.len(),
            unique_keys(exif@),
            unique_keys(iptc@),
            unique_keys(xmp@),
            assoc_view(exif@) == classify_fold(attrs@.take(i as int), "user.exif."@),
            assoc_view(iptc@) == classify_fold(attrs@.take(i as int), "user.iptc."@),
            assoc_view(xmp@) == classify_fold(attrs@.take(i as int), "user.xmp."@),
        decreases n - i,
    {
        proof {
            assert(attrs@.take(i + 1).drop_last() =~= attrs@.take(i as int));
            assert(attrs@.take(i + 1).last() == attrs@[i as int]);
        }
        let name = attrs[i].0.as_str();
        if str_starts_with(name, "user.exif.") {
            assoc_set(&mut exif, name, attrs[i].1.clone());
        }
        if str_starts_with(name, "user.iptc.") {
            assoc_set(&mut iptc, name, attrs[i].1.clone());
        }
        if str_starts_with(name, "user.xmp.") {
            assoc_set(&mut xmp, name, attrs[i].1.clone());
        }
        i += 1;
    }
    proof {
        assert(attrs@.take(n as int) =~= attrs@);
    }
    ImageMetadata { exif, iptc, xmp, modified_time }
}

/// Gathers the metadata stored in a file's extended attributes. The live
/// modification time is supplied by the caller, which read it beside the
/// file.
pub fn extract(path: &str, modified_time: u64) -> (r: ImageMetadata)
    ensures
        r.wf(),
        r.modified_time == modified_time,
{
    let names = xattr_list_names(path);
    let mut attrs: Vec<(String, String)> = Vec::new();
    let n = names.len();
    let mut i: usize = 0;
    while i < n
        invariant
            i <= n,
            n == names@.len(),
        decreases n - i,
    {
        let name = names[i].as_str();
        if str_starts_with(name, "user.exif.") || str_starts_with(name, "user.iptc.")
            || str_starts_with(name, "user.xmp.") {
            match xattr_get_value(path, name) {
                Some(value) => {
                    attrs.push((names[i].clone(), value));
                },
                None => {},
            }
        }
        i += 1;
    }
    classify_attrs(&attrs, modified_time)
}

/// The latest of the given modification times; zero when there are none.
pub open spec fn max_mtime(files: Seq<(String, u64)>) -> u64
    decreases files.len(),
{
    if files.len() == 0 {
        0
    } else {
        let rest = max_mtime(files.drop_last());
        if files.last().1 > rest {
            files.last().1
        } else {
            rest
        }
    }
}

/// Merges the metadata of a set of duplicate copies of one image: each
/// file's attributes are extracted and folded in, newest values winning,
/// so the result carries the latest of the given modification times.
/// Each file comes with its modification time, in seconds.
pub fn merge_metadata_from_duplicates(files: &Vec<(String, u64)>) -> (r: ImageMetadata)
    ensures
        r.wf(),
        r.modified_time == max_mtime(files@),
{
    let mut merged = ImageMetadata {
        exif: Vec::new(),
        iptc: Vec::new(),
        xmp: Vec::new(),
        modified_time: 0,
    };
    let n = files.len();
    let mut i: usize = 0;
    while i < n
        invariant
            i <= n,
            n == files@.len(),
            merged.wf(),
            merged.modified_time == max_mtime(files@.take(i as int)),
        decreases n - i,
    {
        let m = extract(files[i].0.as_str(), files[i].1);
        merged.merge(&m);
        proof {
            assert(files@.take(i + 1).drop_last() =~= files@.take(i as int));
            assert(files@.take(i + 1).last() == files@[i as int]);
        }
        i += 1;
    }
    proof {
        assert(files@.take(n as int) =~= files@);
    }
    merged
}

/// The extension allow-list of the metadata-preservation path, which also
/// recognizes camera-raw formats.
pub open spec fn is_image_ext_extended(e: Seq<char>) -> bool {
    ||| eq_ignore_case(e, "jpg"@)
    ||| eq_ignore_case(e, "jpeg"@)
    ||| eq_ignore_case(e, "png"@)
    ||| eq_ignore_case(e, "gif"@)
    ||| eq_ignore_case(e, "bmp"@)
    ||| eq_ignore_case(e, "tiff"@)
    ||| eq_ignore_case(e, "tif"@)
    ||| eq_ignore_case(e, "webp"@)
    ||| eq_ignore_case(e, "raw"@)
    ||| eq_ignore_case(e, "cr2"@)
    ||| eq_ignore_case(e, "nef"@)
    ||| eq_ignore_case(e, "arw"@)
}

pub open spec fn is_image_path_extended(p: Seq<char>) -> bool {
    match extension_of(p) {
        Some(e) => is_image_ext_extended(e),
        None => false,
    }
}

/// Whether the path's extension matches the extended image allow-list,
/// case-insensitively.
pub fn is_image_file(path: &str) -> (r: bool)
    ensures
        r == is_image_path_extended(path@),
{
    match path_extension(path) {
        Some(e) => {
            let ext = e.as_str();
            str_eq_ignore_case(ext, "jpg") || str_eq_ignore_case(ext, "jpeg")
                || str_eq_ignore_case(ext, "png") || str_eq_ignore_case(ext, "gif")
                || str_eq_ignore_case(ext, "bmp") || str_eq_ignore_case(ext, "tiff")
                || str_eq_ignore_case(ext, "tif") || str_eq_ignore_case(ext, "webp")
                || str_eq_ignore_case(ext, "raw") || str_eq_ignore_case(ext, "cr2")
                || str_eq_ignore_case(ext, "nef") || str_eq_ignore_case(ext, "arw")
        },
        None => false,
    }
}

} // verus!
