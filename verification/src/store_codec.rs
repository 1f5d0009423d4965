//! The text encoding of the store: a compact JSON object mapping each path
//! key to its cache entry record.
//!
//! Rendering and parsing are verified against spec-level grammar functions,
//! and parsing a rendered store provably returns the original entries.
//! Keys are carried verbatim between quotes, so a key containing a double
//! quote cannot be encoded; [`key_encodable`] guards that. A file that does
//! not parse is treated by the store as empty rather than as an error.

use vstd::prelude::*;
use vstd::string::*;

use crate::enhanced_cache::{assoc_set, assoc_view, unique_keys, CacheEntry, CacheEntryModel};
use crate::semantic_hash::{SemanticHash, SemanticHashModel};
use crate::strutil::{dec_chars, u64_to_string};

verus! {

/// A key can be carried by the encoding exactly when it holds no double
/// quote.
pub open spec fn key_encodable(k: Seq<char>) -> bool {
    forall|i: int| 0 <= i < k.len() ==> k[i] != '"'
}

/// The model pairs that a concrete entry list denotes.
pub open spec fn models_of(cs: Seq<(String, CacheEntry)>) -> Seq<(Seq<char>, CacheEntryModel)> {
    cs.map(|i: int, p: (String, CacheEntry)| (p.0@, p.1@))
}

/// The map denoted by a sequence of model pairs; later pairs win.
pub open spec fn model_map(ms: Seq<(Seq<char>, CacheEntryModel)>) -> Map<
    Seq<char>,
    CacheEntryModel,
>
    decreases ms.len(),
{
    if ms.len() == 0 {
        Map::empty()
    } else {
        model_map(ms.drop_last()).insert(ms.last().0, ms.last().1)
    }
}

/// Whether the encoding can carry this key.
pub fn key_is_encodable(key: &str) -> (r: bool)
    ensures
        r == key_encodable(key@),
{
    let n = key.unicode_len();
    let mut i: usize = 0;
    while i < n
        invariant
            i <= n,
            n == key@.len(),
            forall|j: int| 0 <= j < i ==> key@[j] != '"',
        decreases n - i,
    {
        if key.get_char(i) == '"' {
            return false;
        }
        i += 1;
    }
    true
}

/// An association list and its model pairs denote the same map.
pub proof fn lemma_assoc_view_is_model_map(cs: Seq<(String, CacheEntry)>)
    ensures
        assoc_view(cs) == model_map(models_of(cs)),
    decreases cs.len(),
{
    if cs.len() == 0 {
        assert(assoc_view(cs) =~= model_map(models_of(cs)));
    } else {
        lemma_assoc_view_is_model_map(cs.drop_last());
        assert(models_of(cs.drop_last()) =~= models_of(cs).drop_last());
        assert(models_of(cs).last() == (cs.last().0@, cs.last().1@));
    }
}

// ---------------------------------------------------------------------
// Rendering, at the specification level.
// ---------------------------------------------------------------------
/// Decimal rendering of a byte list, comma separated.
pub open spec fn render_bytes(s: Seq<u8>) -> Seq<char>
    decreases s.len(),
{
    if s.len() == 0 {
        Seq::empty()
    } else if s.len() == 1 {
        dec_chars(s[0] as nat)
    } else {
        dec_chars(s[0] as nat) + seq![','] + render_bytes(s.skip(1))
    }
}

pub open spec fn render_perceptual(p: Option<Seq<u8>>) -> Seq<char> {
    match p {
        None => "null"@,
        Some(s) => seq!['['] + render_bytes(s) + seq![']'],
    }
}

pub open spec fn render_semantic_hash(h: Option<SemanticHashModel>) -> Seq<char> {
    match h {
        None => "null"@,
        Some(h) => "{\"perceptual\":"@ + render_perceptual(h.perceptual) + ",\"content\":"@
            + dec_chars(h.content as nat) + seq!['}'],
    }
}

pub open spec fn render_entry(e: CacheEntryModel) -> Seq<char> {
    "{\"semantic_hash\":"@ + render_semantic_hash(e.semantic_hash) + ",\"file_size\":"@
        + dec_chars(e.file_size as nat) + ",\"modified\":"@ + dec_chars(e.modified as nat)
        + seq!['}']
}

pub open spec fn render_kv(k: Seq<char>, e: CacheEntryModel) -> Seq<char> {
    seq!['"'] + k + seq!['"', ':'] + render_entry(e)
}

pub open spec fn render_kvs(ms: Seq<(Seq<char>, CacheEntryModel)>) -> Seq<char>
    decreases ms.len(),
{
    if ms.len() == 0 {
        Seq::empty()
    } else if ms.len() == 1 {
        render_kv(ms[0].0, ms[0].1)
    } else {
        render_kv(ms[0].0, ms[0].1) + seq![','] + render_kvs(ms.skip(1))
    }
}

pub open spec fn render_store(ms: Seq<(Seq<char>, CacheEntryModel)>) -> Seq<char> {
    seq!['{'] + render_kvs(ms) + seq!['}']
}

// ---------------------------------------------------------------------
// Rendering, executable.
// ---------------------------------------------------------------------
fn append_bytes(out: &mut String, v: &Vec<u8>, i: usize)
    requires
        i <= v@.len(),
    ensures
        final(out)@ == old(out)@ + render_bytes(v@.skip(i as int)),
    decreases v@.len() - i,
{
    if i < v.len() {
        let d = u64_to_string(v[i] as u64);
        out.append(d.as_str());
        if i + 1 < v.len() {
            out.append(",");
            proof {
                reveal_strlit(",");
                assert(","@ =~= seq![',']);
            }
        }
        append_bytes(out, v, i + 1);
        proof {
            let s = v@.skip(i as int);
            assert(s[0] == v@[i as int]);
            assert(v@.skip(i + 1) =~= s.skip(1));
            if i + 1 < v@.len() {
                assert(out@ =~= old(out)@ + (dec_chars(v@[i as int] as nat) + seq![',']
                    + render_bytes(s.skip(1))));
            } else {
                assert(s.len() == 1);
                assert(render_bytes(s.skip(1)) =~= Seq::<char>::empty());
                assert(out@ =~= old(out)@ + dec_chars(v@[i as int] as nat));
            }
        }
    } else {
        proof {
            assert(v@.skip(i as int).len() == 0);
            assert(out@ =~= old(out)@ + render_bytes(v@.skip(i as int)));
        }
    }
}

/// Renders one cache entry as the store's text encoding of it.
pub fn render_entry_exec(e: &CacheEntry) -> (r: String)
    ensures
        r@ == render_entry(e@),
{
    let mut out = String::new();
    out.append("{\"semantic_hash\":");
    match &e.semantic_hash {
        Some(h) => {
            out.append("{\"perceptual\":");
            match &h.perceptual {
                Some(v) => {
                    out.append("[");
                    proof {
                        reveal_strlit("[");
                        assert("["@ =~= seq!['[']);
                    }
                    append_bytes(&mut out, v, 0);
                    proof {
                        assert(v@.skip(0) =~= v@);
                    }
                    out.append("]");
                    proof {
                        reveal_strlit("]");
                        assert("]"@ =~= seq![']']);
                    }
                },
                None => {
                    out.append("null");
                },
            }
            proof {
                assert(out@ =~= "{\"semantic_hash\":"@ + ("{\"perceptual\":"@ + render_perceptual(
                    h@.perceptual,
                )));
            }
            out.append(",\"content\":");
            let cd = u64_to_string(h.content);
            out.append(cd.as_str());
            out.append("}");
            proof {
                reveal_strlit("}");
                assert("}"@ =~= seq!['}']);
                assert(out@ =~= "{\"semantic_hash\":"@ + render_semantic_hash(e@.semantic_hash));
            }
        },
        None => {
            proof {
                assert(render_semantic_hash(e@.semantic_hash) == "null"@);
            }
            out.append("null");
        },
    }
    out.append(",\"file_size\":");
    let fs = u64_to_string(e.file_size);
    out.append(fs.as_str());
    out.append(",\"modified\":");
    let mt = u64_to_string(e.modified);
    out.append(mt.as_str());
    out.append("}");
    proof {
        reveal_strlit("}");
        assert("}"@ =~= seq!['}']);
        assert(out@ =~= render_entry(e@));
    }
    out
}

fn append_kvs(out: &mut String, cs: &Vec<(String, CacheEntry)>, i: usize)
    requires
        i <= cs@.len(),
    ensures
        final(out)@ == old(out)@ + render_kvs(models_of(cs@).skip(i as int)),
    decreases cs@.len() - i,
{
    if i < cs.len() {
        out.append("\"");
        out.append(cs[i].0.as_str());
        out.append("\":");
        let entry_text = render_entry_exec(&cs[i].1);
        out.append(entry_text.as_str());
        proof {
            reveal_strlit("\"");
            reveal_strlit("\":");
            assert("\""@ =~= seq!['"']);
            assert("\":"@ =~= seq!['"', ':']);
            assert(out@ =~= old(out)@ + render_kv(cs@[i as int].0@, cs@[i as int].1@));
        }
        if i + 1 < cs.len() {
            out.append(",");
            proof {
                reveal_strlit(",");
                assert(","@ =~= seq![',']);
            }
        }
        append_kvs(out, cs, i + 1);
        proof {
            let ms = models_of(cs@).skip(i as int);
            assert(ms[0] == (cs@[i as int].0@, cs@[i as int].1@));
            assert(models_of(cs@).skip(i + 1) =~= ms.skip(1));
            if i + 1 < cs@.len() {
                assert(out@ =~= old(out)@ + (render_kv(ms[0].0, ms[0].1) + seq![','] + render_kvs(
                    ms.skip(1),
                )));
            } else {
                assert(ms.len() == 1);
                assert(out@ =~= old(out)@ + render_kv(ms[0].0, ms[0].1));
            }
        }
    } else {
        proof {
            assert(models_of(cs@).skip(i as int).len() == 0);
            assert(out@ =~= old(out)@ + render_kvs(models_of(cs@).skip(i as int)));
        }
    }
}

// ---------------------------------------------------------------------
// Parsing, at the specification level. Each function takes the input and
// a cursor and yields the parsed value with the new cursor, or nothing.
// ---------------------------------------------------------------------
pub open spec fn p_lit(s: Seq<char>, i: int, lit: Seq<char>) -> Option<int> {
    if 0 <= i && i + lit.len() <= s.len() && s.subrange(i, i + lit.len()) == lit {
        Some(i + lit.len())
    } else {
        None
    }
}

pub open spec fn is_dec_digit(c: char) -> bool {
    48 <= c as u32 <= 57
}

pub open spec fn digit_val(c: char) -> int {
    c as u32 - 48
}

pub open spec fn p_digits(s: Seq<char>, i: int, acc: u64) -> Option<(u64, int)>
    decreases s.len() - i,
    when 0 <= i <= s.len()
{
    if i < s.len() && is_dec_digit(s[i]) {
        let d = digit_val(s[i]);
        if acc as int <= (0xffff_ffff_ffff_ffff - d) / 10 {
            p_digits(s, i + 1, (acc as int * 10 + d) as u64)
        } else {
            None
        }
    } else {
        Some((acc, i))
    }
}

pub open spec fn p_u64(s: Seq<char>, i: int) -> Option<(u64, int)> {
    if 0 <= i < s.len() && is_dec_digit(s[i]) {
        p_digits(s, i, 0)
    } else {
        None
    }
}

pub proof fn lemma_p_digits_ge(s: Seq<char>, i: int, acc: u64)
    requires
        0 <= i <= s.len(),
    ensures
        p_digits(s, i, acc) matches Some(r) ==> i <= r.1 <= s.len(),
    decreases s.len() - i,
{
    if i < s.len() && is_dec_digit(s[i]) {
        let d = digit_val(s[i]);
        if acc as int <= (0xffff_ffff_ffff_ffff - d) / 10 {
            lemma_p_digits_ge(s, i + 1, (acc as int * 10 + d) as u64);
        }
    }
}

/// The key scan, after the opening quote: everything up to the closing
/// quote, verbatim.
pub open spec fn p_key(s: Seq<char>, i: int) -> Option<(Seq<char>, int)>
    decreases s.len() - i,
    when 0 <= i <= s.len()
{
    if i < s.len() {
        if s[i] == '"' {
            Some((Seq::empty(), i + 1))
        } else {
            match p_key(s, i + 1) {
                Some((k, n)) => Some((seq![s[i]] + k, n)),
                None => None,
            }
        }
    } else {
        None
    }
}

/// A non-empty byte list and its closing bracket.
pub open spec fn p_perc_more(s: Seq<char>, i: int) -> Option<(Seq<u8>, int)>
    decreases s.len() - i,
    when 0 <= i <= s.len()
{
    match p_u64(s, i) {
        Some((v, n)) => if v <= 255 && i < n <= s.len() {
            if n < s.len() && s[n] == ']' {
                Some((seq![v as u8], n + 1))
            } else if n < s.len() && s[n] == ',' {
                match p_perc_more(s, n + 1) {
                    Some((r, m)) => Some((seq![v as u8] + r, m)),
                    None => None,
                }
            } else {
                None
            }
        } else {
            None
        },
        None => None,
    }
}

pub open spec fn p_perceptual(s: Seq<char>, i: int) -> Option<(Option<Seq<u8>>, int)> {
    match p_lit(s, i, "null"@) {
        Some(n) => Some((None, n)),
        None => if 0 <= i && i < s.len() && s[i] == '[' {
            if i + 1 < s.len() && s[i + 1] == ']' {
                Some((Some(Seq::empty()), i + 2))
            } else {
                match p_perc_more(s, i + 1) {
                    Some((bytes, n)) => Some((Some(bytes), n)),
                    None => None,
                }
            }
        } else {
            None
        },
    }
}

pub open spec fn p_semantic_hash(s: Seq<char>, i: int) -> Option<
    (Option<SemanticHashModel>, int),
> {
    match p_lit(s, i, "null"@) {
        Some(n) => Some((None, n)),
        None => match p_lit(s, i, "{\"perceptual\":"@) {
            Some(n1) => match p_perceptual(s, n1) {
                Some((perc, n2)) => match p_lit(s, n2, ",\"content\":"@) {
                    Some(n3) => match p_u64(s, n3) {
                        Some((c, n4)) => if n4 < s.len() && s[n4] == '}' {
                            Some(
                                (Some(SemanticHashModel { perceptual: perc, content: c }), n4 + 1),
                            )
                        } else {
                            None
                        },
                        None => None,
                    },
                    None => None,
                },
                None => None,
            },
            None => None,
        },
    }
}

pub open spec fn p_entry(s: Seq<char>, i: int) -> Option<(CacheEntryModel, int)> {
    match p_lit(s, i, "{\"semantic_hash\":"@) {
        Some(n1) => match p_semantic_hash(s, n1) {
            Some((sh, n2)) => match p_lit(s, n2, ",\"file_size\":"@) {
                Some(n3) => match p_u64(s, n3) {
                    Some((fs, n4)) => match p_lit(s, n4, ",\"modified\":"@) {
                        Some(n5) => match p_u64(s, n5) {
                            Some((mt, n6)) => if n6 < s.len() && s[n6] == '}' {
                                Some(
                                    (
                                        CacheEntryModel {
                                            semantic_hash: sh,
                                            file_size: fs,
                                            modified: mt,
                                        },
                                        n6 + 1,
                                    ),
                                )
                            } else {
                                None
                            },
                            None => None,
                        },
                        None => None,
                    },
                    None => None,
                },
                None => None,
            },
            None => None,
        },
        None => None,
    }
}

/// A non-empty key-entry list and the closing brace of the store object.
pub open spec fn p_kvs_more(s: Seq<char>, i: int) -> Option<
    (Seq<(Seq<char>, CacheEntryModel)>, int),
>
    decreases s.len() - i,
    when 0 <= i <= s.len()
{
    if i < s.len() && s[i] == '"' {
        match p_key(s, i + 1) {
            Some((k, n1)) => if i < n1 <= s.len() {
                match p_lit(s, n1, ":"@) {
                    Some(n2) => match p_entry(s, n2) {
                        Some((e, n3)) => if n2 < n3 <= s.len() {
                            if n3 < s.len() && s[n3] == '}' {
                                Some((seq![(k, e)], n3 + 1))
                            } else if n3 < s.len() && s[n3] == ',' {
                                match p_kvs_more(s, n3 + 1) {
                                    Some((r, m)) => Some((seq![(k, e)] + r, m)),
                                    None => None,
                                }
                            } else {
                                None
                            }
                        } else {
                            None
                        },
                        None => None,
                    },
                    None => None,
                }
            } else {
                None
            },
            None => None,
        }
    } else {
        None
    }
}

pub open spec fn p_store(s: Seq<char>, i: int) -> Option<
    (Seq<(Seq<char>, CacheEntryModel)>, int),
> {
    if 0 <= i && i < s.len() && s[i] == '{' {
        if i + 1 < s.len() && s[i + 1] == '}' {
            Some((Seq::empty(), i + 2))
        } else {
            p_kvs_more(s, i + 1)
        }
    } else {
        None
    }
}

/// One entry's text, consumed in full.
pub open spec fn parse_entry_spec(s: Seq<char>) -> Option<CacheEntryModel> {
    match p_entry(s, 0) {
        Some((e, n)) => if n == s.len() {
            Some(e)
        } else {
            None
        },
        None => None,
    }
}

/// A whole store file's text, consumed in full.
pub open spec fn parse_store_spec(s: Seq<char>) -> Option<Seq<(Seq<char>, CacheEntryModel)>> {
    match p_store(s, 0) {
        Some((ms, n)) => if n == s.len() {
            Some(ms)
        } else {
            None
        },
        None => None,
    }
}

// ---------------------------------------------------------------------
// Parsing, executable.
// ---------------------------------------------------------------------
fn match_lit(s: &str, pos: usize, lit: &str) -> (r: Option<usize>)
    requires
        pos <= s@.len(),
    ensures
        match r {
            Some(n) => p_lit(s@, pos as int, lit@) == Some(n as int) && pos <= n <= s@.len(),
            None => p_lit(s@, pos as int, lit@) is None,
        },
{
    let ll = lit.unicode_len();
    let sl = s.unicode_len();
    if ll > sl - pos {
        return None;
    }
    let mut j: usize = 0;
    while j < ll
        invariant
            j <= ll,
            pos + ll <= sl,
            sl == s@.len(),
            ll == lit@.len(),
            forall|t: int| 0 <= t < j ==> s@[pos + t] == lit@[t],
        decreases ll - j,
    {
        if s.get_char(pos + j) != lit.get_char(j) {
            proof {
                assert(s@.subrange(pos as int, pos + ll) != lit@) by {
                    assert(s@.subrange(pos as int, pos + ll)[j as int] == s@[pos + j]);
                }
            }
            return None;
        }
        j += 1;
    }
    proof {
        assert(s@.subrange(pos as int, pos + ll) =~= lit@);
    }
    Some(pos + ll)
}

fn parse_digits(s: &str, i: usize, acc: u64) -> (r: Option<(u64, usize)>)
    requires
        i <= s@.len(),
    ensures
        match r {
            Some((v, n)) => p_digits(s@, i as int, acc) == Some((v, n as int)) && i <= n
                <= s@.len(),
            None => p_digits(s@, i as int, acc) is None,
        },
    decreases s@.len() - i,
{
    let sl = s.unicode_len();
    if i < sl {
        let c = s.get_char(i) as u32;
        if 48 <= c && c <= 57 {
            let d = (c - 48) as u64;
            if acc <= (0xffff_ffff_ffff_ffffu64 - d) / 10 {
                proof {
                    assert(acc * 10 + d <= 0xffff_ffff_ffff_ffff) by (nonlinear_arith)
                        requires
                            acc <= (0xffff_ffff_ffff_ffff - d) / 10,
                            d <= 9,
                    ;
                }
                parse_digits(s, i + 1, acc * 10 + d)
            } else {
                None
            }
        } else {
            Some((acc, i))
        }
    } else {
        Some((acc, i))
    }
}

fn parse_u64_at(s: &str, pos: usize) -> (r: Option<(u64, usize)>)
    requires
        pos <= s@.len(),
    ensures
        match r {
            Some((v, n)) => p_u64(s@, pos as int) == Some((v, n as int)) && pos < n <= s@.len(),
            None => p_u64(s@, pos as int) is None,
        },
{
    let sl = s.unicode_len();
    if pos >= sl {
        return None;
    }
    let c = s.get_char(pos) as u32;
    if !(48 <= c && c <= 57) {
        return None;
    }
    proof {
        lemma_p_digits_ge(s@, pos + 1, digit_val(s@[pos as int]) as u64);
    }
    parse_digits(s, pos, 0)
}

proof fn lemma_p_key_scan(s: Seq<char>, i: int, j: int)
    requires
        0 <= i <= j < s.len(),
        forall|t: int| i <= t < j ==> s[t] != '"',
        s[j] == '"',
    ensures
        p_key(s, i) == Some((s.subrange(i, j), j + 1)),
    decreases j - i,
{
    if i == j {
        assert(s.subrange(i, j) =~= Seq::<char>::empty());
    } else {
        lemma_p_key_scan(s, i + 1, j);
        assert(seq![s[i]] + s.subrange(i + 1, j) =~= s.subrange(i, j));
    }
}

proof fn lemma_p_key_none(s: Seq<char>, i: int)
    requires
        0 <= i <= s.len(),
        forall|t: int| i <= t < s.len() ==> s[t] != '"',
    ensures
        p_key(s, i) is None,
    decreases s.len() - i,
{
    if i < s.len() {
        lemma_p_key_none(s, i + 1);
    }
}

fn parse_key_at(s: &str, pos: usize) -> (r: Option<(String, usize)>)
    requires
        pos <= s@.len(),
    ensures
        match r {
            Some((k, n)) => p_key(s@, pos as int) == Some((k@, n as int)) && pos < n <= s@.len()
                && key_encodable(k@),
            None => p_key(s@, pos as int) is None,
        },
{
    let sl = s.unicode_len();
    let mut j: usize = pos;
    while j < sl
        invariant
            pos <= j <= sl,
            sl == s@.len(),
            forall|t: int| pos <= t < j ==> s@[t] != '"',
        decreases sl - j,
    {
        if s.get_char(j) == '"' {
            let k = s.substring_char(pos, j).to_owned();
            proof {
                lemma_p_key_scan(s@, pos as int, j as int);
                assert forall|t: int| 0 <= t < k@.len() implies k@[t] != '"' by {
                    assert(k@[t] == s@[pos + t]);
                }
            }
            return Some((k, j + 1));
        }
        j += 1;
    }
    proof {
        lemma_p_key_none(s@, pos as int);
    }
    None
}

fn parse_perc_more(s: &str, pos: usize) -> (r: Option<(Vec<u8>, usize)>)
    requires
        pos <= s@.len(),
    ensures
        match r {
            Some((v, n)) => p_perc_more(s@, pos as int) == Some((v@, n as int)) && pos < n
                <= s@.len(),
            None => p_perc_more(s@, pos as int) is None,
        },
    decreases s@.len() - pos,
{
    let sl = s.unicode_len();
    match parse_u64_at(s, pos) {
        Some((v, n)) => {
            if v <= 255 {
                if n < sl && s.get_char(n) == ']' {
                    let mut out: Vec<u8> = Vec::new();
                    out.push(v as u8);
                    proof {
                        assert(out@ =~= seq![v as u8]);
                    }
                    Some((out, n + 1))
                } else if n < sl && s.get_char(n) == ',' {
                    match parse_perc_more(s, n + 1) {
                        Some((rest, m)) => {
                            let mut out = rest;
                            out.insert(0, v as u8);
                            proof {
                                assert(out@ =~= seq![v as u8] + out@.skip(1));
                            }
                            Some((out, m))
                        },
                        None => None,
                    }
                } else {
                    None
                }
            } else {
                None
            }
        },
        None => None,
    }
}

fn parse_perceptual_at(s: &str, pos: usize) -> (r: Option<(Option<Vec<u8>>, usize)>)
    requires
        pos <= s@.len(),
    ensures
        match r {
            Some((p, n)) => p_perceptual(s@, pos as int) == Some(
                (
                    match p {
                        Some(v) => Some(v@),
                        None => None::<Seq<u8>>,
                    },
                    n as int,
                ),
            ) && pos < n <= s@.len(),
            None => p_perceptual(s@, pos as int) is None,
        },
{
    match match_lit(s, pos, "null") {
        Some(n) => {
            proof {
                reveal_strlit("null");
            }
            Some((None, n))
        },
        None => {
            let sl = s.unicode_len();
            if pos < sl && s.get_char(pos) == '[' {
                if pos + 1 < sl && s.get_char(pos + 1) == ']' {
                    let out: Vec<u8> = Vec::new();
                    proof {
                        assert(out@ =~= Seq::<u8>::empty());
                    }
                    Some((Some(out), pos + 2))
                } else {
                    match parse_perc_more(s, pos + 1) {
                        Some((bytes, n)) => Some((Some(bytes), n)),
                        None => None,
                    }
                }
            } else {
                None
            }
        },
    }
}

fn parse_semantic_hash_at(s: &str, pos: usize) -> (r: Option<(Option<SemanticHash>, usize)>)
    requires
        pos <= s@.len(),
    ensures
        match r {
            Some((h, n)) => p_semantic_hash(s@, pos as int) == Some(
                (
                    match h {
                        Some(h) => Some(h@),
                        None => None::<SemanticHashModel>,
                    },
                    n as int,
                ),
            ) && pos < n <= s@.len(),
            None => p_semantic_hash(s@, pos as int) is None,
        },
{
    match match_lit(s, pos, "null") {
        Some(n) => {
            proof {
                reveal_strlit("null");
            }
            Some((None, n))
        },
        None => match match_lit(s, pos, "{\"perceptual\":") {
            Some(n1) => match parse_perceptual_at(s, n1) {
                Some((perc, n2)) => match match_lit(s, n2, ",\"content\":") {
                    Some(n3) => match parse_u64_at(s, n3) {
                        Some((c, n4)) => {
                            let sl = s.unicode_len();
                            if n4 < sl && s.get_char(n4) == '}' {
                                Some((Some(SemanticHash { perceptual: perc, content: c }), n4 + 1))
                            } else {
                                None
                            }
                        },
                        None => None,
                    },
                    None => None,
                },
                None => None,
            },
            None => None,
        },
    }
}

fn parse_entry_at(s: &str, pos: usize) -> (r: Option<(CacheEntry, usize)>)
    requires
        pos <= s@.len(),
    ensures
        match r {
            Some((e, n)) => p_entry(s@, pos as int) == Some((e@, n as int)) && pos < n <= s@.len(),
            None => p_entry(s@, pos as int) is None,
        },
{
    match match_lit(s, pos, "{\"semantic_hash\":") {
        Some(n1) => match parse_semantic_hash_at(s, n1) {
            Some((sh, n2)) => match match_lit(s, n2, ",\"file_size\":") {
                Some(n3) => match parse_u64_at(s, n3) {
                    Some((fs, n4)) => match match_lit(s, n4, ",\"modified\":") {
                        Some(n5) => match parse_u64_at(s, n5) {
                            Some((mt, n6)) => {
                                let sl = s.unicode_len();
                                if n6 < sl && s.get_char(n6) == '}' {
                                    Some(
                                        (
                                            CacheEntry {
                                                semantic_hash: sh,
                                                file_size: fs,
                                                modified: mt,
                                            },
                                            n6 + 1,
                                        ),
                                    )
                                } else {
                                    None
                                }
                            },
                            None => None,
                        },
                        None => None,
                    },
                    None => None,
                },
                None => None,
            },
            None => None,
        },
        None => None,
    }
}

fn parse_kvs_more(s: &str, pos: usize) -> (r: Option<(Vec<(String, CacheEntry)>, usize)>)
    requires
        pos <= s@.len(),
    ensures
        match r {
            Some((cs, n)) => p_kvs_more(s@, pos as int) == Some((models_of(cs@), n as int)) && pos
                < n <= s@.len() && (forall|j: int|
                0 <= j < cs@.len() ==> key_encodable(#[trigger] cs@[j].0@)),
            None => p_kvs_more(s@, pos as int) is None,
        },
    decreases s@.len() - pos,
{
    let sl = s.unicode_len();
    if pos < sl && s.get_char(pos) == '"' {
        match parse_key_at(s, pos + 1) {
            Some((k, n1)) => match match_lit(s, n1, ":") {
                Some(n2) => match parse_entry_at(s, n2) {
                    Some((e, n3)) => {
                        if n3 < sl && s.get_char(n3) == '}' {
                            let mut cs: Vec<(String, CacheEntry)> = Vec::new();
                            cs.push((k, e));
                            proof {
                                assert(models_of(cs@) =~= seq![(cs@[0].0@, cs@[0].1@)]);
                            }
                            Some((cs, n3 + 1))
                        } else if n3 < sl && s.get_char(n3) == ',' {
                            match parse_kvs_more(s, n3 + 1) {
                                Some((rest, m)) => {
                                    let ghost rest_models = models_of(rest@);
                                    let ghost rest_seq = rest@;
                                    let mut cs = rest;
                                    cs.insert(0, (k, e));
                                    proof {
                                        assert(models_of(cs@) =~= seq![(cs@[0].0@, cs@[0].1@)]
                                            + rest_models);
                                        assert forall|j: int| 0 <= j < cs@.len() implies
                                            key_encodable(#[trigger] cs@[j].0@) by {
                                            if j > 0 {
                                                assert(cs@[j] == rest_seq[j - 1]);
                                            }
                                        }
                                    }
                                    Some((cs, m))
                                },
                                None => None,
                            }
                        } else {
                            None
                        }
                    },
                    None => None,
                },
                None => None,
            },
            None => None,
        }
    } else {
        None
    }
}

/// Parses one entry's text in full, as the remote backend stores it.
pub fn parse_entry_text(s: &str) -> (r: Option<CacheEntry>)
    ensures
        match r {
            Some(e) => parse_entry_spec(s@) == Some(e@),
            None => parse_entry_spec(s@) is None,
        },
{
    let sl = s.unicode_len();
    match parse_entry_at(s, 0) {
        Some((e, n)) => {
            if n == sl {
                Some(e)
            } else {
                None
            }
        },
        None => None,
    }
}

/// Parses a whole store file's text in full, into an entry list with
/// unique keys; on duplicate keys the later record wins.
pub fn parse_store_text(s: &str) -> (r: Option<Vec<(String, CacheEntry)>>)
    ensures
        match r {
            Some(cs) => unique_keys(cs@) && (parse_store_spec(s@) matches Some(ms)
                && assoc_view(cs@) == model_map(ms)) && (forall|k: Seq<char>|
                assoc_view(cs@).contains_key(k) ==> key_encodable(k)),
            None => parse_store_spec(s@) is None,
        },
{
    let sl = s.unicode_len();
    if sl == 0 || s.get_char(0) != '{' {
        return None;
    }
    if 1 < sl && s.get_char(1) == '}' {
        if sl == 2 {
            let cs: Vec<(String, CacheEntry)> = Vec::new();
            proof {
                assert(models_of(cs@) =~= Seq::<(Seq<char>, CacheEntryModel)>::empty());
                assert(assoc_view(cs@) =~= model_map(Seq::<(Seq<char>, CacheEntryModel)>::empty()));
                assert(forall|k: Seq<char>| !assoc_view(cs@).contains_key(k));
            }
            return Some(cs);
        } else {
            return None;
        }
    }
    match parse_kvs_more(s, 1) {
        Some((pairs, n)) => {
            if n != sl {
                return None;
            }
            let ghost ms = models_of(pairs@);
            let mut store: Vec<(String, CacheEntry)> = Vec::new();
            let total = pairs.len();
            let mut i: usize = 0;
            while i < total
                invariant
                    i <= total,
                    total == pairs@.len(),
                    ms == models_of(pairs@),
                    unique_keys(store@),
                    assoc_view(store@) == model_map(ms.take(i as int)),
                    forall|j: int| 0 <= j < pairs@.len() ==> key_encodable(#[trigger] pairs@[j].0@),
                    forall|k: Seq<char>| assoc_view(store@).contains_key(k) ==> key_encodable(k),
                decreases total - i,
            {
                let ghost before = assoc_view(store@);
                let entry = crate::enhanced_cache::clone_entry(&pairs[i].1);
                assoc_set(&mut store, pairs[i].0.as_str(), entry);
                proof {
                    assert(ms.take(i + 1).drop_last() =~= ms.take(i as int));
                    assert(ms.take(i + 1).last() == ms[i as int]);
                    assert forall|k: Seq<char>| assoc_view(store@).contains_key(k) implies
                        key_encodable(k) by {
                        if k != pairs@[i as int].0@ {
                            assert(before.contains_key(k));
                        }
                    }
                }
                i += 1;
            }
            proof {
                assert(ms.take(total as int) =~= ms);
            }
            Some(store)
        },
        None => None,
    }
}

/// Renders a whole entry list as the store file's text.
pub fn render_store_exec(cs: &Vec<(String, CacheEntry)>) -> (r: String)
    ensures
        r@ == render_store(models_of(cs@)),
{
    let mut out = String::new();
    out.append("{");
    append_kvs(&mut out, cs, 0);
    out.append("}");
    proof {
        reveal_strlit("{");
        reveal_strlit("}");
        assert("{"@ =~= seq!['{']);
        assert("}"@ =~= seq!['}']);
        assert(models_of(cs@).skip(0) =~= models_of(cs@));
        assert(out@ =~= render_store(models_of(cs@)));
    }
    out
}

// ---------------------------------------------------------------------
// The round trip: parsing a rendered store yields the original entries.
// ---------------------------------------------------------------------
/// `r` occurs in `s` at position `i`.
pub open spec fn matches_at(s: Seq<char>, i: int, r: Seq<char>) -> bool {
    0 <= i && i + r.len() <= s.len() && forall|j: int| 0 <= j < r.len() ==> s[i + j] == r[j]
}

proof fn lemma_matches_split(s: Seq<char>, i: int, a: Seq<char>, b: Seq<char>)
    requires
        matches_at(s, i, a + b),
    ensures
        matches_at(s, i, a),
        matches_at(s, i + a.len(), b),
{
    assert forall|j: int| 0 <= j < a.len() implies s[i + j] == a[j] by {
        assert((a + b)[j] == a[j]);
    }
    assert forall|j: int| 0 <= j < b.len() implies s[i + a.len() + j] == b[j] by {
        assert((a + b)[a.len() + j] == b[j]);
        assert(s[i + (a.len() + j)] == (a + b)[a.len() + j]);
    }
}

proof fn lemma_matches_index(s: Seq<char>, i: int, r: Seq<char>, j: int)
    requires
        matches_at(s, i, r),
        0 <= j < r.len(),
    ensures
        s[i + j] == r[j],
{
    assert(s[i + j] == r[j]) by {
        assert(r[j] == r[j]);
    }
}

proof fn lemma_matches_p_lit(s: Seq<char>, i: int, lit: Seq<char>)
    requires
        matches_at(s, i, lit),
    ensures
        p_lit(s, i, lit) == Some(i + lit.len()),
{
    assert(s.subrange(i, i + lit.len()) =~= lit);
}

pub open spec fn all_digits(d: Seq<char>) -> bool {
    forall|i: int| 0 <= i < d.len() ==> is_dec_digit(d[i])
}

/// The value that the digit characters of `d` accumulate onto `a`.
pub open spec fn foldl_val(a: int, d: Seq<char>) -> int
    decreases d.len(),
{
    if d.len() == 0 {
        a
    } else {
        foldl_val(a * 10 + digit_val(d[0]), d.skip(1))
    }
}

pub proof fn lemma_foldl_append(a: int, d: Seq<char>, c: char)
    ensures
        foldl_val(a, d.push(c)) == foldl_val(a, d) * 10 + digit_val(c),
    decreases d.len(),
{
    if d.len() == 0 {
        assert(d.push(c)[0] == c);
        assert(d.push(c).skip(1) =~= Seq::<char>::empty());
        assert(foldl_val(a, d.push(c)) == foldl_val(a * 10 + digit_val(c), d.push(c).skip(1)));
        assert(foldl_val(a * 10 + digit_val(c), Seq::<char>::empty()) == a * 10 + digit_val(c));
    } else {
        assert(d.push(c)[0] == d[0]);
        assert(d.push(c).skip(1) =~= d.skip(1).push(c));
        assert(foldl_val(a, d.push(c)) == foldl_val(a * 10 + digit_val(d[0]), d.skip(1).push(c)));
        lemma_foldl_append(a * 10 + digit_val(d[0]), d.skip(1), c);
        assert(foldl_val(a, d) == foldl_val(a * 10 + digit_val(d[0]), d.skip(1)));
    }
}

pub proof fn lemma_foldl_ge(a: int, d: Seq<char>)
    requires
        a >= 0,
        all_digits(d),
    ensures
        foldl_val(a, d) >= a,
    decreases d.len(),
{
    if d.len() > 0 {
        assert(is_dec_digit(d[0]));
        assert(all_digits(d.skip(1))) by {
            assert forall|i: int| 0 <= i < d.skip(1).len() implies is_dec_digit(d.skip(1)[i]) by {
                assert(d.skip(1)[i] == d[i + 1]);
            }
        }
        assert(foldl_val(a, d) == foldl_val(a * 10 + digit_val(d[0]), d.skip(1)));
        lemma_foldl_ge(a * 10 + digit_val(d[0]), d.skip(1));
    }
}

/// Folding digits splits at any cut point.
pub proof fn lemma_foldl_split(a: int, d: Seq<char>, k: int)
    requires
        0 <= k <= d.len(),
    ensures
        foldl_val(a, d) == foldl_val(foldl_val(a, d.take(k)), d.skip(k)),
    decreases d.len() - k,
{
    if k == 0 {
        assert(d.take(0) =~= Seq::<char>::empty());
        assert(d.skip(0) =~= d);
        assert(foldl_val(a, d.take(0)) == a);
    } else if k == d.len() {
        assert(d.skip(k) =~= Seq::<char>::empty());
        assert(foldl_val(foldl_val(a, d.take(k)), d.skip(k)) == foldl_val(a, d.take(k)));
        assert(d.take(k) =~= d);
        assert(d.skip(k) =~= Seq::<char>::empty());
    } else {
        lemma_foldl_split(a, d, k + 1);
        assert(d.take(k + 1) =~= d.take(k).push(d[k]));
        lemma_foldl_append(a, d.take(k), d[k]);
        assert(d.skip(k)[0] == d[k]);
        assert(d.skip(k).skip(1) =~= d.skip(k + 1));
        assert(foldl_val(foldl_val(a, d.take(k)), d.skip(k)) == foldl_val(
            foldl_val(a, d.take(k)) * 10 + digit_val(d[k]),
            d.skip(k + 1),
        ));
    }
}

proof fn lemma_dec_chars_digits(n: nat)
    ensures
        all_digits(crate::strutil::dec_chars(n)),
        crate::strutil::dec_chars(n).len() >= 1,
        foldl_val(0, crate::strutil::dec_chars(n)) == n,
    decreases n,
{
    let d = crate::strutil::dec_chars(n);
    if n < 10 {
        assert(is_dec_digit(crate::strutil::digit_char(n as int)));
        assert(d[0] == crate::strutil::digit_char(n as int));
        assert(d.skip(1) =~= Seq::<char>::empty());
        assert(digit_val(crate::strutil::digit_char(n as int)) == n);
        assert(foldl_val(0, d) == foldl_val(digit_val(d[0]), d.skip(1)));
        assert(foldl_val(digit_val(d[0]), Seq::<char>::empty()) == digit_val(d[0]));
    } else {
        lemma_dec_chars_digits(n / 10);
        let prev = crate::strutil::dec_chars(n / 10);
        let c = crate::strutil::digit_char((n % 10) as int);
        assert(is_dec_digit(c));
        assert(all_digits(prev.push(c))) by {
            assert forall|i: int| 0 <= i < prev.push(c).len() implies is_dec_digit(
                prev.push(c)[i],
            ) by {
                if i < prev.len() {
                    assert(prev.push(c)[i] == prev[i]);
                }
            }
        }
        lemma_foldl_append(0, prev, c);
        assert(digit_val(c) == n % 10);
    }
}

proof fn lemma_p_digits_consumes(s: Seq<char>, i: int, acc: u64, d: Seq<char>)
    requires
        matches_at(s, i, d),
        all_digits(d),
        i + d.len() == s.len() || !is_dec_digit(s[i + d.len()]),
        0 <= foldl_val(acc as int, d) <= 0xffff_ffff_ffff_ffff,
    ensures
        p_digits(s, i, acc) == Some((foldl_val(acc as int, d) as u64, i + d.len())),
    decreases d.len(),
{
    if d.len() == 0 {
    } else {
        assert(s[i] == d[0]);
        assert(is_dec_digit(d[0]));
        let dv = digit_val(d[0]);
        let acc2 = acc as int * 10 + dv;
        assert(all_digits(d.skip(1))) by {
            assert forall|t: int| 0 <= t < d.skip(1).len() implies is_dec_digit(d.skip(1)[t]) by {
                assert(d.skip(1)[t] == d[t + 1]);
            }
        }
        assert(foldl_val(acc as int, d) == foldl_val(acc2, d.skip(1)));
        lemma_foldl_ge(acc2, d.skip(1));
        assert(acc2 <= 0xffff_ffff_ffff_ffff);
        assert(acc as int <= (0xffff_ffff_ffff_ffff - dv) / 10) by (nonlinear_arith)
            requires
                acc as int * 10 + dv <= 0xffff_ffff_ffff_ffff,
                0 <= dv <= 9,
                acc >= 0,
        ;
        assert(matches_at(s, i + 1, d.skip(1))) by {
            assert forall|t: int| 0 <= t < d.skip(1).len() implies s[i + 1 + t] == d.skip(1)[t] by {
                assert(d.skip(1)[t] == d[t + 1]);
                assert(s[i + (t + 1)] == d[t + 1]);
            }
        }
        lemma_p_digits_consumes(s, i + 1, acc2 as u64, d.skip(1));
    }
}

proof fn lemma_rt_u64(s: Seq<char>, i: int, n: u64)
    requires
        matches_at(s, i, crate::strutil::dec_chars(n as nat)),
        i + crate::strutil::dec_chars(n as nat).len() == s.len() || !is_dec_digit(
            s[i + crate::strutil::dec_chars(n as nat).len()],
        ),
    ensures
        p_u64(s, i) == Some((n, i + crate::strutil::dec_chars(n as nat).len())),
{
    let d = crate::strutil::dec_chars(n as nat);
    lemma_dec_chars_digits(n as nat);
    assert(s[i] == d[0]);
    lemma_p_digits_consumes(s, i, 0, d);
}

proof fn lemma_rt_perc_more(s: Seq<char>, i: int, bytes: Seq<u8>)
    requires
        bytes.len() >= 1,
        matches_at(s, i, render_bytes(bytes)),
        i + render_bytes(bytes).len() < s.len(),
        s[i + render_bytes(bytes).len()] == ']',
    ensures
        p_perc_more(s, i) == Some((bytes, i + render_bytes(bytes).len() + 1)),
    decreases bytes.len(),
{
    let v = bytes[0];
    let d = crate::strutil::dec_chars(v as nat);
    lemma_dec_chars_digits(v as nat);
    if bytes.len() == 1 {
        assert(render_bytes(bytes) == d);
        lemma_rt_u64(s, i, v as u64);
        assert(seq![v] =~= bytes);
    } else {
        let rest = render_bytes(bytes.skip(1));
        assert(render_bytes(bytes) == d + seq![','] + rest);
        lemma_matches_split(s, i, d + seq![','], rest);
        lemma_matches_split(s, i, d, seq![',']);
        lemma_matches_index(s, i + d.len() as int, seq![','], 0);
        assert(s[i + d.len()] == ',');
        lemma_rt_u64(s, i, v as u64);
        assert(bytes.skip(1).len() >= 1);
        assert(i + d.len() + 1 + rest.len() == i + render_bytes(bytes).len());
        lemma_rt_perc_more(s, i + d.len() + 1, bytes.skip(1));
        assert(seq![v] + bytes.skip(1) =~= bytes);
    }
}

proof fn lemma_rt_perceptual(s: Seq<char>, i: int, p: Option<Seq<u8>>)
    requires
        matches_at(s, i, render_perceptual(p)),
    ensures
        p_perceptual(s, i) == Some((p, i + render_perceptual(p).len())),
{
    reveal_strlit("null");
    match p {
        None => {
            lemma_matches_p_lit(s, i, "null"@);
        },
        Some(bytes) => {
            let r = render_perceptual(p);
            assert(r[0] == '[');
            assert(s[i] == '[');
            assert(p_lit(s, i, "null"@) is None) by {
                if p_lit(s, i, "null"@) matches Some(_n) {
                    assert(s.subrange(i, i + 4)[0] == s[i]);
                }
            }
            if bytes.len() == 0 {
                assert(render_bytes(bytes) =~= Seq::<char>::empty());
                assert(r =~= seq!['[', ']']);
                assert(s[i + 1] == ']');
            } else {
                let rb = render_bytes(bytes);
                assert(r =~= seq!['['] + (rb + seq![']']));
                lemma_matches_split(s, i, seq!['['], rb + seq![']']);
                lemma_matches_split(s, i + 1, rb, seq![']']);
                lemma_matches_index(s, i + 1 + rb.len() as int, seq![']'], 0);
                assert(s[i + 1 + rb.len()] == ']');
                lemma_dec_chars_digits(bytes[0] as nat);
                assert(rb[0] == crate::strutil::dec_chars(bytes[0] as nat)[0]) by {
                    if bytes.len() == 1 {
                    } else {
                        assert(rb == crate::strutil::dec_chars(bytes[0] as nat) + seq![',']
                            + render_bytes(bytes.skip(1)));
                    }
                }
                assert(is_dec_digit(s[i + 1]));
                assert(s[i + 1] != ']');
                lemma_rt_perc_more(s, i + 1, bytes);
            }
        },
    }
}

proof fn lemma_rt_semantic_hash(s: Seq<char>, i: int, h: Option<SemanticHashModel>)
    requires
        matches_at(s, i, render_semantic_hash(h)),
    ensures
        p_semantic_hash(s, i) == Some((h, i + render_semantic_hash(h).len())),
{
    reveal_strlit("null");
    reveal_strlit("{\"perceptual\":");
    reveal_strlit(",\"content\":");
    match h {
        None => {
            lemma_matches_p_lit(s, i, "null"@);
        },
        Some(hm) => {
            let l1 = "{\"perceptual\":"@;
            let rp = render_perceptual(hm.perceptual);
            let l2 = ",\"content\":"@;
            let dc = crate::strutil::dec_chars(hm.content as nat);
            let r = render_semantic_hash(h);
            assert(r =~= l1 + (rp + (l2 + (dc + seq!['}']))));
            lemma_matches_split(s, i, l1, rp + (l2 + (dc + seq!['}'])));
            let n1 = i + l1.len();
            lemma_matches_split(s, n1, rp, l2 + (dc + seq!['}']));
            let n2 = n1 + rp.len();
            lemma_matches_split(s, n2, l2, dc + seq!['}']);
            let n3 = n2 + l2.len();
            lemma_matches_split(s, n3, dc, seq!['}']);
            let n4 = n3 + dc.len();
            assert(s[i] == l1[0]);
            assert(s[i] == '{');
            assert(p_lit(s, i, "null"@) is None) by {
                if p_lit(s, i, "null"@) matches Some(_n) {
                    assert(s.subrange(i, i + 4)[0] == s[i]);
                }
            }
            lemma_matches_p_lit(s, i, l1);
            lemma_rt_perceptual(s, n1, hm.perceptual);
            lemma_matches_p_lit(s, n2, l2);
            lemma_matches_index(s, n4, seq!['}'], 0);
            assert(s[n4] == '}');
            lemma_rt_u64(s, n3, hm.content);
            assert(SemanticHashModel { perceptual: hm.perceptual, content: hm.content } == hm);
        },
    }
}

proof fn lemma_rt_entry(s: Seq<char>, i: int, e: CacheEntryModel)
    requires
        matches_at(s, i, render_entry(e)),
    ensures
        p_entry(s, i) == Some((e, i + render_entry(e).len())),
{
    reveal_strlit("{\"semantic_hash\":");
    reveal_strlit(",\"file_size\":");
    reveal_strlit(",\"modified\":");
    let l1 = "{\"semantic_hash\":"@;
    let rs = render_semantic_hash(e.semantic_hash);
    let l2 = ",\"file_size\":"@;
    let df = crate::strutil::dec_chars(e.file_size as nat);
    let l3 = ",\"modified\":"@;
    let dm = crate::strutil::dec_chars(e.modified as nat);
    let r = render_entry(e);
    assert(r =~= l1 + (rs + (l2 + (df + (l3 + (dm + seq!['}']))))));
    lemma_matches_split(s, i, l1, rs + (l2 + (df + (l3 + (dm + seq!['}'])))));
    let n1 = i + l1.len();
    lemma_matches_split(s, n1, rs, l2 + (df + (l3 + (dm + seq!['}']))));
    let n2 = n1 + rs.len();
    lemma_matches_split(s, n2, l2, df + (l3 + (dm + seq!['}'])));
    let n3 = n2 + l2.len();
    lemma_matches_split(s, n3, df, l3 + (dm + seq!['}']));
    let n4 = n3 + df.len();
    lemma_matches_split(s, n4, l3, dm + seq!['}']);
    let n5 = n4 + l3.len();
    lemma_matches_split(s, n5, dm, seq!['}']);
    let n6 = n5 + dm.len();
    lemma_matches_p_lit(s, i, l1);
    lemma_rt_semantic_hash(s, n1, e.semantic_hash);
    lemma_matches_p_lit(s, n2, l2);
    lemma_matches_index(s, n4, l3, 0);
    assert(s[n4] == l3[0]);
    assert(!is_dec_digit(l3[0]));
    lemma_rt_u64(s, n3, e.file_size);
    lemma_matches_p_lit(s, n4, l3);
    lemma_matches_index(s, n6, seq!['}'], 0);
    assert(s[n6] == '}');
    lemma_rt_u64(s, n5, e.modified);
    assert(CacheEntryModel { semantic_hash: e.semantic_hash, file_size: e.file_size, modified: e.modified } == e);
}

#[verifier::rlimit(60)]
proof fn lemma_rt_kvs(s: Seq<char>, i: int, ms: Seq<(Seq<char>, CacheEntryModel)>)
    requires
        ms.len() >= 1,
        forall|j: int| 0 <= j < ms.len() ==> key_encodable(#[trigger] ms[j].0),
        matches_at(s, i, render_kvs(ms)),
        i + render_kvs(ms).len() < s.len(),
        s[i + render_kvs(ms).len()] == '}',
    ensures
        p_kvs_more(s, i) == Some((ms, i + render_kvs(ms).len() + 1)),
    decreases ms.len(),
{
    reveal_strlit(":");
    let k = ms[0].0;
    let e = ms[0].1;
    let kv = render_kv(k, e);
    let re = render_entry(e);
    assert(kv =~= seq!['"'] + (k + (seq!['"', ':'] + re)));
    assert(matches_at(s, i, kv)) by {
        if ms.len() == 1 {
        } else {
            assert(render_kvs(ms) =~= kv + (seq![','] + render_kvs(ms.skip(1))));
            lemma_matches_split(s, i, kv, seq![','] + render_kvs(ms.skip(1)));
        }
    }
    lemma_matches_split(s, i, seq!['"'], k + (seq!['"', ':'] + re));
    lemma_matches_split(s, i + 1, k, seq!['"', ':'] + re);
    let nk = i + 1 + k.len();
    lemma_matches_split(s, nk, seq!['"', ':'], re);
    let n2 = nk + 2;
    lemma_matches_index(s, i, seq!['"'], 0);
    assert(s[i] == '"');
    lemma_matches_index(s, nk, seq!['"', ':'], 0);
    assert(s[nk] == '"');
    assert(key_encodable(k));
    assert(forall|t: int| i + 1 <= t < nk ==> s[t] != '"') by {
        assert forall|t: int| i + 1 <= t < nk implies s[t] != '"' by {
            assert(s[i + 1 + (t - i - 1)] == k[t - i - 1]);
        }
    }
    lemma_p_key_scan(s, i + 1, nk);
    assert(s.subrange(i + 1, nk) =~= k);
    lemma_matches_index(s, nk, seq!['"', ':'], 1);
    assert(s[nk + 1] == ':');
    assert(matches_at(s, nk + 1, ":"@)) by {
        assert(":"@.len() == 1);
        assert(":"@[0] == ':');
    }
    lemma_matches_p_lit(s, nk + 1, ":"@);
    lemma_rt_entry(s, n2, e);
    let n3 = n2 + re.len();
    assert(n3 == i + kv.len());
    if ms.len() == 1 {
        assert(render_kvs(ms) == kv);
        assert(seq![(k, e)] =~= ms);
    } else {
        assert(render_kvs(ms) =~= kv + (seq![','] + render_kvs(ms.skip(1))));
        lemma_matches_split(s, i, kv, seq![','] + render_kvs(ms.skip(1)));
        lemma_matches_split(s, n3, seq![','], render_kvs(ms.skip(1)));
        lemma_matches_index(s, n3, seq![','], 0);
        assert(s[n3] == ',');
        assert(forall|j: int| 0 <= j < ms.skip(1).len() ==> key_encodable(
            #[trigger] ms.skip(1)[j].0,
        )) by {
            assert forall|j: int| 0 <= j < ms.skip(1).len() implies key_encodable(
                ms.skip(1)[j].0,
            ) by {
                assert(ms.skip(1)[j] == ms[j + 1]);
            }
        }
        assert(n3 + 1 + render_kvs(ms.skip(1)).len() == i + render_kvs(ms).len());
        lemma_rt_kvs(s, n3 + 1, ms.skip(1));
        assert(seq![(k, e)] + ms.skip(1) =~= ms);
    }
}

/// The store's text encoding round-trips: parsing a rendered entry list
/// yields exactly that list, for every list whose keys the encoding can
/// carry.
pub proof fn lemma_store_round_trip(ms: Seq<(Seq<char>, CacheEntryModel)>)
    requires
        forall|j: int| 0 <= j < ms.len() ==> key_encodable(#[trigger] ms[j].0),
    ensures
        parse_store_spec(render_store(ms)) == Some(ms),
{
    let s = render_store(ms);
    assert(s[0] == '{');
    if ms.len() == 0 {
        assert(render_kvs(ms) =~= Seq::<char>::empty());
        assert(s =~= seq!['{', '}']);
    } else {
        let kvs = render_kvs(ms);
        assert(matches_at(s, 1, kvs)) by {
            assert forall|j: int| 0 <= j < kvs.len() implies s[1 + j] == kvs[j] by {
                assert(s[1 + j] == (seq!['{'] + kvs + seq!['}'])[1 + j]);
            }
        }
        assert(s[1 + kvs.len() as int] == '}');
        assert(kvs[0] == '"') by {
            let kv = render_kv(ms[0].0, ms[0].1);
            assert(kv[0] == '"');
            if ms.len() == 1 {
            } else {
                assert(kvs == kv + seq![','] + render_kvs(ms.skip(1)));
            }
        }
        assert(s[1] == '"');
        assert(s[1] != '}');
        lemma_rt_kvs(s, 1, ms);
    }
}

/// One entry's text encoding round-trips, for every entry.
pub proof fn lemma_entry_round_trip(e: CacheEntryModel)
    ensures
        parse_entry_spec(render_entry(e)) == Some(e),
{
    let s = render_entry(e);
    assert(matches_at(s, 0, s));
    lemma_rt_entry(s, 0, e);
}

} // verus!
