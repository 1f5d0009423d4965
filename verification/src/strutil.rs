//! String helpers shared across the library.
//!
//! Paths enter the library as plain strings, so the path notions the
//! library needs (file name, extension, stem, parent, joining) are defined
//! here over `Seq<char>` views, together with small verified executable
//! counterparts: equality, case-insensitive comparison, prefix tests and
//! decimal formatting of integers.

use vstd::prelude::*;
use vstd::string::*;

verus! {

/// Index of the last occurrence of `c` in `s`, or -1 when absent.
pub open spec fn last_index_of(s: Seq<char>, c: char) -> int
    decreases s.len(),
{
    if s.len() == 0 {
        -1
    } else if s[s.len() - 1] == c {
        s.len() - 1
    } else {
        last_index_of(s.drop_last(), c)
    }
}

pub proof fn lemma_last_index_of(s: Seq<char>, c: char)
    ensures
        -1 <= last_index_of(s, c) < s.len(),
        last_index_of(s, c) >= 0 ==> s[last_index_of(s, c)] == c,
        forall|j: int| last_index_of(s, c) < j < s.len() ==> s[j] != c,
    decreases s.len(),
{
    if s.len() > 0 && s[s.len() - 1] != c {
        lemma_last_index_of(s.drop_last(), c);
        assert forall|j: int| last_index_of(s, c) < j < s.len() implies s[j] != c by {
            if j < s.len() - 1 {
                assert(s.drop_last()[j] == s[j]);
            }
        }
    }
}

/// The file-name portion of a path: everything after the last `/`.
pub open spec fn file_name_of(p: Seq<char>) -> Seq<char> {
    p.subrange(last_index_of(p, '/') + 1, p.len() as int)
}

/// The extension of a path: the part of the file name after its last `.`,
/// provided that dot is not the file name's first character.
pub open spec fn extension_of(p: Seq<char>) -> Option<Seq<char>> {
    let name = file_name_of(p);
    let d = last_index_of(name, '.');
    if d <= 0 {
        None
    } else {
        Some(name.subrange(d + 1, name.len() as int))
    }
}

/// The stem of a path's file name (the name with its extension cut off),
/// or `unknown` when the path has no file name.
pub open spec fn stem_or_unknown(p: Seq<char>) -> Seq<char> {
    let name = file_name_of(p);
    if name.len() == 0 {
        "unknown"@
    } else {
        let d = last_index_of(name, '.');
        if d <= 0 {
            name
        } else {
            name.subrange(0, d)
        }
    }
}

/// The directory portion of a path: everything before the last `/`
/// (the root stays `/`); empty when the path holds no `/`.
pub open spec fn parent_of(p: Seq<char>) -> Seq<char> {
    let d = last_index_of(p, '/');
    if d < 0 {
        Seq::<char>::empty()
    } else if d == 0 {
        seq!['/']
    } else {
        p.subrange(0, d)
    }
}

/// Joining of two path strings; empty parts are neutral and exactly one
/// `/` separates non-empty parts.
pub open spec fn join_paths(a: Seq<char>, b: Seq<char>) -> Seq<char> {
    if a.len() == 0 {
        b
    } else if b.len() == 0 {
        a
    } else if a[a.len() - 1] == '/' {
        a + b
    } else {
        a + seq!['/'] + b
    }
}

/// A path with its leading `/` removed, if it has one.
pub open spec fn strip_leading_slash(p: Seq<char>) -> Seq<char> {
    if p.len() > 0 && p[0] == '/' {
        p.subrange(1, p.len() as int)
    } else {
        p
    }
}

/// A path with its extension replaced by (or extended with) `ext`.
pub open spec fn with_extension(p: Seq<char>, ext: Seq<char>) -> Seq<char> {
    let cut = match extension_of(p) {
        Some(e) => p.len() - e.len() - 1,
        None => p.len() as int,
    };
    p.subrange(0, cut) + seq!['.'] + ext
}

/// ASCII lowercase of a character's code point.
pub open spec fn lower_code(c: char) -> u32 {
    if 65 <= c as u32 <= 90 {
        (c as u32 + 32) as u32
    } else {
        c as u32
    }
}

/// Equality of two character sequences up to ASCII case.
pub open spec fn eq_ignore_case(a: Seq<char>, b: Seq<char>) -> bool {
    a.len() == b.len() && forall|i: int| 0 <= i < a.len() ==> lower_code(a[i]) == lower_code(b[i])
}

pub open spec fn is_prefix_of(p: Seq<char>, s: Seq<char>) -> bool {
    p.len() <= s.len() && forall|i: int| 0 <= i < p.len() ==> s[i] == p[i]
}

/// Character equality of two string slices.
pub fn str_eq(a: &str, b: &str) -> (r: bool)
    ensures
        r == (a@ == b@),
{
    let alen = a.unicode_len();
    let blen = b.unicode_len();
    if alen != blen {
        return false;
    }
    let mut i: usize = 0;
    while i < alen
        invariant
            i <= alen,
            alen == a@.len(),
            alen == b@.len(),
            forall|j: int| 0 <= j < i ==> a@[j] == b@[j],
        decreases alen - i,
    {
        if a.get_char(i) != b.get_char(i) {
            return false;
        }
        i += 1;
    }
    proof {
        assert(a@ =~= b@);
    }
    true
}

/// Character equality of two string slices up to ASCII case.
pub fn str_eq_ignore_case(a: &str, b: &str) -> (r: bool)
    ensures
        r == eq_ignore_case(a@, b@),
{
    let alen = a.unicode_len();
    let blen = b.unicode_len();
    if alen != blen {
        return false;
    }
    let mut i: usize = 0;
    while i < alen
        invariant
            i <= alen,
            alen == a@.len(),
            alen == b@.len(),
            forall|j: int| 0 <= j < i ==> lower_code(a@[j]) == lower_code(b@[j]),
        decreases alen - i,
    {
        let ca = a.get_char(i) as u32;
        let cb = b.get_char(i) as u32;
        let la = if 65 <= ca && ca <= 90 {
            ca + 32
        } else {
            ca
        };
        let lb = if 65 <= cb && cb <= 90 {
            cb + 32
        } else {
            cb
        };
        if la != lb {
            return false;
        }
        i += 1;
    }
    true
}

/// Whether `s` starts with `prefix`, character for character.
pub fn str_starts_with(s: &str, prefix: &str) -> (r: bool)
    ensures
        r == is_prefix_of(prefix@, s@),
{
    let slen = s.unicode_len();
    let plen = prefix.unicode_len();
    if plen > slen {
        return false;
    }
    let mut i: usize = 0;
    while i < plen
        invariant
            i <= plen,
            plen <= slen,
            slen == s@.len(),
            plen == prefix@.len(),
            forall|j: int| 0 <= j < i ==> s@[j] == prefix@[j],
        decreases plen - i,
    {
        if s.get_char(i) != prefix.get_char(i) {
            return false;
        }
        i += 1;
    }
    true
}

/// Index of the last occurrence of `c` in `s`, as an executable search.
pub fn find_last(s: &str, c: char) -> (r: Option<usize>)
    ensures
        match r {
            Some(i) => i == last_index_of(s@, c),
            None => last_index_of(s@, c) == -1,
        },
{
    proof {
        lemma_last_index_of(s@, c);
    }
    let n = s.unicode_len();
    let mut i: usize = n;
    while i > 0
        invariant
            i <= n,
            n == s@.len(),
            forall|j: int| i <= j < n ==> s@[j] != c,
        decreases i,
    {
        i -= 1;
        if s.get_char(i) == c {
            proof {
                lemma_last_index_of(s@, c);
                if last_index_of(s@, c) < i {
                    assert(s@[i as int] != c);
                }
                if last_index_of(s@, c) > i {
                    assert(s@[last_index_of(s@, c)] != c);
                }
            }
            return Some(i);
        }
    }
    None
}

/// The extension of a path, as an executable search.
pub fn path_extension(p: &str) -> (r: Option<String>)
    ensures
        match r {
            Some(e) => extension_of(p@) == Some(e@),
            None => extension_of(p@) is None,
        },
{
    let n = p.unicode_len();
    let start: usize = match find_last(p, '/') {
        Some(i) => {
            proof {
                lemma_last_index_of(p@, '/');
            }
            i + 1
        },
        None => 0,
    };
    let name = p.substring_char(start, n);
    proof {
        assert(name@ =~= file_name_of(p@));
    }
    let nn = name.unicode_len();
    match find_last(name, '.') {
        Some(d) => {
            if d > 0 {
                proof {
                    lemma_last_index_of(name@, '.');
                }
                Some(name.substring_char(d + 1, nn).to_owned())
            } else {
                None
            }
        },
        None => None,
    }
}

/// Joining of two path strings, as an executable operation.
pub fn join_paths_exec(a: &str, b: &str) -> (r: String)
    ensures
        r@ == join_paths(a@, b@),
{
    let alen = a.unicode_len();
    let blen = b.unicode_len();
    if alen == 0 {
        return b.to_owned();
    }
    if blen == 0 {
        return a.to_owned();
    }
    let mut out = a.to_owned();
    if a.get_char(alen - 1) != '/' {
        out.append("/");
        proof {
            reveal_strlit("/");
            assert("/"@ =~= seq!['/']);
        }
    }
    out.append(b);
    proof {
        if a@[alen - 1] == '/' {
            assert(out@ =~= join_paths(a@, b@));
        } else {
            assert(out@ =~= (a@ + seq!['/']) + b@);
            assert((a@ + seq!['/']) + b@ =~= a@ + seq!['/'] + b@);
        }
    }
    out
}

/// A path with its leading `/` removed, as an executable operation.
pub fn strip_leading_slash_exec<'a>(p: &'a str) -> (r: &'a str)
    ensures
        r@ == strip_leading_slash(p@),
{
    let n = p.unicode_len();
    if n > 0 && p.get_char(0) == '/' {
        p.substring_char(1, n)
    } else {
        p
    }
}

/// The directory portion of a path, as an executable operation.
pub fn parent_of_exec(p: &str) -> (r: String)
    ensures
        r@ == parent_of(p@),
{
    match find_last(p, '/') {
        None => String::new(),
        Some(d) => {
            if d == 0 {
                proof {
                    reveal_strlit("/");
                    assert("/"@ =~= seq!['/']);
                }
                "/".to_owned()
            } else {
                proof {
                    lemma_last_index_of(p@, '/');
                }
                p.substring_char(0, d).to_owned()
            }
        },
    }
}

/// The stem of a path's file name, as an executable operation.
pub fn stem_or_unknown_exec(p: &str) -> (r: String)
    ensures
        r@ == stem_or_unknown(p@),
{
    let n = p.unicode_len();
    let start: usize = match find_last(p, '/') {
        Some(i) => {
            proof {
                lemma_last_index_of(p@, '/');
            }
            i + 1
        },
        None => 0,
    };
    let name = p.substring_char(start, n);
    proof {
        assert(name@ =~= file_name_of(p@));
    }
    let nn = name.unicode_len();
    if nn == 0 {
        return "unknown".to_owned();
    }
    match find_last(name, '.') {
        Some(d) => {
            if d > 0 {
                proof {
                    lemma_last_index_of(name@, '.');
                }
                name.substring_char(0, d).to_owned()
            } else {
                name.to_owned()
            }
        },
        None => name.to_owned(),
    }
}

/// A path with its extension replaced by `ext`, as an executable
/// operation.
pub fn with_extension_exec(p: &str, ext: &str) -> (r: String)
    ensures
        r@ == with_extension(p@, ext@),
{
    let n = p.unicode_len();
    let start: usize = match find_last(p, '/') {
        Some(i) => {
            proof {
                lemma_last_index_of(p@, '/');
            }
            i + 1
        },
        None => 0,
    };
    let name = p.substring_char(start, n);
    proof {
        assert(name@ =~= file_name_of(p@));
    }
    let cut: usize = match find_last(name, '.') {
        Some(d) => {
            if d > 0 {
                proof {
                    lemma_last_index_of(name@, '.');
                }
                start + d
            } else {
                n
            }
        },
        None => n,
    };
    let mut out = p.substring_char(0, cut).to_owned();
    out.append(".");
    out.append(ext);
    proof {
        reveal_strlit(".");
        assert("."@ =~= seq!['.']);
        assert(out@ =~= with_extension(p@, ext@));
    }
    out
}

/// The decimal digit characters of `n`, most significant first.
pub open spec fn dec_chars(n: nat) -> Seq<char>
    decreases n,
{
    if n < 10 {
        seq![digit_char(n as int)]
    } else {
        dec_chars(n / 10).push(digit_char((n % 10) as int))
    }
}

/// The character for one decimal digit.
pub open spec fn digit_char(d: int) -> char {
    if d == 0 {
        '0'
    } else if d == 1 {
        '1'
    } else if d == 2 {
        '2'
    } else if d == 3 {
        '3'
    } else if d == 4 {
        '4'
    } else if d == 5 {
        '5'
    } else if d == 6 {
        '6'
    } else if d == 7 {
        '7'
    } else if d == 8 {
        '8'
    } else {
        '9'
    }
}

fn digit_str(d: u64) -> (s: &'static str)
    requires
        d < 10,
    ensures
        s@ =~= seq![digit_char(d as int)],
{
    proof {
        reveal_strlit("0");
        reveal_strlit("1");
        reveal_strlit("2");
        reveal_strlit("3");
        reveal_strlit("4");
        reveal_strlit("5");
        reveal_strlit("6");
        reveal_strlit("7");
        reveal_strlit("8");
        reveal_strlit("9");
    }
    if d == 0 {
        "0"
    } else if d == 1 {
        "1"
    } else if d == 2 {
        "2"
    } else if d == 3 {
        "3"
    } else if d == 4 {
        "4"
    } else if d == 5 {
        "5"
    } else if d == 6 {
        "6"
    } else if d == 7 {
        "7"
    } else if d == 8 {
        "8"
    } else {
        "9"
    }
}

/// Decimal rendering of a 64-bit integer.
pub fn u64_to_string(n: u64) -> (s: String)
    ensures
        s@ == dec_chars(n as nat),
    decreases n,
{
    if n < 10 {
        digit_str(n).to_owned()
    } else {
        let mut s = u64_to_string(n / 10);
        s.append(digit_str(n % 10));
        proof {
            assert(s@ =~= dec_chars((n / 10) as nat).push(digit_char((n % 10) as int)));
        }
        s
    }
}

} // verus!
