//! The classifier: pure predicates deciding whether a path names an
//! image or an archive, plus the MIME type used when pages are handed
//! out as data URLs.
//!
//! A path is classified by the extension of its final `/`-separated
//! segment, compared case-insensitively (ASCII) against a fixed set;
//! file contents are never inspected.

use vstd::prelude::*;

verus! {

/// ASCII lowercasing of a single character; everything outside `A`..`Z`
/// is left unchanged.
pub open spec fn lower_char(c: char) -> char {
    match c {
        'A' => 'a',
        'B' => 'b',
        'C' => 'c',
        'D' => 'd',
        'E' => 'e',
        'F' => 'f',
        'G' => 'g',
        'H' => 'h',
        'I' => 'i',
        'J' => 'j',
        'K' => 'k',
        'L' => 'l',
        'M' => 'm',
        'N' => 'n',
        'O' => 'o',
        'P' => 'p',
        'Q' => 'q',
        'R' => 'r',
        'S' => 's',
        'T' => 't',
        'U' => 'u',
        'V' => 'v',
        'W' => 'w',
        'X' => 'x',
        'Y' => 'y',
        'Z' => 'z',
        _ => c,
    }
}

/// ASCII lowercasing of a character sequence.
pub open spec fn lower(s: Seq<char>) -> Seq<char> {
    s.map_values(|c: char| lower_char(c))
}

/// Index of the last occurrence of `c` in `s`, or `-1` when absent.
pub open spec fn last_index_of(s: Seq<char>, c: char) -> int
    decreases s.len(),
{
    if s.len() == 0 {
        -1
    } else if s.last() == c {
        s.len() - 1
    } else {
        last_index_of(s.drop_last(), c)
    }
}

/// The final `/`-separated segment of a path.
pub open spec fn basename_of(p: Seq<char>) -> Seq<char> {
    p.subrange(last_index_of(p, '/') + 1, p.len() as int)
}

/// The extension of a path: what follows the last `.` of the basename,
/// unless that `.` is the basename's first character (hidden files such
/// as `.gitignore` have no extension) or the basename has no `.` at all.
pub open spec fn extension_of(p: Seq<char>) -> Option<Seq<char>> {
    let b = basename_of(p);
    let j = last_index_of(b, '.');
    if j <= 0 {
        None
    } else {
        Some(b.subrange(j + 1, b.len() as int))
    }
}

/// The recognized raster-image extensions, compared in lower case.
pub open spec fn is_image_ext(e: Seq<char>) -> bool {
    let l = lower(e);
    ||| l == "jpg"@
    ||| l == "jpeg"@
    ||| l == "png"@
    ||| l == "gif"@
    ||| l == "webp"@
    ||| l == "bmp"@
    ||| l == "tiff"@
    ||| l == "tif"@
}

/// The recognized comic-archive extensions, compared in lower case.
pub open spec fn is_zip_ext(e: Seq<char>) -> bool {
    let l = lower(e);
    ||| l == "zip"@
    ||| l == "cbz"@
}

/// A path names an image iff it has an extension in the image set.
pub open spec fn is_image_path(p: Seq<char>) -> bool {
    extension_of(p) matches Some(e) && is_image_ext(e)
}

/// A path names a comic archive iff it has an extension in the archive set.
pub open spec fn is_zip_path(p: Seq<char>) -> bool {
    extension_of(p) matches Some(e) && is_zip_ext(e)
}

/// The MIME type served for a page, decided by its extension.
pub open spec fn mime_of(p: Seq<char>) -> Seq<char> {
    match extension_of(p) {
        Some(e) => {
            let l = lower(e);
            if l == "jpg"@ || l == "jpeg"@ {
                "image/jpeg"@
            } else if l == "png"@ {
                "image/png"@
            } else if l == "gif"@ {
                "image/gif"@
            } else if l == "webp"@ {
                "image/webp"@
            } else if l == "bmp"@ {
                "image/bmp"@
            } else if l == "tiff"@ || l == "tif"@ {
                "image/tiff"@
            } else {
                "application/octet-stream"@
            }
        },
        None => "application/octet-stream"@,
    }
}

/// A name is hidden when it starts with a dot; hidden entries are
/// skipped when directories and archives are listed.
pub open spec fn hidden_name(name: Seq<char>) -> bool {
    name.len() > 0 && name[0] == '.'
}

/// `s` begins with `p`.
pub open spec fn starts_with(s: Seq<char>, p: Seq<char>) -> bool {
    s.len() >= p.len() && s.subrange(0, p.len() as int) == p
}

/// Whether a name is hidden, mirroring [`hidden_name`].
pub fn is_hidden(name: &str) -> (r: bool)
    ensures
        r == hidden_name(name@),
{
    if name.unicode_len() == 0 {
        false
    } else {
        name.get_char(0) == '.'
    }
}

/// Whether `s` begins with the prefix `p`, mirroring [`starts_with`].
pub fn starts_with_str(s: &str, p: &str) -> (r: bool)
    ensures
        r == starts_with(s@, p@),
{
    let pn = p.unicode_len();
    let sn = s.unicode_len();
    if sn < pn {
        return false;
    }
    let mut k: usize = 0;
    while k < pn
        invariant
            k <= pn,
            pn == p@.len(),
            pn <= sn == s@.len(),
            forall|m: int| 0 <= m < k ==> s@[m] == p@[m],
        decreases pn - k,
    {
        if s.get_char(k) != p.get_char(k) {
            proof {
                assert(s@.subrange(0, p@.len() as int)[k as int] == s@[k as int]);
            }
            return false;
        }
        k = k + 1;
    }
    proof {
        assert(s@.subrange(0, p@.len() as int) =~= p@);
    }
    true
}

/// Executable ASCII lowercasing, mirroring [`lower_char`].
pub fn lower_char_exec(c: char) -> (r: char)
    ensures
        r == lower_char(c),
{
    match c {
        'A' => 'a',
        'B' => 'b',
        'C' => 'c',
        'D' => 'd',
        'E' => 'e',
        'F' => 'f',
        'G' => 'g',
        'H' => 'h',
        'I' => 'i',
        'J' => 'j',
        'K' => 'k',
        'L' => 'l',
        'M' => 'm',
        'N' => 'n',
        'O' => 'o',
        'P' => 'p',
        'Q' => 'q',
        'R' => 'r',
        'S' => 's',
        'T' => 't',
        'U' => 'u',
        'V' => 'v',
        'W' => 'w',
        'X' => 'x',
        'Y' => 'y',
        'Z' => 'z',
        _ => c,
    }
}

proof fn lemma_last_index_of_bounds(s: Seq<char>, c: char)
    ensures
        -1 <= last_index_of(s, c) < s.len(),
        last_index_of(s, c) >= 0 ==> s[last_index_of(s, c)] == c,
    decreases s.len(),
{
    if s.len() > 0 && s.last() != c {
        lemma_last_index_of_bounds(s.drop_last(), c);
    }
}

/// Executable search for the last occurrence of `c`, mirroring
/// [`last_index_of`].
pub(crate) fn last_index_of_exec(s: &str, c: char) -> (r: Option<usize>)
    ensures
        match r {
            Some(i) => i < s@.len() && last_index_of(s@, c) == i as int,
            None => last_index_of(s@, c) == -1,
        },
{
    let n = s.unicode_len();
    let mut i = n;
    proof {
        assert(s@.take(n as int) =~= s@);
    }
    loop
        invariant
            i <= n,
            n == s@.len(),
            last_index_of(s@, c) == last_index_of(s@.take(i as int), c),
        decreases i,
    {
        if i == 0 {
            proof {
                assert(s@.take(0) =~= Seq::<char>::empty());
            }
            return None;
        }
        let ch = s.get_char(i - 1);
        proof {
            assert(s@.take(i as int).last() == s@[i - 1]);
        }
        if ch == c {
            proof {
                assert(last_index_of(s@.take(i as int), c) == i - 1);
            }
            return Some(i - 1);
        }
        proof {
            assert(s@.take(i as int).drop_last() =~= s@.take(i - 1));
        }
        i = i - 1;
    }
}

/// The final `/`-separated segment of `s`, mirroring [`basename_of`].
pub fn basename_str(s: &str) -> (r: &str)
    ensures
        r@ == basename_of(s@),
{
    let n = s.unicode_len();
    match last_index_of_exec(s, '/') {
        Some(i) => s.substring_char(i + 1, n),
        None => {
            proof {
                assert(s@.subrange(0, s@.len() as int) =~= s@);
            }
            s
        },
    }
}

proof fn lemma_last_index_of_suffix(s: Seq<char>, a: int, c: char)
    requires
        0 <= a <= s.len(),
    ensures
        last_index_of(s.subrange(a, s.len() as int), c) == if last_index_of(s, c) >= a {
            last_index_of(s, c) - a
        } else {
            -1
        },
    decreases s.len(),
{
    lemma_last_index_of_bounds(s, c);
    let sub = s.subrange(a, s.len() as int);
    if a == s.len() {
        assert(sub =~= Seq::<char>::empty());
    } else {
        assert(sub.last() == s.last());
        if s.last() == c {
            assert(last_index_of(sub, c) == sub.len() - 1);
        } else {
            assert(sub.drop_last() =~= s.drop_last().subrange(a, s.drop_last().len() as int));
            lemma_last_index_of_suffix(s.drop_last(), a, c);
        }
    }
}

/// The character range `[start, end)` of the extension of `path`, when
/// one exists, in the sense of [`extension_of`].
fn extension_range(path: &str) -> (r: Option<(usize, usize)>)
    ensures
        match r {
            Some(p) => {
                &&& p.0 <= p.1 <= path@.len()
                &&& extension_of(path@) == Some(path@.subrange(p.0 as int, p.1 as int))
            },
            None => extension_of(path@) is None,
        },
{
    let n = path.unicode_len();
    let slash: Option<usize> = last_index_of_exec(path, '/');
    let dot: Option<usize> = last_index_of_exec(path, '.');
    let ghost ls = last_index_of(path@, '/');
    let ghost ld = last_index_of(path@, '.');
    proof {
        lemma_last_index_of_bounds(path@, '/');
        lemma_last_index_of_bounds(path@, '.');
        lemma_last_index_of_suffix(path@, ls + 1, '.');
        assert(basename_of(path@) == path@.subrange(ls + 1, path@.len() as int));
    }
    let base_start: usize = match slash {
        Some(i) => i + 1,
        None => 0,
    };
    match dot {
        Some(d) => {
            if d > base_start {
                proof {
                    let b = basename_of(path@);
                    assert(last_index_of(b, '.') == ld - (ls + 1));
                    assert(b.subrange(ld - ls, b.len() as int) =~= path@.subrange(
                        d + 1,
                        path@.len() as int,
                    ));
                }
                Some((d + 1, n))
            } else {
                proof {
                    assert(last_index_of(basename_of(path@), '.') <= 0);
                }
                None
            }
        },
        None => {
            proof {
                assert(last_index_of(basename_of(path@), '.') == -1);
            }
            None
        },
    }
}

/// Case-insensitive comparison of `path`'s characters in `[a, b)`
/// against the (already lower-case, ASCII) `target`.
fn range_eq_lower(path: &str, a: usize, b: usize, target: &str) -> (r: bool)
    requires
        a <= b <= path@.len(),
    ensures
        r == (lower(path@.subrange(a as int, b as int)) == target@),
{
    let tn = target.unicode_len();
    if b - a != tn {
        return false;
    }
    let mut k: usize = 0;
    while k < tn
        invariant
            k <= tn,
            tn == target@.len(),
            a <= b <= path@.len(),
            b - a == tn,
            forall|m: int| 0 <= m < k ==> lower_char(path@[a + m]) == target@[m],
        decreases tn - k,
    {
        let pc = lower_char_exec(path.get_char(a + k));
        let tc = target.get_char(k);
        if pc != tc {
            proof {
                let sub = path@.subrange(a as int, b as int);
                assert(lower(sub)[k as int] == lower_char(sub[k as int]));
                assert(sub[k as int] == path@[a + k]);
            }
            return false;
        }
        k = k + 1;
    }
    proof {
        let sub = path@.subrange(a as int, b as int);
        assert forall|m: int| 0 <= m < sub.len() implies lower(sub)[m] == target@[m] by {
            assert(lower(sub)[m] == lower_char(sub[m]));
            assert(sub[m] == path@[a + m]);
        }
        assert(lower(sub) =~= target@);
    }
    true
}

/// True iff the path names a recognized raster image, decided purely by
/// the (case-insensitive) extension of its final path segment.
pub fn is_image_file(path: &str) -> (r: bool)
    ensures
        r == is_image_path(path@),
{
    match extension_range(path) {
        Some(p) => {
            let (a, b) = p;
            ||| range_eq_lower(path, a, b, "jpg")
            ||| range_eq_lower(path, a, b, "jpeg")
            ||| range_eq_lower(path, a, b, "png")
            ||| range_eq_lower(path, a, b, "gif")
            ||| range_eq_lower(path, a, b, "webp")
            ||| range_eq_lower(path, a, b, "bmp")
            ||| range_eq_lower(path, a, b, "tiff")
            ||| range_eq_lower(path, a, b, "tif")
        },
        None => false,
    }
}

/// True iff the path names a comic archive (`.zip` / `.cbz`), decided
/// purely by the (case-insensitive) extension of its final path segment.
pub fn is_zip_file(path: &str) -> (r: bool)
    ensures
        r == is_zip_path(path@),
{
    match extension_range(path) {
        Some(p) => {
            let (a, b) = p;
            ||| range_eq_lower(path, a, b, "zip")
            ||| range_eq_lower(path, a, b, "cbz")
        },
        None => false,
    }
}

/// The MIME type for a page path, mirroring [`mime_of`].
pub fn get_mime_type(path: &str) -> (r: &'static str)
    ensures
        r@ == mime_of(path@),
{
    match extension_range(path) {
        Some(p) => {
            let (a, b) = p;
            if range_eq_lower(path, a, b, "jpg") || range_eq_lower(path, a, b, "jpeg") {
                "image/jpeg"
            } else if range_eq_lower(path, a, b, "png") {
                "image/png"
            } else if range_eq_lower(path, a, b, "gif") {
                "image/gif"
            } else if range_eq_lower(path, a, b, "webp") {
                "image/webp"
            } else if range_eq_lower(path, a, b, "bmp") {
                "image/bmp"
            } else if range_eq_lower(path, a, b, "tiff") || range_eq_lower(path, a, b, "tif") {
                "image/tiff"
            } else {
                "application/octet-stream"
            }
        },
        None => "application/octet-stream",
    }
}

} // verus!

