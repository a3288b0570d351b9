//! Input images: the decoded pixel buffer and which files count as images.
use vstd::prelude::*;

use crate::chars::{str_to_chars, vec_chars_eq};

verus! {

broadcast use vstd::seq_lib::group_seq_properties;

/// A decoded image as packed RGB bytes, row by row.
pub struct RgbImageData {
    pub data: Vec<u8>,
    pub width: usize,
    pub height: usize,
}

/// A path segment that names something: neither empty nor `.`.
pub open spec fn names_entry(seg: Seq<char>) -> bool {
    seg.len() > 0 && seg != seq!['.']
}

/// The last naming segment finished among the first `n` characters of a
/// path, and the segment begun.
pub open spec fn segment_scan(p: Seq<char>, n: int) -> (Option<Seq<char>>, Seq<char>)
    decreases n,
{
    if n <= 0 {
        (None, seq![])
    } else {
        let (last, cur) = segment_scan(p, n - 1);
        if p[n - 1] == '/' {
            (
                if names_entry(cur) {
                    Some(cur)
                } else {
                    last
                },
                seq![],
            )
        } else {
            (last, cur.push(p[n - 1]))
        }
    }
}

/// The last component of a `/`-separated path, as `Path::file_name` gives
/// it: empty segments and `.` are skipped, and `..` has no file name.
pub open spec fn file_name(p: Seq<char>) -> Option<Seq<char>> {
    let (last, cur) = segment_scan(p, p.len() as int);
    let seg = if names_entry(cur) {
        Some(cur)
    } else {
        last
    };
    match seg {
        Some(s) => if s == seq!['.', '.'] {
            None
        } else {
            Some(s)
        },
        None => None,
    }
}

/// The position of the last `.` in `s`.
pub open spec fn last_dot(s: Seq<char>) -> Option<int>
    decreases s.len(),
{
    if s.len() == 0 {
        None
    } else if s.last() == '.' {
        Some(s.len() - 1)
    } else {
        last_dot(s.drop_last())
    }
}

/// The extension of a file name, as `Path::extension` gives it: the text
/// after the last `.`, provided something comes before that `.`.
pub open spec fn name_extension(name: Seq<char>) -> Option<Seq<char>> {
    match last_dot(name) {
        Some(k) => if k > 0 {
            Some(name.skip(k + 1))
        } else {
            None
        },
        None => None,
    }
}

/// ASCII letters lowered, other characters kept.
pub open spec fn ascii_lower(s: Seq<char>) -> Seq<char> {
    s.map_values(|c: char| if 'A' <= c && c <= 'Z' { ((c as u32) + 32) as char } else { c })
}

/// The image extensions read as input, in lower case.
pub open spec fn supported_extensions() -> Seq<Seq<char>> {
    seq!["jpg"@, "jpeg"@, "png"@, "tiff"@, "tif"@, "jp2"@, "bmp"@]
}

/// Whether the path names a file whose extension, in ASCII lower case, is
/// one of [`supported_extensions`].
pub open spec fn spec_is_supported_image_path(p: Seq<char>) -> bool {
    match file_name(p) {
        Some(name) => match name_extension(name) {
            Some(ext) => supported_extensions().contains(ascii_lower(ext)),
            None => false,
        },
        None => false,
    }
}

fn last_named_segment(p: &Vec<char>) -> (res: Option<Vec<char>>)
    ensures
        res matches Some(v) ==> file_name(p@) == Some(v@),
        res is None ==> file_name(p@) is None,
{
    let mut last: Option<Vec<char>> = None;
    let mut cur: Vec<char> = Vec::new();
    let mut i: usize = 0;
    while i < p.len()
        invariant
            i <= p@.len(),
            ({
                let (l, c) = segment_scan(p@, i as int);
                &&& cur@ == c
                &&& (last matches Some(v) ==> l == Some(v@))
                &&& (last is None ==> l is None)
            }),
        decreases p.len() - i,
    {
        if p[i] == '/' {
            if cur.len() > 0 && !(cur.len() == 1 && cur[0] == '.') {
                proof {
                    assert(cur@ != seq!['.'] ==> names_entry(cur@));
                    if cur.len() == 1 {
                        assert(cur@ != seq!['.']) by {
                            if cur@ == seq!['.'] {
                                assert(cur@[0] == '.');
                            }
                        }
                    }
                }
                last = Some(cur);
            } else {
                proof {
                    if cur.len() == 1 {
                        assert(cur@ =~= seq!['.']);
                    }
                }
            }
            cur = Vec::new();
        } else {
            cur.push(p[i]);
        }
        i = i + 1;
    }
    let named = cur.len() > 0 && !(cur.len() == 1 && cur[0] == '.');
    proof {
        if cur.len() == 1 && cur[0] == '.' {
            assert(cur@ =~= seq!['.']);
        } else if cur.len() > 0 {
            assert(cur@ != seq!['.']) by {
                if cur@ == seq!['.'] {
                    assert(cur@[0] == '.');
                }
            }
        }
    }
    let seg = if named {
        Some(cur)
    } else {
        last
    };
    match seg {
        Some(s) => {
            let dots = crate::chars::chars2('.', '.');
            if vec_chars_eq(&s, &dots) {
                None
            } else {
                Some(s)
            }
        },
        None => None,
    }
}

fn extension_of(name: &Vec<char>) -> (res: Option<Vec<char>>)
    ensures
        res matches Some(v) ==> name_extension(name@) == Some(v@),
        res is None ==> name_extension(name@) is None,
{
    let mut k: usize = name.len();
    proof {
        assert(name@.take(name@.len() as int) =~= name@);
    }
    while k > 0 && name[k - 1] != '.'
        invariant
            k <= name@.len(),
            last_dot(name@) == last_dot(name@.take(k as int)),
        decreases k,
    {
        proof {
            assert(name@.take(k as int).drop_last() =~= name@.take(k - 1));
        }
        k = k - 1;
    }
    proof {
        if k > 0 {
            assert(name@.take(k as int).last() == '.');
        } else {
            assert(name@.take(0) =~= Seq::<char>::empty());
        }
    }
    if k > 1 {
        Some(crate::chars::slice_chars(name, k, name.len()))
    } else {
        None
    }
}

fn ascii_lower_chars(s: &Vec<char>) -> (res: Vec<char>)
    ensures
        res@ == ascii_lower(s@),
{
    let mut out: Vec<char> = Vec::new();
    let mut i: usize = 0;
    while i < s.len()
        invariant
            i <= s@.len(),
            out@ == ascii_lower(s@.take(i as int)),
        decreases s.len() - i,
    {
        let c = s[i];
        let l = if 'A' <= c && c <= 'Z' {
            ((c as u32) + 32) as u8 as char
        } else {
            c
        };
        proof {
            if 'A' <= c && c <= 'Z' {
                assert(((c as u32) + 32) as u8 as char == ((c as u32) + 32) as char);
            }
            assert(ascii_lower(s@.take(i + 1)) =~= ascii_lower(s@.take(i as int)).push(l));
        }
        out.push(l);
        i = i + 1;
    }
    proof {
        assert(s@.take(s@.len() as int) =~= s@);
    }
    out
}

fn is_supported_extension(lower: &Vec<char>) -> (r: bool)
    ensures
        r == supported_extensions().contains(lower@),
{
    let exts: [&str; 7] = ["jpg", "jpeg", "png", "tiff", "tif", "jp2", "bmp"];
    let ghost sup = supported_extensions();
    let mut i: usize = 0;
    while i < 7
        invariant
            i <= 7,
            sup == supported_extensions(),
            forall|k: int| 0 <= k < 7 ==> (#[trigger] exts@[k])@ == sup[k],
            forall|k: int| 0 <= k < i ==> sup[k] != lower@,
        decreases 7 - i,
    {
        if vec_chars_eq(lower, &str_to_chars(exts[i])) {
            proof {
                assert(sup[i as int] == lower@);
            }
            return true;
        }
        i = i + 1;
    }
    false
}

/// Whether `path` names an image file this program reads (see
/// [`spec_is_supported_image_path`]).
pub fn is_supported_image_extension(path: &str) -> (r: bool)
    ensures
        r == spec_is_supported_image_path(path@),
{
    let p = str_to_chars(path);
    match last_named_segment(&p) {
        Some(name) => match extension_of(&name) {
            Some(ext) => {
                let lower = ascii_lower_chars(&ext);
                is_supported_extension(&lower)
            },
            None => false,
        },
        None => false,
    }
}

} // verus!
