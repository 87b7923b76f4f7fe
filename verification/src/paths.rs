//! Paths of the in-memory file system, as text with `/` separators: joining a
//! component onto a path, a path's file name and extension, and which files
//! are C or C++ sources.
use vstd::prelude::*;
use vstd::string::*;

verus! {

/// `base` with `p` pushed onto it: an absolute `p` replaces `base`; else `p`
/// follows `base`, with a `/` between them unless `base` is empty or already
/// ends in one.
pub open spec fn push_path(base: Seq<char>, p: Seq<char>) -> Seq<char> {
    if p.len() > 0 && p[0] == '/' {
        p
    } else if base.len() == 0 || base.last() == '/' {
        base + p
    } else {
        base.push('/') + p
    }
}

/// Index of the last `c` in `s`, or -1.
pub open spec fn last_index_of(s: Seq<char>, c: char) -> int
    decreases s.len(),
{
    if s.len() == 0 {
        -1
    } else if s.last() == c {
        s.len() - 1
    } else {
        last_index_of(s.drop_last(), c)
    }
}

pub proof fn lemma_last_index_of_bounds(s: Seq<char>, c: char)
    ensures
        -1 <= last_index_of(s, c) < s.len(),
        last_index_of(s, c) >= 0 ==> s[last_index_of(s, c)] == c,
        forall|i: int| last_index_of(s, c) < i < s.len() ==> #[trigger] s[i] != c,
    decreases s.len(),
{
    if s.len() > 0 && s.last() != c {
        let t = s.drop_last();
        lemma_last_index_of_bounds(t, c);
        assert forall|i: int| last_index_of(s, c) < i < s.len() implies #[trigger] s[i] != c by {
            if i < s.len() - 1 {
                assert(s[i] == t[i]);
            }
        }
    }
}

/// The last component of a path that is a name: trailing separators and `.`
/// components are passed over; none when that component is `..` or there is none.
pub open spec fn file_name_of(s: Seq<char>) -> Option<Seq<char>>
    decreases s.len(),
{
    let k = last_index_of(s, '/');
    let seg = s.subrange(k + 1, s.len() as int);
    if seg.len() == 0 || seg == seq!['.'] {
        if k < 0 {
            None
        } else {
            proof {
                lemma_last_index_of_bounds(s, '/');
            }
            file_name_of(s.subrange(0, k))
        }
    } else if seg == seq!['.', '.'] {
        None
    } else {
        Some(seg)
    }
}

/// The extension of a file name: what follows its last `.`, when there is a
/// `.` that is not the name's first character.
pub open spec fn extension_of(name: Seq<char>) -> Option<Seq<char>> {
    let p = last_index_of(name, '.');
    if p <= 0 {
        None
    } else {
        Some(name.subrange(p + 1, name.len() as int))
    }
}

/// ASCII letters in lower case; other characters unchanged.
pub open spec fn ascii_lower(s: Seq<char>) -> Seq<char> {
    s.map_values(|c: char| if 'A' <= c && c <= 'Z' { ((c as u32) + 32) as char } else { c })
}

/// The extensions of C and C++ sources, in lower case.
pub open spec fn is_source_extension(e: Seq<char>) -> bool {
    let l = ascii_lower(e);
    l == seq!['c'] || l == seq!['c', 'c'] || l == seq!['c', 'p'] || l == seq!['c', 'p', 'p'] || l
        == seq!['c', 'x', 'x'] || l == seq!['c', '+', '+']
}

/// The path names a C or C++ source file.
pub open spec fn is_source_path(path: Seq<char>) -> bool {
    match file_name_of(path) {
        Some(name) => match extension_of(name) {
            Some(e) => is_source_extension(e),
            None => false,
        },
        None => false,
    }
}

/// `String::push`: `s` with `c` appended.
#[verifier::external_body]
fn string_push(s: &mut String, c: char)
    ensures
        final(s)@ == old(s)@.push(c),
{
    s.push(c)
}

/// The characters of a string.
fn chars_of(s: &str) -> (v: Vec<char>)
    ensures
        v@ == s@,
{
    let n = s.unicode_len();
    let mut v: Vec<char> = Vec::new();
    let mut i: usize = 0;
    while i < n
        invariant
            n == s@.len(),
            i <= n,
            v@ == s@.subrange(0, i as int),
        decreases n - i,
    {
        v.push(s.get_char(i));
        i = i + 1;
        assert(v@ =~= s@.subrange(0, i as int));
    }
    v
}

/// Push `p` onto the path `base` (the rules of `std::path::PathBuf::push` for `/` paths).
pub fn push_path_str(base: &str, p: &str) -> (r: String)
    ensures
        r@ == push_path(base@, p@),
{
    let bn = base.unicode_len();
    let pn = p.unicode_len();
    if pn > 0 && p.get_char(0) == '/' {
        return String::from_str(p);
    }
    let mut r = String::from_str(base);
    if bn != 0 && base.get_char(bn - 1) != '/' {
        string_push(&mut r, '/');
    }
    r.append(p);
    r
}

/// Index of the last `c` among `s[0..end]`, if there is one.
fn last_index_in(s: &Vec<char>, end: usize, c: char) -> (r: Option<usize>)
    requires
        end <= s@.len(),
    ensures
        r is None ==> last_index_of(s@.subrange(0, end as int), c) == -1,
        r is Some ==> last_index_of(s@.subrange(0, end as int), c) == r.unwrap() as int,
{
    let mut i: usize = end;
    while i > 0
        invariant
            i <= end <= s@.len(),
            last_index_of(s@.subrange(0, end as int), c) == last_index_of(s@.subrange(0, i as int), c),
        decreases i,
    {
        let ghost t = s@.subrange(0, i as int);
        assert(t.drop_last() =~= s@.subrange(0, i - 1));
        if s[i - 1] == c {
            return Some(i - 1);
        }
        i = i - 1;
    }
    None
}

proof fn lemma_subrange_of_subrange(s: Seq<char>, a: int, b: int)
    requires
        0 <= a <= b <= s.len(),
    ensures
        s.subrange(0, b).subrange(0, a) =~= s.subrange(0, a),
{
}

/// The characters `s[start..end]`.
fn slice_chars(s: &Vec<char>, start: usize, end: usize) -> (r: Vec<char>)
    requires
        start <= end <= s@.len(),
    ensures
        r@ == s@.subrange(start as int, end as int),
{
    let mut r: Vec<char> = Vec::new();
    let mut j: usize = start;
    while j < end
        invariant
            start <= j <= end <= s@.len(),
            r@ == s@.subrange(start as int, j as int),
        decreases end - j,
    {
        r.push(s[j]);
        j = j + 1;
        assert(r@ =~= s@.subrange(start as int, j as int));
    }
    r
}

/// The file name of a path (`std::path::Path::file_name` for `/` paths).
pub fn file_name(path: &str) -> (r: Option<Vec<char>>)
    ensures
        r is Some <==> file_name_of(path@) is Some,
        r is Some ==> r.unwrap()@ == file_name_of(path@).unwrap(),
{
    let s = chars_of(path);
    let mut end: usize = s.len();
    assert(s@.subrange(0, end as int) =~= s@);
    loop
        invariant
            end <= s@.len(),
            s@ == path@,
            file_name_of(path@) == file_name_of(s@.subrange(0, end as int)),
        decreases end,
    {
        let ghost t = s@.subrange(0, end as int);
        proof {
            lemma_last_index_of_bounds(t, '/');
        }
        let k = last_index_in(&s, end, '/');
        let start: usize = match k {
            Some(k) => k + 1,
            None => 0,
        };
        let seg_len = end - start;
        proof {
            assert(t.subrange(last_index_of(t, '/') + 1, t.len() as int) =~= s@.subrange(start as int, end as int));
        }
        let is_dot = seg_len == 1 && s[start] == '.';
        let is_dotdot = seg_len == 2 && s[start] == '.' && s[start + 1] == '.';
        proof {
            let seg = s@.subrange(start as int, end as int);
            if seg_len == 1 && seg[0] == '.' {
                assert(seg =~= seq!['.']);
            }
            if seg =~= seq!['.'] {
                assert(seg[0] == '.');
            }
            if seg_len == 2 && seg[0] == '.' && seg[1] == '.' {
                assert(seg =~= seq!['.', '.']);
            }
            if seg =~= seq!['.', '.'] {
                assert(seg[0] == '.' && seg[1] == '.');
            }
        }
        if seg_len == 0 || is_dot {
            match k {
                None => {
                    return None;
                },
                Some(k) => {
                    proof {
                        lemma_subrange_of_subrange(s@, k as int, end as int);
                    }
                    end = k;
                },
            }
        } else if is_dotdot {
            return None;
        } else {
            return Some(slice_chars(&s, start, end));
        }
    }
}

/// The extension of a file name (`std::path::Path::extension` of that name).
pub fn extension(name: &Vec<char>) -> (r: Option<Vec<char>>)
    ensures
        r is Some <==> extension_of(name@) is Some,
        r is Some ==> r.unwrap()@ == extension_of(name@).unwrap(),
{
    let n = name.len();
    assert(name@.subrange(0, n as int) =~= name@);
    match last_index_in(name, n, '.') {
        None => None,
        Some(p) => {
            if p == 0 {
                None
            } else {
                proof {
                    lemma_last_index_of_bounds(name@, '.');
                }
                Some(slice_chars(name, p + 1, n))
            }
        },
    }
}

/// Whether the extension is that of a C or C++ source, in any case.
pub fn is_source_ext(e: &Vec<char>) -> (r: bool)
    ensures
        r == is_source_extension(e@),
{
    let mut l: Vec<char> = Vec::new();
    let n = e.len();
    let mut i: usize = 0;
    while i < n
        invariant
            n == e@.len(),
            i <= n,
            l@ == ascii_lower(e@.subrange(0, i as int)),
        decreases n - i,
    {
        let c = e[i];
        let lc = if 'A' <= c && c <= 'Z' {
            ((c as u8) + 32) as char
        } else {
            c
        };
        l.push(lc);
        i = i + 1;
        assert(l@ =~= ascii_lower(e@.subrange(0, i as int)));
    }
    assert(e@.subrange(0, n as int) =~= e@);
    let m = l.len();
    let r = (m == 1 && l[0] == 'c') || (m == 2 && l[0] == 'c' && l[1] == 'c') || (m == 2 && l[0] == 'c' && l[1]
        == 'p') || (m == 3 && l[0] == 'c' && l[1] == 'p' && l[2] == 'p') || (m == 3 && l[0] == 'c' && l[1]
        == 'x' && l[2] == 'x') || (m == 3 && l[0] == 'c' && l[1] == '+' && l[2] == '+');
    proof {
        let v = l@;
        assert(v == seq!['c'] <==> (m == 1 && v[0] == 'c')) by {
            if m == 1 && v[0] == 'c' {
                assert(v =~= seq!['c']);
            }
        }
        assert(v == seq!['c', 'c'] <==> (m == 2 && v[0] == 'c' && v[1] == 'c')) by {
            if m == 2 && v[0] == 'c' && v[1] == 'c' {
                assert(v =~= seq!['c', 'c']);
            }
        }
        assert(v == seq!['c', 'p'] <==> (m == 2 && v[0] == 'c' && v[1] == 'p')) by {
            if m == 2 && v[0] == 'c' && v[1] == 'p' {
                assert(v =~= seq!['c', 'p']);
            }
        }
        assert(v == seq!['c', 'p', 'p'] <==> (m == 3 && v[0] == 'c' && v[1] == 'p' && v[2] == 'p')) by {
            if m == 3 && v[0] == 'c' && v[1] == 'p' && v[2] == 'p' {
                assert(v =~= seq!['c', 'p', 'p']);
            }
        }
        assert(v == seq!['c', 'x', 'x'] <==> (m == 3 && v[0] == 'c' && v[1] == 'x' && v[2] == 'x')) by {
            if m == 3 && v[0] == 'c' && v[1] == 'x' && v[2] == 'x' {
                assert(v =~= seq!['c', 'x', 'x']);
            }
        }
        assert(v == seq!['c', '+', '+'] <==> (m == 3 && v[0] == 'c' && v[1] == '+' && v[2] == '+')) by {
            if m == 3 && v[0] == 'c' && v[1] == '+' && v[2] == '+' {
                assert(v =~= seq!['c', '+', '+']);
            }
        }
    }
    r
}

/// Whether the path names a C or C++ source file: its file name has an
/// extension among `c`, `cc`, `cp`, `cpp`, `cxx`, `c++`, in any case.
pub fn is_source_file(path: &str) -> (r: bool)
    ensures
        r == is_source_path(path@),
{
    match file_name(path) {
        None => false,
        Some(name) => match extension(&name) {
            None => false,
            Some(e) => is_source_ext(&e),
        },
    }
}

} // verus!
