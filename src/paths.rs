//! Paths as text with `/` separators: joining, file names and extensions.
use vstd::prelude::*;
use crate::model::opt_view;
use crate::text::{chars_of, lower_of, lowercase, push_char, push_str, string_of};

verus! {

/// `name` appended to `base` as a new path component, as `Path::join` does for
/// a relative component: with a `/` between them unless `base` is empty or
/// already ends with one.
pub open spec fn join_path(base: Seq<char>, name: Seq<char>) -> Seq<char> {
    if base.len() == 0 {
        name
    } else if base.last() == '/' {
        base + name
    } else {
        base + seq!['/'] + name
    }
}

/// `name` appended to `base` as a new path component.
pub fn join(base: &str, name: &str) -> (r: String)
    ensures
        r@ == join_path(base@, name@),
{
    let mut out = String::new();
    push_str(&mut out, base);
    let n = base.unicode_len();
    if n > 0 && base.get_char(n - 1) != '/' {
        push_char(&mut out, '/');
    }
    push_str(&mut out, name);
    assert(Seq::<char>::empty() + base@ =~= base@);
    proof {
        if n == 0 {
            assert(base@ =~= Seq::<char>::empty());
            assert(out@ =~= name@);
        }
    }
    out
}


/// The position of the last `c` in `s`, if any.
pub open spec fn last_index_of(s: Seq<char>, c: char) -> Option<int>
    decreases s.len(),
{
    if s.len() == 0 {
        None
    } else if s.last() == c {
        Some(s.len() - 1)
    } else {
        last_index_of(s.drop_last(), c)
    }
}

/// `last_index_of` gives a position of `c` in `s`.
pub proof fn lemma_last_index_bounds(s: Seq<char>, c: char)
    ensures
        last_index_of(s, c) matches Some(i) ==> 0 <= i < s.len() && s[i] == c,
    decreases s.len(),
{
    if s.len() > 0 && s.last() != c {
        lemma_last_index_bounds(s.drop_last(), c);
    }
}

/// The last component of a path: what follows its last `/`.
pub open spec fn file_name_of(p: Seq<char>) -> Seq<char> {
    match last_index_of(p, '/') {
        Some(i) => p.skip(i + 1),
        None => p,
    }
}

/// The extension of a path: what follows the last `.` of its last component,
/// where that dot is not the component's first character; none for `..`.
pub open spec fn extension_of(p: Seq<char>) -> Option<Seq<char>> {
    let f = file_name_of(p);
    if f == seq!['.', '.'] {
        None
    } else {
        match last_index_of(f, '.') {
            Some(i) => if i > 0 {
                Some(f.skip(i + 1))
            } else {
                None
            },
            None => None,
        }
    }
}

fn find_last(s: &Vec<char>, c: char) -> (r: Option<usize>)
    ensures
        match last_index_of(s@, c) {
            Some(i) => r == Some(i as usize),
            None => r is None,
        },
        r matches Some(i) ==> i < s@.len(),
{
    let mut k: usize = s.len();
    assert(s@.subrange(0, k as int) == s@);
    while k > 0
        invariant
            k <= s.len(),
            last_index_of(s@, c) == last_index_of(s@.subrange(0, k as int), c),
        decreases k,
    {
        assert(s@.subrange(0, k as int).drop_last() == s@.subrange(0, k - 1));
        if s[k - 1] == c {
            return Some(k - 1);
        }
        k = k - 1;
    }
    None
}

fn skip_chars(s: &Vec<char>, from: usize) -> (r: Vec<char>)
    requires
        from <= s.len(),
    ensures
        r@ == s@.skip(from as int),
{
    let mut out: Vec<char> = Vec::new();
    let mut i: usize = from;
    while i < s.len()
        invariant
            from <= i <= s.len(),
            out@ == s@.subrange(from as int, i as int),
        decreases s.len() - i,
    {
        out.push(s[i]);
        assert(s@.subrange(from as int, i + 1) == s@.subrange(from as int, i as int).push(s@[i as int]));
        i = i + 1;
    }
    out
}

/// The last component of `path`.
pub fn file_name(path: &str) -> (r: String)
    ensures
        r@ == file_name_of(path@),
{
    let chars = chars_of(path);
    proof {
        lemma_last_index_bounds(path@, '/');
    }
    let f = match find_last(&chars, '/') {
        Some(i) => skip_chars(&chars, i + 1),
        None => chars,
    };
    string_of(&f)
}

/// The extension of `path`.
pub fn extension(path: &str) -> (r: Option<String>)
    ensures
        opt_view(r) == extension_of(path@),
{
    let chars = chars_of(path);
    proof {
        lemma_last_index_bounds(path@, '/');
    }
    let f = match find_last(&chars, '/') {
        Some(i) => skip_chars(&chars, i + 1),
        None => chars,
    };
    if f.len() == 2 && f[0] == '.' && f[1] == '.' {
        assert(f@ =~= seq!['.', '.']);
        return None;
    }
    assert(f@ != seq!['.', '.']) by {
        if f@ == seq!['.', '.'] {
            assert(f@.len() == 2 && f@[0] == '.' && f@[1] == '.');
        }
    }
    proof {
        lemma_last_index_bounds(f@, '.');
    }
    match find_last(&f, '.') {
        Some(i) => {
            if i > 0 {
                let e = skip_chars(&f, i + 1);
                Some(string_of(&e))
            } else {
                None
            }
        },
        None => None,
    }
}

/// The extension of `path`, lower-cased.
pub fn lower_extension(path: &str) -> (r: Option<String>)
    ensures
        opt_view(r) == lower_ext(path@),
{
    match extension(path) {
        Some(e) => Some(lowercase(e.as_str())),
        None => None,
    }
}

/// Relies on `Path::is_file`: whether a regular file stands at `path`. The
/// answer depends on the disk, so nothing is promised of it.
#[verifier::external_body]
pub(crate) fn is_regular_file(path: &str) -> (r: bool) {
    std::path::Path::new(path).is_file()
}

/// Relies on `Path::is_dir`: whether a directory stands at `path`. The answer
/// depends on the disk, so nothing is promised of it.
#[verifier::external_body]
pub(crate) fn is_directory(path: &str) -> (r: bool) {
    std::path::Path::new(path).is_dir()
}

/// The lower-cased extension of `p`, if it has one.
pub open spec fn lower_ext(p: Seq<char>) -> Option<Seq<char>> {
    match extension_of(p) {
        Some(e) => Some(lower_of(e)),
        None => None,
    }
}

} // verus!
