//! Character-level helpers on `String` and `str`.
use vstd::prelude::*;

verus! {

/// The characters of `s`, in order.
pub fn chars_of(s: &str) -> (r: Vec<char>)
    ensures
        r@ == s@,
{
    let mut out: Vec<char> = Vec::new();
    for c in it: s.chars()
        invariant
            out@ == it.seq().subrange(0, it.index() as int),
            it.seq() == s@,
    {
        out.push(c);
    }
    out
}

/// Relies on `String::push`: appends one character.
#[verifier::external_body]
pub(crate) fn push_char(s: &mut String, c: char)
    ensures
        final(s)@ == old(s)@.push(c),
{
    s.push(c)
}

/// Relies on `String::push_str`: appends the characters of `t`.
#[verifier::external_body]
pub(crate) fn push_str(s: &mut String, t: &str)
    ensures
        final(s)@ == old(s)@ + t@,
{
    s.push_str(t)
}

/// A `String` holding the characters of `v`.
pub fn string_of(v: &Vec<char>) -> (r: String)
    ensures
        r@ == v@,
{
    let mut out = String::new();
    for i in 0..v.len()
        invariant
            out@ == v@.subrange(0, i as int),
    {
        push_char(&mut out, v[i]);
        assert(v@.subrange(0, i + 1) == v@.subrange(0, i as int).push(v@[i as int]));
    }
    assert(v@.subrange(0, v.len() as int) == v@);
    out
}

} // verus!

verus! {

/// What `str::to_lowercase` returns for the characters `s`.
pub uninterp spec fn lower_of(s: Seq<char>) -> Seq<char>;

/// Relies on `str::to_lowercase`: the Unicode lower-case mapping, which
/// depends on the characters alone.
#[verifier::external_body]
pub(crate) fn lowercase(s: &str) -> (r: String)
    ensures
        r@ == lower_of(s@),
{
    s.to_lowercase()
}

} // verus!

verus! {

/// The characters with the Unicode `White_Space` property, which is what
/// `char::is_whitespace` tests.
pub open spec fn is_white_space(c: char) -> bool {
    let u = c as u32;
    (9 <= u <= 13) || u == 32 || u == 0x85 || u == 0xA0 || u == 0x1680 || (0x2000 <= u
        <= 0x200A) || u == 0x2028 || u == 0x2029 || u == 0x202F || u == 0x205F || u == 0x3000
}

/// Whether `c` is white space.
pub fn is_white_space_char(c: char) -> (r: bool)
    ensures
        r == is_white_space(c),
{
    let u = c as u32;
    (9 <= u && u <= 13) || u == 32 || u == 0x85 || u == 0xA0 || u == 0x1680 || (0x2000 <= u && u
        <= 0x200A) || u == 0x2028 || u == 0x2029 || u == 0x202F || u == 0x205F || u == 0x3000
}

/// `s` without leading white space.
pub open spec fn trim_start(s: Seq<char>) -> Seq<char>
    decreases s.len(),
{
    if s.len() > 0 && is_white_space(s[0]) {
        trim_start(s.drop_first())
    } else {
        s
    }
}

/// `s` without trailing white space.
pub open spec fn trim_end(s: Seq<char>) -> Seq<char>
    decreases s.len(),
{
    if s.len() > 0 && is_white_space(s.last()) {
        trim_end(s.drop_last())
    } else {
        s
    }
}

/// `s` without leading and trailing white space, as `str::trim` gives it.
pub open spec fn trim(s: Seq<char>) -> Seq<char> {
    trim_end(trim_start(s))
}

/// The characters of `s` without leading and trailing white space.
pub fn trim_chars(s: &Vec<char>) -> (r: Vec<char>)
    ensures
        r@ == trim(s@),
{
    let n = s.len();
    let mut a: usize = 0;
    assert(s@.subrange(0, n as int) == s@);
    while a < n && is_white_space_char(s[a])
        invariant
            a <= n,
            n == s@.len(),
            trim_start(s@) == trim_start(s@.subrange(a as int, n as int)),
        decreases n - a,
    {
        assert(s@.subrange(a as int, n as int).drop_first() == s@.subrange(a + 1, n as int));
        a = a + 1;
    }
    let ghost t = s@.subrange(a as int, n as int);
    assert(trim_start(s@) == t);
    let mut b: usize = n;
    while b > a && is_white_space_char(s[b - 1])
        invariant
            a <= b <= n,
            n == s@.len(),
            trim_end(t) == trim_end(s@.subrange(a as int, b as int)),
        decreases b,
    {
        assert(s@.subrange(a as int, b as int).drop_last() == s@.subrange(a as int, b - 1));
        b = b - 1;
    }
    let mut out: Vec<char> = Vec::new();
    let mut i: usize = a;
    while i < b
        invariant
            a <= i <= b,
            b <= n,
            n == s@.len(),
            out@ == s@.subrange(a as int, i as int),
        decreases b - i,
    {
        out.push(s[i]);
        assert(s@.subrange(a as int, i + 1) == s@.subrange(a as int, i as int).push(s@[i as int]));
        i = i + 1;
    }
    out
}

/// The lines of `s`: carriage returns dropped, then split at every line feed.
pub open spec fn lines_of(s: Seq<char>) -> Seq<Seq<char>>
    decreases s.len(),
{
    if s.len() == 0 {
        seq![Seq::empty()]
    } else {
        let prev = lines_of(s.drop_last());
        let c = s.last();
        if c == '\r' {
            prev
        } else if c == '\n' {
            prev.push(Seq::empty())
        } else {
            prev.update(prev.len() - 1, prev.last().push(c))
        }
    }
}

/// Every text has at least one line.
pub proof fn lemma_lines_nonempty(s: Seq<char>)
    ensures
        lines_of(s).len() > 0,
    decreases s.len(),
{
    if s.len() > 0 {
        lemma_lines_nonempty(s.drop_last());
    }
}

/// Splits text into lines, dropping carriage returns.
pub fn split_lines(s: &Vec<char>) -> (r: Vec<Vec<char>>)
    ensures
        r@.map_values(|l: Vec<char>| l@) == lines_of(s@),
{
    let mut done: Vec<Vec<char>> = Vec::new();
    let mut cur: Vec<char> = Vec::new();
    let n = s.len();
    for i in 0..n
        invariant
            n == s@.len(),
            done@.map_values(|l: Vec<char>| l@).push(cur@) == lines_of(s@.subrange(0, i as int)),
    {
        let ghost before = s@.subrange(0, i as int);
        assert(s@.subrange(0, i + 1).drop_last() == before);
        assert(s@.subrange(0, i + 1).last() == s@[i as int]);
        let c = s[i];
        if c == '\r' {
        } else if c == '\n' {
            let line = cur;
            cur = Vec::new();
            done.push(line);
        } else {
            cur.push(c);
        }
        proof {
            let v = done@.map_values(|l: Vec<char>| l@);
            assert(v.push(cur@) =~= lines_of(s@.subrange(0, i + 1)));
        }
    }
    assert(s@.subrange(0, n as int) == s@);
    done.push(cur);
    assert(done@.map_values(|l: Vec<char>| l@) =~= lines_of(s@));
    done
}

} // verus!

verus! {

/// `s` holds no line feed and no carriage return.
pub open spec fn is_single_line(s: Seq<char>) -> bool {
    forall|i: int| 0 <= i < s.len() ==> s[i] != '\n' && s[i] != '\r'
}

/// The lines `ls` joined with line feeds.
pub open spec fn join_lines(ls: Seq<Seq<char>>) -> Seq<char>
    decreases ls.len(),
{
    if ls.len() == 0 {
        Seq::empty()
    } else if ls.len() == 1 {
        ls[0]
    } else {
        join_lines(ls.drop_last()) + seq!['\n'] + ls.last()
    }
}

/// Text without line breaks appended to `u` extends its last line.
pub proof fn lemma_lines_extend(u: Seq<char>, t: Seq<char>)
    requires
        is_single_line(t),
    ensures
        lines_of(u).len() > 0,
        lines_of(u + t) == lines_of(u).update(lines_of(u).len() - 1, lines_of(u).last() + t),
    decreases t.len(),
{
    lemma_lines_nonempty(u);
    if t.len() == 0 {
        assert(u + t =~= u);
        assert(lines_of(u).last() + t =~= lines_of(u).last());
        assert(lines_of(u).update(lines_of(u).len() - 1, lines_of(u).last()) =~= lines_of(u));
    } else {
        let tp = t.drop_last();
        lemma_lines_extend(u, tp);
        assert((u + t).drop_last() =~= u + tp);
        assert((u + t).last() == t.last());
        let prev = lines_of(u + tp);
        assert(prev.update(prev.len() - 1, prev.last().push(t.last())) =~= lines_of(u).update(
            lines_of(u).len() - 1,
            lines_of(u).last() + t,
        )) by {
            let lu = lines_of(u);
            assert(prev.len() == lu.len());
            assert(prev.last() == lu.last() + tp);
            assert((lu.last() + tp).push(t.last()) =~= lu.last() + t);
        }
        assert(lines_of(u + t) == prev.update(prev.len() - 1, prev.last().push(t.last())));
    }
}

/// Joining lines without line breaks and splitting the result gives the lines
/// back.
pub proof fn lemma_lines_of_join(ls: Seq<Seq<char>>)
    requires
        ls.len() > 0,
        forall|i: int| 0 <= i < ls.len() ==> is_single_line(#[trigger] ls[i]),
    ensures
        lines_of(join_lines(ls)) == ls,
    decreases ls.len(),
{
    if ls.len() == 1 {
        lemma_lines_extend(Seq::empty(), ls[0]);
        assert(Seq::<char>::empty() + ls[0] =~= ls[0]);
        assert(lines_of(Seq::<char>::empty()) == seq![Seq::<char>::empty()]);
        assert(Seq::<char>::empty() + ls[0] =~= ls[0]);
        assert(seq![Seq::<char>::empty()].update(0, Seq::<char>::empty() + ls[0]) =~= ls);
    } else {
        let p = ls.drop_last();
        lemma_lines_of_join(p);
        let u = join_lines(p) + seq!['\n'];
        assert(u.drop_last() =~= join_lines(p));
        assert(lines_of(u) == lines_of(join_lines(p)).push(Seq::empty()));
        lemma_lines_extend(u, ls.last());
        assert(lines_of(u).update(lines_of(u).len() - 1, Seq::<char>::empty() + ls.last()) =~= ls);
    }
}

/// Every line of a text is free of line breaks.
pub proof fn lemma_lines_single(s: Seq<char>)
    ensures
        forall|i: int| 0 <= i < lines_of(s).len() ==> is_single_line(#[trigger] lines_of(s)[i]),
    decreases s.len(),
{
    lemma_lines_nonempty(s);
    if s.len() > 0 {
        lemma_lines_single(s.drop_last());
        lemma_lines_nonempty(s.drop_last());
        let prev = lines_of(s.drop_last());
        let c = s.last();
        if c != '\r' && c != '\n' {
            assert forall|i: int| 0 <= i < lines_of(s).len() implies is_single_line(#[trigger] lines_of(s)[i]) by {
                if i == prev.len() - 1 {
                    assert(is_single_line(prev[i]));
                    assert(lines_of(s)[i] == prev[i].push(c));
                } else {
                    assert(lines_of(s)[i] == prev[i]);
                }
            }
        } else if c == '\n' {
            assert forall|i: int| 0 <= i < lines_of(s).len() implies is_single_line(#[trigger] lines_of(s)[i]) by {
                if i < prev.len() {
                    assert(lines_of(s)[i] == prev[i]);
                }
            }
        }
    }
}

/// Trimming leaves a text alone whose first and last characters are not
/// white space.
pub proof fn lemma_trim_fixed(s: Seq<char>)
    requires
        s.len() > 0,
        !is_white_space(s[0]),
        !is_white_space(s.last()),
    ensures
        trim(s) == s,
{
}

} // verus!
