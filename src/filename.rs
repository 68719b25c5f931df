//! Destination file names built from a template.
use vstd::prelude::*;
use crate::model::{OsuBeatmapInfoHolderSimple, clone_opt_string, opt_view};
use crate::paths::{join, join_path};
use crate::text::{chars_of, push_char, push_str, string_of};

verus! {

/// The character of the decimal digit `d`.
pub open spec fn digit_char(d: nat) -> char {
    if d == 0 { '0' } else if d == 1 { '1' } else if d == 2 { '2' } else if d == 3 { '3' }
    else if d == 4 { '4' } else if d == 5 { '5' } else if d == 6 { '6' } else if d == 7 { '7' }
    else if d == 8 { '8' } else { '9' }
}

/// The decimal digits of `n`, most significant first, without leading zeros.
pub open spec fn decimal(n: nat) -> Seq<char>
    decreases n,
{
    if n < 10 {
        seq![digit_char(n)]
    } else {
        decimal(n / 10).push(digit_char(n % 10))
    }
}

fn digit(d: u64) -> (c: char)
    requires
        d < 10,
    ensures
        c == digit_char(d as nat),
{
    if d == 0 { '0' } else if d == 1 { '1' } else if d == 2 { '2' } else if d == 3 { '3' }
    else if d == 4 { '4' } else if d == 5 { '5' } else if d == 6 { '6' } else if d == 7 { '7' }
    else if d == 8 { '8' } else { '9' }
}

/// Appends the decimal digits of `n`.
pub fn push_decimal(out: &mut String, n: u64)
    ensures
        final(out)@ == old(out)@ + decimal(n as nat),
    decreases n,
{
    if n >= 10 {
        push_decimal(out, n / 10);
    }
    push_char(out, digit(n % 10));
    proof {
        if n < 10 {
            assert(decimal(n as nat) == seq![digit_char(n as nat)]);
        }
    }
    assert(final(out)@ =~= old(out)@ + decimal(n as nat));
}

/// What a `%` followed by `d` stands for: the artist, the title, the set id,
/// nothing for `/`, and `d` itself for any other character.
pub open spec fn directive(d: char, title: Seq<char>, artist: Seq<char>, id: u64) -> Seq<char> {
    if d == 'a' {
        artist
    } else if d == 't' {
        title
    } else if d == 'i' {
        decimal(id as nat)
    } else if d == '/' {
        Seq::empty()
    } else {
        seq![d]
    }
}

/// The template with its directives replaced and its `/` dropped; a `%` at
/// the very end stays.
pub open spec fn substitute(t: Seq<char>, title: Seq<char>, artist: Seq<char>, id: u64) -> Seq<char>
    decreases t.len(),
{
    if t.len() == 0 {
        Seq::empty()
    } else if t[0] == '%' {
        substitute_directive(t.drop_first(), title, artist, id)
    } else if t[0] == '/' {
        substitute(t.drop_first(), title, artist, id)
    } else {
        seq![t[0]] + substitute(t.drop_first(), title, artist, id)
    }
}

/// `substitute` on what follows a `%`.
pub open spec fn substitute_directive(
    rest: Seq<char>,
    title: Seq<char>,
    artist: Seq<char>,
    id: u64,
) -> Seq<char>
    decreases rest.len(), 1nat,
{
    if rest.len() == 0 {
        seq!['%']
    } else {
        directive(rest[0], title, artist, id) + substitute(rest.drop_first(), title, artist, id)
    }
}

/// Characters that file names drop: `< > : " / \ | ? * '`.
pub open spec fn is_forbidden(c: char) -> bool {
    c == '<' || c == '>' || c == ':' || c == '"' || c == '/' || c == '\\' || c == '|' || c == '?'
        || c == '*' || c == '\''
}

/// `s` without its forbidden characters.
pub open spec fn sanitize(s: Seq<char>) -> Seq<char>
    decreases s.len(),
{
    if s.len() == 0 {
        s
    } else if is_forbidden(s.last()) {
        sanitize(s.drop_last())
    } else {
        sanitize(s.drop_last()).push(s.last())
    }
}

/// The file name of a record with the extension `ext`: the substituted
/// template without forbidden characters, then a dot and `ext` if there is
/// one.
pub open spec fn file_name_with(
    r: OsuBeatmapInfoHolderSimple,
    template: Seq<char>,
    ext: Option<Seq<char>>,
) -> Seq<char> {
    let base = sanitize(substitute(template, r.info.title@, r.info.artist@, r.beatmapset_id));
    match ext {
        Some(e) => base + seq!['.'] + e,
        None => base,
    }
}

/// The file name of a record, with its audio extension.
pub open spec fn file_name(r: OsuBeatmapInfoHolderSimple, template: Seq<char>) -> Seq<char> {
    file_name_with(r, template, opt_view(r.extensions.0))
}

pub open spec fn mp3_ext() -> Seq<char> {
    seq!['m', 'p', '3']
}

/// The extension of a record's destination: `mp3` when audio is re-encoded,
/// else its audio extension.
pub open spec fn destination_ext(r: OsuBeatmapInfoHolderSimple, compressing: bool) -> Option<Seq<char>> {
    if compressing {
        Some(mp3_ext())
    } else {
        opt_view(r.extensions.0)
    }
}

fn is_forbidden_char(c: char) -> (r: bool)
    ensures
        r == is_forbidden(c),
{
    c == '<' || c == '>' || c == ':' || c == '"' || c == '/' || c == '\\' || c == '|' || c == '?'
        || c == '*' || c == '\''
}

fn sanitized(s: &Vec<char>) -> (r: String)
    ensures
        r@ == sanitize(s@),
{
    let mut out = String::new();
    for i in 0..s.len()
        invariant
            out@ == sanitize(s@.subrange(0, i as int)),
    {
        assert(s@.subrange(0, i + 1).drop_last() == s@.subrange(0, i as int));
        if !is_forbidden_char(s[i]) {
            push_char(&mut out, s[i]);
        }
    }
    assert(s@.subrange(0, s.len() as int) == s@);
    out
}

proof fn lemma_skip_step(t: Seq<char>, i: int)
    requires
        0 <= i < t.len(),
    ensures
        t.skip(i).drop_first() == t.skip(i + 1),
        t.skip(i)[0] == t[i],
{
    assert(t.skip(i).drop_first() =~= t.skip(i + 1));
}

impl OsuBeatmapInfoHolderSimple {
    /// The substituted template, before forbidden characters are dropped.
    fn substituted(&self, template: &Vec<char>) -> (r: Vec<char>)
        ensures
            r@ == substitute(template@, self.info.title@, self.info.artist@, self.beatmapset_id),
    {
        let ghost ti = self.info.title@;
        let ghost ar = self.info.artist@;
        let ghost id = self.beatmapset_id;
        let mut filename = String::new();
        let mut shift = false;
        let n = template.len();
        assert(template@.skip(0) =~= template@);
        assert(filename@ + substitute(template@, ti, ar, id) =~= substitute(template@, ti, ar, id));
        for i in 0..n
            invariant
                n == template@.len(),
                ti == self.info.title@,
                ar == self.info.artist@,
                id == self.beatmapset_id,
                !shift ==> substitute(template@, ti, ar, id) == filename@ + substitute(
                    template@.skip(i as int),
                    ti,
                    ar,
                    id,
                ),
                shift ==> substitute(template@, ti, ar, id) == filename@ + substitute_directive(
                    template@.skip(i as int),
                    ti,
                    ar,
                    id,
                ),
        {
            let ch = template[i];
            let ghost before = filename@;
            proof {
                lemma_skip_step(template@, i as int);
            }
            if shift {
                shift = false;
                if ch == 'a' {
                    push_str(&mut filename, self.info.artist.as_str());
                } else if ch == 't' {
                    push_str(&mut filename, self.info.title.as_str());
                } else if ch == 'i' {
                    push_decimal(&mut filename, self.beatmapset_id);
                } else if ch == '/' {
                } else {
                    push_char(&mut filename, ch);
                }
                assert(filename@ == before + directive(ch, ti, ar, id));
                assert(before + (directive(ch, ti, ar, id) + substitute(template@.skip(i + 1), ti, ar, id))
                    =~= filename@ + substitute(template@.skip(i + 1), ti, ar, id));
            } else if ch == '%' {
                shift = true;
            } else if ch == '/' {
            } else {
                push_char(&mut filename, ch);
                assert(before + (seq![ch] + substitute(template@.skip(i + 1), ti, ar, id))
                    =~= filename@ + substitute(template@.skip(i + 1), ti, ar, id));
            }
        }
        let ghost before = filename@;
        if shift {
            push_char(&mut filename, '%');
        }
        proof {
            assert(template@.skip(n as int) =~= Seq::<char>::empty());
            if !shift {
                assert(before + Seq::<char>::empty() =~= before);
            }
        }
        chars_of(filename.as_str())
    }

    /// The file name of this record under `filename_template`, with the
    /// extension `ext`.
    pub fn file_name_with_extension(&self, filename_template: &str, ext: &Option<String>) -> (r: String)
        ensures
            r@ == file_name_with(*self, filename_template@, opt_view(*ext)),
    {
        let template = chars_of(filename_template);
        let raw = self.substituted(&template);
        let mut name = sanitized(&raw);
        match ext {
            Some(e) => {
                push_char(&mut name, '.');
                push_str(&mut name, e.as_str());
            },
            None => {},
        }
        name
    }

    /// The file name of this record under `filename_template`.
    pub fn file_name(&self, filename_template: &str) -> (r: String)
        ensures
            r@ == file_name(*self, filename_template@),
    {
        self.file_name_with_extension(filename_template, &self.extensions.0)
    }

    /// The destination path of this record: its file name joined to `path`.
    pub fn build_path(&self, path: &str, filename_template: &str) -> (r: String)
        ensures
            r@ == join_path(path@, file_name(*self, filename_template@)),
    {
        let name = self.file_name(filename_template);
        join(path, name.as_str())
    }

    /// Where this record is written under `path`: its file name with the
    /// extension `mp3` when audio is re-encoded, else with its audio
    /// extension.
    pub fn destination_path(&self, path: &str, filename_template: &str, compressing: bool) -> (r:
        String)
        ensures
            r@ == join_path(
                path@,
                file_name_with(*self, filename_template@, destination_ext(*self, compressing)),
            ),
    {
        let ext = if compressing {
            let e = string_of(&vec!['m', 'p', '3']);
            assert(e@ =~= mp3_ext());
            Some(e)
        } else {
            clone_opt_string(&self.extensions.0)
        };
        let name = self.file_name_with_extension(filename_template, &ext);
        join(path, name.as_str())
    }
}


/// `t` holds a `%d` that substitution expands.
pub open spec fn has_directive(t: Seq<char>, d: char) -> bool
    decreases t.len(),
{
    if t.len() == 0 {
        false
    } else if t[0] == '%' {
        t.len() >= 2 && (t[1] == d || has_directive(t.skip(2), d))
    } else {
        has_directive(t.drop_first(), d)
    }
}

proof fn lemma_substitute_holds(
    t: Seq<char>,
    d: char,
    c: char,
    title: Seq<char>,
    artist: Seq<char>,
    id: u64,
)
    requires
        has_directive(t, d),
        directive(d, title, artist, id).contains(c),
    ensures
        substitute(t, title, artist, id).contains(c),
    decreases t.len(),
{
    let rest = t.drop_first();
    if t[0] == '%' {
        let tail = substitute(rest.drop_first(), title, artist, id);
        assert(substitute(t, title, artist, id) == substitute_directive(rest, title, artist, id));
        assert(substitute_directive(rest, title, artist, id) == directive(rest[0], title, artist, id) + tail);
        if rest[0] == d {
            let w = choose|w: int| 0 <= w < directive(d, title, artist, id).len() && directive(d, title, artist, id)[w] == c;
            assert((directive(d, title, artist, id) + tail)[w] == c);
        } else {
            assert(rest.drop_first() =~= t.skip(2));
            lemma_substitute_holds(t.skip(2), d, c, title, artist, id);
            let head = directive(rest[0], title, artist, id);
            let w = choose|w: int| 0 <= w < tail.len() && tail[w] == c;
            assert((head + tail)[head.len() + w] == c);
        }
    } else {
        lemma_substitute_holds(rest, d, c, title, artist, id);
        if t[0] == '/' {
            assert(substitute(t, title, artist, id) == substitute(rest, title, artist, id));
        } else {
            assert(substitute(t, title, artist, id) == seq![t[0]] + substitute(rest, title, artist, id));
            let tail = substitute(rest, title, artist, id);
            let w = choose|w: int| 0 <= w < tail.len() && tail[w] == c;
            assert((seq![t[0]] + tail)[1 + w] == c);
        }
    }
}

proof fn lemma_sanitize_keeps(s: Seq<char>, c: char)
    requires
        s.contains(c),
        !is_forbidden(c),
    ensures
        sanitize(s).len() > 0,
    decreases s.len(),
{
    if s.last() != c {
        let w = choose|w: int| 0 <= w < s.len() && s[w] == c;
        assert(s.drop_last()[w] == c);
        lemma_sanitize_keeps(s.drop_last(), c);
    }
}

/// A file name is never empty when the template expands the title (or the
/// artist) and that value holds a character that file names keep.
pub proof fn lemma_file_name_not_empty(r: OsuBeatmapInfoHolderSimple, template: Seq<char>, d: char, c: char)
    requires
        has_directive(template, d),
        d == 't' && r.info.title@.contains(c) || d == 'a' && r.info.artist@.contains(c),
        !is_forbidden(c),
    ensures
        file_name(r, template).len() > 0,
{
    lemma_substitute_holds(template, d, c, r.info.title@, r.info.artist@, r.beatmapset_id);
    lemma_sanitize_keeps(substitute(template, r.info.title@, r.info.artist@, r.beatmapset_id), c);
}

} // verus!
