//! Parser of the legacy text beatmap format: sections, then the metadata
//! read from them.
use vstd::prelude::*;
use crate::model::{BasicSongInfo, ExtractedView, OsuBeatmapInfoExtracted, opt_view};
use crate::text::{
    chars_of, is_single_line, join_lines, lemma_lines_of_join,
    lemma_lines_single, lemma_trim_fixed, lines_of, lower_of, lowercase, split_lines, string_of,
    trim, trim_chars,
};

verus! {

/// Items grouped into runs: an item tagged `true` opens a new run, and so does
/// the first item; any other item joins the current run.
pub open spec fn hierarchy<T>(items: Seq<(bool, T)>) -> Seq<Seq<T>>
    decreases items.len(),
{
    if items.len() == 0 {
        Seq::empty()
    } else {
        let prev = hierarchy(items.drop_last());
        let (head, x) = items.last();
        if head || prev.len() == 0 {
            prev.push(seq![x])
        } else {
            prev.update(prev.len() - 1, prev.last().push(x))
        }
    }
}

/// Groups items into runs, each opened by an item tagged `true`.
pub fn assemble_hierarchy<T>(items: Vec<(bool, T)>) -> (r: Vec<Vec<T>>)
    ensures
        r@.map_values(|g: Vec<T>| g@) == hierarchy(items@),
{
    let ghost all = items@;
    let mut nested: Vec<Vec<T>> = Vec::new();
    let mut buffer: Vec<T> = Vec::new();
    for pair in it: items
        invariant
            it.seq() == all,
            buffer@.len() == 0 <==> it.index() == 0,
            buffer@.len() == 0 ==> nested@.len() == 0,
            buffer@.len() > 0 ==> nested@.map_values(|g: Vec<T>| g@).push(buffer@) == hierarchy(
                all.subrange(0, it.index() as int),
            ),
    {
        let ghost i = it.index();
        proof {
            assert(all.subrange(0, i + 1).drop_last() == all.subrange(0, i as int));
            assert(all.subrange(0, i + 1).last() == all[i as int]);
        }
        let ghost v0 = nested@.map_values(|g: Vec<T>| g@);
        let ghost b0 = buffer@;
        assert(pair == all[i as int]);
        let (head, item) = pair;
        if head {
            if buffer.len() > 0 {
                let full = buffer;
                buffer = Vec::new();
                nested.push(full);
                assert(nested@.map_values(|g: Vec<T>| g@) =~= v0.push(b0));
            }
        }
        buffer.push(item);
        proof {
            let v = nested@.map_values(|g: Vec<T>| g@);
            let h = hierarchy(all.subrange(0, i + 1));
            if b0.len() == 0 {
                assert(all.subrange(0, i as int) =~= Seq::<(bool, T)>::empty());
                assert(v =~= Seq::<Seq<T>>::empty());
                assert(hierarchy(all.subrange(0, i as int)) =~= Seq::<Seq<T>>::empty());
                assert(buffer@ =~= seq![all[i as int].1]);
                assert(v.push(buffer@) =~= h);
            } else if head {
                assert(buffer@ =~= seq![all[i as int].1]);
                assert(hierarchy(all.subrange(0, i as int)) == v0.push(b0));
                assert(v.push(buffer@) =~= h);
            } else {
                assert(v == v0);
                assert(v.push(buffer@) =~= h);
            }
        }
    }
    proof {
        assert(all.subrange(0, all.len() as int) == all);
    }
    if buffer.len() > 0 {
        nested.push(buffer);
    }
    proof {
        assert(nested@.map_values(|g: Vec<T>| g@) =~= hierarchy(all));
    }
    nested
}

/// Every run is non-empty and starts with an item that opened a run, when the
/// first item opens one.
pub proof fn lemma_hierarchy_heads<T>(items: Seq<(bool, T)>)
    requires
        items.len() > 0 ==> items[0].0,
    ensures
        forall|q: int|
            0 <= q < hierarchy(items).len() ==> (#[trigger] hierarchy(items)[q]).len() > 0
                && exists|i: int| 0 <= i < items.len() && items[i].0 && items[i].1 == hierarchy(items)[q][0],
    decreases items.len(),
{
    if items.len() > 0 {
        let prev = items.drop_last();
        lemma_hierarchy_heads(prev);
        let h = hierarchy(items);
        let hp = hierarchy(prev);
        assert forall|q: int| 0 <= q < h.len() implies (#[trigger] h[q]).len() > 0 && exists|i: int|
            0 <= i < items.len() && items[i].0 && items[i].1 == h[q][0] by {
            if q < hp.len() {
                let i = choose|i: int| 0 <= i < prev.len() && prev[i].0 && prev[i].1 == hp[q][0];
                assert(items[i] == prev[i]);
            } else {
                assert(items.len() == 1 || items.last().0);
                assert(items[items.len() - 1] == items.last());
            }
        }
    }
}

/// Mapping the items maps the runs.
pub proof fn lemma_hierarchy_map<A, B>(items: Seq<(bool, A)>, f: spec_fn(A) -> B)
    ensures
        hierarchy(items.map_values(|p: (bool, A)| (p.0, f(p.1)))) == hierarchy(items).map_values(
            |g: Seq<A>| g.map_values(f),
        ),
    decreases items.len(),
{
    let m = items.map_values(|p: (bool, A)| (p.0, f(p.1)));
    if items.len() > 0 {
        let prev = items.drop_last();
        lemma_hierarchy_map(prev, f);
        assert(m.drop_last() == prev.map_values(|p: (bool, A)| (p.0, f(p.1))));
        let hp = hierarchy(prev);
        let (head, x) = items.last();
        assert(m.last() == (head, f(x)));
        if head || hp.len() == 0 {
            assert(seq![x].map_values(f) =~= seq![f(x)]);
            assert(hierarchy(m) =~= hierarchy(items).map_values(|g: Seq<A>| g.map_values(f)));
        } else {
            assert(hp.last().push(x).map_values(f) =~= hp.last().map_values(f).push(f(x)));
            assert(hierarchy(m) =~= hierarchy(items).map_values(|g: Seq<A>| g.map_values(f)));
        }
    }
}

/// A section header: a line that, trimmed, is `[` then `]` with something or
/// nothing between them.
pub open spec fn is_header(line: Seq<char>) -> bool {
    let t = trim(line);
    t.len() >= 2 && t[0] == '[' && t.last() == ']'
}

/// The key of a header line: the trimmed text between the brackets,
/// lower-cased.
pub open spec fn header_key(line: Seq<char>) -> Seq<char> {
    let t = trim(line);
    lower_of(trim(t.subrange(1, t.len() - 1)))
}

/// The lines from the first header on.
pub open spec fn drop_preamble(lines: Seq<Seq<char>>) -> Seq<Seq<char>>
    decreases lines.len(),
{
    if lines.len() == 0 || is_header(lines[0]) {
        lines
    } else {
        drop_preamble(lines.drop_first())
    }
}

/// Each line paired with whether it is a header.
pub open spec fn tag_headers(lines: Seq<Seq<char>>) -> Seq<(bool, Seq<char>)> {
    lines.map_values(|l: Seq<char>| (is_header(l), l))
}

/// The non-empty lines of `lines`, in order.
pub open spec fn non_empty_lines(lines: Seq<Seq<char>>) -> Seq<Seq<char>>
    decreases lines.len(),
{
    if lines.len() == 0 {
        lines
    } else {
        let prev = non_empty_lines(lines.drop_last());
        if lines.last().len() > 0 {
            prev.push(lines.last())
        } else {
            prev
        }
    }
}

/// A section from its run of lines: the key of its header and its non-empty
/// body lines.
pub open spec fn section_of(run: Seq<Seq<char>>) -> (Seq<char>, Seq<Seq<char>>) {
    (header_key(run[0]), non_empty_lines(run.drop_first()))
}

/// The sections of a beatmap text, in order.
pub open spec fn sections_of(text: Seq<char>) -> Seq<(Seq<char>, Seq<Seq<char>>)> {
    hierarchy(tag_headers(drop_preamble(lines_of(text)))).map_values(
        |run: Seq<Seq<char>>| section_of(run),
    )
}

/// The body of the last section named `name`, if any: a later section
/// replaces an earlier one of the same name.
pub open spec fn section_lookup(secs: Seq<(Seq<char>, Seq<Seq<char>>)>, name: Seq<char>) -> Option<
    Seq<Seq<char>>,
>
    decreases secs.len(),
{
    if secs.len() == 0 {
        None
    } else if secs.last().0 == name {
        Some(secs.last().1)
    } else {
        section_lookup(secs.drop_last(), name)
    }
}

/// The sections of one beatmap file, in the order of the file.
pub struct BeatmapSections {
    pub sections: Vec<(String, Vec<String>)>,
}

/// The characters of each line.
pub open spec fn lines_view(v: Seq<String>) -> Seq<Seq<char>> {
    v.map_values(|l: String| l@)
}

impl View for BeatmapSections {
    type V = Seq<(Seq<char>, Seq<Seq<char>>)>;

    open spec fn view(&self) -> Seq<(Seq<char>, Seq<Seq<char>>)> {
        self.sections@.map_values(|e: (String, Vec<String>)| (e.0@, lines_view(e.1@)))
    }
}

fn is_header_line(line: &Vec<char>) -> (r: bool)
    ensures
        r == is_header(line@),
{
    let t = trim_chars(line);
    t.len() >= 2 && t[0] == '[' && t[t.len() - 1] == ']'
}

/// The section of a run whose first line is a header.
fn section_from_run(run: &Vec<Vec<char>>) -> (r: (String, Vec<String>))
    requires
        run.len() > 0,
        is_header(run@[0]@),
    ensures
        (r.0@, lines_view(r.1@)) == section_of(run@.map_values(|l: Vec<char>| l@)),
{
    let ghost rv = run@.map_values(|l: Vec<char>| l@);
    let t = trim_chars(&run[0]);
    let mut inner: Vec<char> = Vec::new();
    let mut i: usize = 1;
    while i + 1 < t.len()
        invariant
            1 <= i <= t.len() - 1,
            t@.len() >= 2,
            inner@ == t@.subrange(1, i as int),
        decreases t.len() - i,
    {
        inner.push(t[i]);
        assert(t@.subrange(1, i + 1) == t@.subrange(1, i as int).push(t@[i as int]));
        i = i + 1;
    }
    let key_chars = trim_chars(&inner);
    let key_string = string_of(&key_chars);
    let key = lowercase(key_string.as_str());
    let mut body: Vec<String> = Vec::new();
    let mut j: usize = 1;
    while j < run.len()
        invariant
            1 <= j <= run.len(),
            rv == run@.map_values(|l: Vec<char>| l@),
            lines_view(body@) == non_empty_lines(rv.drop_first().subrange(0, j - 1)),
        decreases run.len() - j,
    {
        assert(rv.drop_first().subrange(0, j as int).drop_last() == rv.drop_first().subrange(0, j - 1));
        assert(rv.drop_first().subrange(0, j as int).last() == run@[j as int]@);
        if run[j].len() > 0 {
            let line = string_of(&run[j]);
            body.push(line);
            assert(lines_view(body@) =~= non_empty_lines(rv.drop_first().subrange(0, j as int)));
        } else {
            assert(lines_view(body@) =~= non_empty_lines(rv.drop_first().subrange(0, j as int)));
        }
        j = j + 1;
    }
    assert(rv.drop_first().subrange(0, run.len() - 1) == rv.drop_first());
    (key, body)
}

/// Splits a beatmap text into its sections. Lines before the first header
/// belong to no section.
pub fn get_osu_beatmap_sections(beatmap_string: &str) -> (r: BeatmapSections)
    ensures
        r@ == sections_of(beatmap_string@),
{
    let chars = chars_of(beatmap_string);
    let lines = split_lines(&chars);
    let ghost ls = lines@.map_values(|l: Vec<char>| l@);
    let ghost n = ls.len();
    let mut tagged: Vec<(bool, Vec<char>)> = Vec::new();
    let mut started = false;
    let ghost mut start: int = 0;
    assert(ls.subrange(0, n as int) == ls);
    for line in it: lines
        invariant
            ls == it.seq().map_values(|l: Vec<char>| l@),
            n == ls.len(),
            !started ==> tagged@.len() == 0 && drop_preamble(ls) == drop_preamble(
                ls.subrange(it.index() as int, n as int),
            ),
            started ==> 0 <= start < it.index() && start < n && is_header(ls[start]),
            started ==> 0 <= start <= it.index() && drop_preamble(ls) == ls.subrange(start, n as int)
                && tagged@.map_values(|p: (bool, Vec<char>)| (p.0, p.1@)) == tag_headers(
                ls.subrange(start, it.index() as int),
            ),
    {
        let ghost i = it.index() as int;
        assert(ls[i] == line@);
        let h = is_header_line(&line);
        if h && !started {
            started = true;
            proof {
                start = i;
                assert(ls.subrange(i, n as int)[0] == ls[i]);
            }
        } else if !started {
            assert(ls.subrange(i, n as int).drop_first() == ls.subrange(i + 1, n as int));
        }
        let ghost tv0 = tagged@.map_values(|p: (bool, Vec<char>)| (p.0, p.1@));
        if started {
            tagged.push((h, line));
            proof {
                assert(tagged@.map_values(|p: (bool, Vec<char>)| (p.0, p.1@)) =~= tv0.push((h, ls[i])));
                assert(ls.subrange(start, i + 1) =~= ls.subrange(start, i).push(ls[i]));
                assert(tagged@.map_values(|p: (bool, Vec<char>)| (p.0, p.1@)) =~= tag_headers(
                    ls.subrange(start, i + 1),
                ));
            }
        }
    }
    let ghost tv = tagged@.map_values(|p: (bool, Vec<char>)| (p.0, p.1@));
    proof {
        if started {
            assert(ls.subrange(start, n as int) == drop_preamble(ls));
            assert(tv == tag_headers(drop_preamble(ls)));
        } else {
            assert(ls.subrange(n as int, n as int) =~= Seq::<Seq<char>>::empty());
            assert(tv =~= tag_headers(drop_preamble(ls)));
        }
        lemma_preamble_dropped(ls);
        assert forall|j: int| 0 <= j < tagged@.len() implies (#[trigger] tagged@[j]).0 == is_header(tagged@[j].1@) by {
            assert(tv[j] == (tagged@[j].0, tagged@[j].1@));
        }
        if tagged@.len() > 0 {
            assert(tv[0] == (tagged@[0].0, tagged@[0].1@));
        }
        lemma_hierarchy_map(tagged@, |l: Vec<char>| l@);
        assert(tagged@.map_values(|p: (bool, Vec<char>)| (p.0, (|l: Vec<char>| l@)(p.1))) =~= tv);
        lemma_hierarchy_heads(tagged@);
    }
    let ghost tagged_all = tagged@;
    let runs = assemble_hierarchy(tagged);
    let ghost hs = hierarchy(tv);
    let mut sections: Vec<(String, Vec<String>)> = Vec::new();
    for q in 0..runs.len()
        invariant
            runs@.map_values(|g: Vec<Vec<char>>| g@) == hierarchy(tagged_all),
            hs == hierarchy(tagged_all).map_values(|g: Seq<Vec<char>>| g.map_values(|l: Vec<char>| l@)),
            hs == hierarchy(tag_headers(drop_preamble(ls))),
            forall|j: int| 0 <= j < tagged_all.len() ==> (#[trigger] tagged_all[j]).0 == is_header(tagged_all[j].1@),
            forall|q: int|
                0 <= q < hierarchy(tagged_all).len() ==> (#[trigger] hierarchy(tagged_all)[q]).len() > 0
                    && exists|i: int| 0 <= i < tagged_all.len() && tagged_all[i].0 && tagged_all[i].1 == hierarchy(tagged_all)[q][0],
            sections@.len() == q,
            forall|p: int| 0 <= p < q ==> (#[trigger] sections@[p].0@, lines_view(sections@[p].1@)) == section_of(hs[p]),
    {
        proof {
            assert(runs@[q as int]@ == hierarchy(tagged_all)[q as int]);
            let i = choose|i: int| 0 <= i < tagged_all.len() && tagged_all[i].0 && tagged_all[i].1 == hierarchy(tagged_all)[q as int][0];
            assert(hs[q as int] == runs@[q as int]@.map_values(|l: Vec<char>| l@));
        }
        let s = section_from_run(&runs[q]);
        sections.push(s);
    }
    let r = BeatmapSections { sections };
    proof {
        assert(r@ =~= sections_of(beatmap_string@));
    }
    r
}

/// After the preamble is dropped, the first line is a header.
proof fn lemma_preamble_dropped(lines: Seq<Seq<char>>)
    ensures
        drop_preamble(lines).len() > 0 ==> is_header(drop_preamble(lines)[0]),
    decreases lines.len(),
{
    if lines.len() > 0 && !is_header(lines[0]) {
        lemma_preamble_dropped(lines.drop_first());
    }
}


/// `sep` occurs in `line` at position `i`.
pub open spec fn occurs_at(line: Seq<char>, sep: Seq<char>, i: int) -> bool {
    0 <= i && i + sep.len() <= line.len() && line.subrange(i, i + sep.len()) == sep
}

/// `i` is the first position where `sep` occurs in `line`.
pub open spec fn first_occurrence(line: Seq<char>, sep: Seq<char>, i: int) -> bool {
    occurs_at(line, sep, i) && forall|j: int| 0 <= j < i ==> !occurs_at(line, sep, j)
}

/// `line` split at the first occurrence of `sep`, if there is one.
pub open spec fn split_once(line: Seq<char>, sep: Seq<char>) -> Option<(Seq<char>, Seq<char>)> {
    if exists|i: int| first_occurrence(line, sep, i) {
        let i = choose|i: int| first_occurrence(line, sep, i);
        Some((line.subrange(0, i), line.subrange(i + sep.len(), line.len() as int)))
    } else {
        None
    }
}

/// The value of the last line of `lines` whose part before the first `sep` is
/// `name`: the part after that `sep`.
pub open spec fn field_value(lines: Seq<Seq<char>>, sep: Seq<char>, name: Seq<char>) -> Option<
    Seq<char>,
>
    decreases lines.len(),
{
    if lines.len() == 0 {
        None
    } else {
        match split_once(lines.last(), sep) {
            Some(kv) if kv.0 == name => Some(kv.1),
            _ => field_value(lines.drop_last(), sep, name),
        }
    }
}

/// A background event line starts with `0,0,"`.
pub open spec fn is_background_event(line: Seq<char>) -> bool {
    line.len() >= 5 && line[0] == '0' && line[1] == ',' && line[2] == '0' && line[3] == ','
        && line[4] == '"'
}

/// The characters of `s` before its first double quote.
pub open spec fn up_to_quote(s: Seq<char>) -> Seq<char>
    decreases s.len(),
{
    if s.len() == 0 || s[0] == '"' {
        Seq::empty()
    } else {
        seq![s[0]] + up_to_quote(s.drop_first())
    }
}

/// The file name quoted in the first background event line, if any.
pub open spec fn background_of(events: Seq<Seq<char>>) -> Option<Seq<char>>
    decreases events.len(),
{
    if events.len() == 0 {
        None
    } else if is_background_event(events[0]) {
        Some(up_to_quote(events[0].skip(5)))
    } else {
        background_of(events.drop_first())
    }
}

/// Why a beatmap text yields no metadata.
#[derive(PartialEq, Eq, Structural, Clone, Copy, Debug)]
pub enum ParseError {
    MissingGeneral,
    MissingAudioFilename,
    MissingMetadata,
    MissingTitle,
    MissingArtist,
}

pub open spec fn events_name() -> Seq<char> {
    seq!['e', 'v', 'e', 'n', 't', 's']
}

pub open spec fn general_name() -> Seq<char> {
    seq!['g', 'e', 'n', 'e', 'r', 'a', 'l']
}

pub open spec fn metadata_name() -> Seq<char> {
    seq!['m', 'e', 't', 'a', 'd', 'a', 't', 'a']
}

pub open spec fn general_sep() -> Seq<char> {
    seq![':', ' ']
}

pub open spec fn metadata_sep() -> Seq<char> {
    seq![':']
}

pub open spec fn audio_key() -> Seq<char> {
    seq!['A', 'u', 'd', 'i', 'o', 'F', 'i', 'l', 'e', 'n', 'a', 'm', 'e']
}

pub open spec fn title_key() -> Seq<char> {
    seq!['T', 'i', 't', 'l', 'e']
}

pub open spec fn artist_key() -> Seq<char> {
    seq!['A', 'r', 't', 'i', 's', 't']
}

pub open spec fn title_unicode_key() -> Seq<char> {
    title_key() + seq!['U', 'n', 'i', 'c', 'o', 'd', 'e']
}

pub open spec fn artist_unicode_key() -> Seq<char> {
    artist_key() + seq!['U', 'n', 'i', 'c', 'o', 'd', 'e']
}

/// The metadata that a section list yields. In `general` a line is split at
/// its first `": "`, in `metadata` at its first `:`. The Unicode pair counts
/// only when both of its fields are there; then the plain pair is the ASCII
/// one.
pub open spec fn extract(secs: Seq<(Seq<char>, Seq<Seq<char>>)>) -> Result<ExtractedView, ParseError> {
    let background = match section_lookup(secs, events_name()) {
        Some(events) => background_of(events),
        None => None,
    };
    match section_lookup(secs, general_name()) {
        None => Err(ParseError::MissingGeneral),
        Some(general) => match field_value(general, general_sep(), audio_key()) {
            None => Err(ParseError::MissingAudioFilename),
            Some(audio) => match section_lookup(secs, metadata_name()) {
                None => Err(ParseError::MissingMetadata),
                Some(meta) => match field_value(meta, metadata_sep(), title_key()) {
                    None => Err(ParseError::MissingTitle),
                    Some(title) => match field_value(meta, metadata_sep(), artist_key()) {
                        None => Err(ParseError::MissingArtist),
                        Some(artist) => {
                            let tu = field_value(meta, metadata_sep(), title_unicode_key());
                            let au = field_value(meta, metadata_sep(), artist_unicode_key());
                            if tu is Some && au is Some {
                                Ok((Some((title, artist)), (tu->0, au->0), background, audio))
                            } else {
                                Ok((None, (title, artist), background, audio))
                            }
                        },
                    },
                },
            },
        },
    }
}

/// The metadata of a beatmap text.
pub open spec fn parse_beatmap(text: Seq<char>) -> Result<ExtractedView, ParseError> {
    extract(sections_of(text))
}

/// A parse result with the metadata seen through its view.
pub open spec fn result_view(r: Result<OsuBeatmapInfoExtracted, ParseError>) -> Result<
    ExtractedView,
    ParseError,
> {
    match r {
        Ok(x) => Ok(x@),
        Err(e) => Err(e),
    }
}

/// The first position where `sep` occurs in `line`.
fn find_first(line: &Vec<char>, sep: &Vec<char>) -> (r: Option<usize>)
    ensures
        r matches Some(i) ==> first_occurrence(line@, sep@, i as int),
        r is None ==> forall|i: int| !occurs_at(line@, sep@, i),
{
    let n = line.len();
    let m = sep.len();
    if m > n {
        return None;
    }
    let mut i: usize = 0;
    while i <= n - m
        invariant
            n == line@.len(),
            m == sep@.len(),
            m <= n,
            i <= n - m + 1,
            forall|j: int| 0 <= j < i ==> !occurs_at(line@, sep@, j),
        decreases n - i,
    {
        let mut ok = true;
        let mut t: usize = 0;
        while t < m
            invariant
                n == line@.len(),
                m == sep@.len(),
                i + m <= n,
                t <= m,
                ok <==> forall|u: int| 0 <= u < t ==> line@[i + u] == sep@[u],
            decreases m - t,
        {
            if line[i + t] != sep[t] {
                ok = false;
            }
            t = t + 1;
        }
        if ok {
            assert(line@.subrange(i as int, i + m) =~= sep@);
            return Some(i);
        }
        assert(!occurs_at(line@, sep@, i as int)) by {
            if occurs_at(line@, sep@, i as int) {
                let u = choose|u: int| 0 <= u < m && line@[i + u] != sep@[u];
                assert(line@.subrange(i as int, i + m)[u] == line@[i + u]);
            }
        }
        i = i + 1;
    }
    None
}

proof fn lemma_first_occurrence_unique(line: Seq<char>, sep: Seq<char>, i: int, j: int)
    requires
        first_occurrence(line, sep, i),
        first_occurrence(line, sep, j),
    ensures
        i == j,
{
}

fn copy_range(s: &Vec<char>, from: usize, to: usize) -> (r: Vec<char>)
    requires
        from <= to <= s.len(),
    ensures
        r@ == s@.subrange(from as int, to as int),
{
    let mut out: Vec<char> = Vec::new();
    let mut i: usize = from;
    while i < to
        invariant
            from <= i <= to,
            to <= s.len(),
            out@ == s@.subrange(from as int, i as int),
        decreases to - i,
    {
        out.push(s[i]);
        assert(s@.subrange(from as int, i + 1) == s@.subrange(from as int, i as int).push(s@[i as int]));
        i = i + 1;
    }
    out
}

/// Splits `line` at the first occurrence of `sep`.
fn split_field(line: &Vec<char>, sep: &Vec<char>) -> (r: Option<(Vec<char>, Vec<char>)>)
    ensures
        match split_once(line@, sep@) {
            Some(kv) => r matches Some(p) && p.0@ == kv.0 && p.1@ == kv.1,
            None => r is None,
        },
{
    match find_first(line, sep) {
        Some(i) => {
            proof {
                let c = choose|c: int| first_occurrence(line@, sep@, c);
                lemma_first_occurrence_unique(line@, sep@, i as int, c);
            }
            Some((copy_range(line, 0, i), copy_range(line, i + sep.len(), line.len())))
        },
        None => None,
    }
}

/// The value of the last field of `lines` named `name`.
fn find_field(lines: &Vec<String>, sep: &Vec<char>, name: &Vec<char>) -> (r: Option<String>)
    ensures
        opt_view(r) == field_value(lines_view(lines@), sep@, name@),
{
    let ghost lv = lines_view(lines@);
    let mut k: usize = lines.len();
    assert(lv.subrange(0, lines.len() as int) == lv);
    while k > 0
        invariant
            k <= lines.len(),
            lv == lines_view(lines@),
            field_value(lv, sep@, name@) == field_value(lv.subrange(0, k as int), sep@, name@),
        decreases k,
    {
        let ghost sub = lv.subrange(0, k as int);
        assert(sub.drop_last() == lv.subrange(0, k - 1));
        assert(sub.last() == lines@[k - 1]@);
        let chars = chars_of(lines[k - 1].as_str());
        match split_field(&chars, sep) {
            Some(kv) => {
                let key = string_of(&kv.0);
                let wanted = string_of(name);
                if key == wanted {
                    return Some(string_of(&kv.1));
                }
            },
            None => {},
        }
        k = k - 1;
    }
    assert(lv.subrange(0, 0) =~= Seq::<Seq<char>>::empty());
    None
}

/// The file name quoted in the first background event line.
fn find_background(events: &Vec<String>) -> (r: Option<String>)
    ensures
        opt_view(r) == background_of(lines_view(events@)),
{
    let ghost lv = lines_view(events@);
    let mut k: usize = 0;
    assert(lv.subrange(0, lv.len() as int) == lv);
    while k < events.len()
        invariant
            k <= events.len(),
            lv == lines_view(events@),
            background_of(lv) == background_of(lv.subrange(k as int, lv.len() as int)),
        decreases events.len() - k,
    {
        let ghost sub = lv.subrange(k as int, lv.len() as int);
        assert(sub.drop_first() == lv.subrange(k + 1, lv.len() as int));
        assert(sub[0] == events@[k as int]@);
        let line = chars_of(events[k].as_str());
        if line.len() >= 5 && line[0] == '0' && line[1] == ',' && line[2] == '0' && line[3] == ','
            && line[4] == '"' {
            let mut out: Vec<char> = Vec::new();
            let mut i: usize = 5;
            assert(line@.skip(5) == line@.subrange(5, line@.len() as int));
            while i < line.len() && line[i] != '"'
                invariant
                    5 <= i <= line@.len(),
                    up_to_quote(line@.skip(5)) == out@ + up_to_quote(line@.subrange(i as int, line@.len() as int)),
                decreases line.len() - i,
            {
                let ghost rest = line@.subrange(i as int, line@.len() as int);
                assert(rest.drop_first() == line@.subrange(i + 1, line@.len() as int));
                assert(out@.push(line@[i as int]) + up_to_quote(rest.drop_first()) =~= out@ + (seq![rest[0]] + up_to_quote(rest.drop_first())));
                out.push(line[i]);
                i = i + 1;
            }
            assert(up_to_quote(line@.subrange(i as int, line@.len() as int)) =~= Seq::<char>::empty());
            assert(out@ + Seq::<char>::empty() =~= out@);
            return Some(string_of(&out));
        }
        k = k + 1;
    }
    None
}

impl BeatmapSections {
    /// The body of the last section named `name`.
    pub fn get(&self, name: &String) -> (r: Option<&Vec<String>>)
        ensures
            match section_lookup(self@, name@) {
                Some(body) => r matches Some(b) && lines_view(b@) == body,
                None => r is None,
            },
    {
        let ghost v = self@;
        let mut k: usize = self.sections.len();
        assert(v.subrange(0, v.len() as int) == v);
        while k > 0
            invariant
                k <= self.sections.len(),
                v == self@,
                section_lookup(v, name@) == section_lookup(v.subrange(0, k as int), name@),
            decreases k,
        {
            let ghost sub = v.subrange(0, k as int);
            assert(sub.drop_last() == v.subrange(0, k - 1));
            assert(sub.last() == v[k - 1]);
            assert(v[k - 1] == (self.sections@[k - 1].0@, lines_view(self.sections@[k - 1].1@)));
            if self.sections[k - 1].0 == *name {
                return Some(&self.sections[k - 1].1);
            }
            k = k - 1;
        }
        assert(v.subrange(0, 0) =~= Seq::<(Seq<char>, Seq<Seq<char>>)>::empty());
        None
    }
}

impl OsuBeatmapInfoExtracted {
    /// Reads the metadata out of the sections of a beatmap.
    pub fn from_sections(secs: &BeatmapSections) -> (r: Result<Self, ParseError>)
        ensures
            result_view(r) == extract(secs@),
    {
        let events_key = string_of(&vec!['e', 'v', 'e', 'n', 't', 's']);
        let general_key = string_of(&vec!['g', 'e', 'n', 'e', 'r', 'a', 'l']);
        let metadata_key = string_of(&vec!['m', 'e', 't', 'a', 'd', 'a', 't', 'a']);
        let general_sep_chars = vec![':', ' '];
        let metadata_sep_chars = vec![':'];
        let audio_name = vec!['A', 'u', 'd', 'i', 'o', 'F', 'i', 'l', 'e', 'n', 'a', 'm', 'e'];
        let title_name = vec!['T', 'i', 't', 'l', 'e'];
        let artist_name = vec!['A', 'r', 't', 'i', 's', 't'];
        let title_unicode_name = vec!['T', 'i', 't', 'l', 'e', 'U', 'n', 'i', 'c', 'o', 'd', 'e'];
        let artist_unicode_name = vec!['A', 'r', 't', 'i', 's', 't', 'U', 'n', 'i', 'c', 'o', 'd', 'e'];
        proof {
            assert(events_key@ =~= events_name());
            assert(general_key@ =~= general_name());
            assert(metadata_key@ =~= metadata_name());
            assert(general_sep_chars@ =~= general_sep());
            assert(metadata_sep_chars@ =~= metadata_sep());
            assert(audio_name@ =~= audio_key());
            assert(title_name@ =~= title_key());
            assert(artist_name@ =~= artist_key());
            assert(title_unicode_name@ =~= title_unicode_key());
            assert(artist_unicode_name@ =~= artist_unicode_key());
        }
        let background = match secs.get(&events_key) {
            Some(events) => find_background(events),
            None => None,
        };
        let general = match secs.get(&general_key) {
            Some(g) => g,
            None => return Err(ParseError::MissingGeneral),
        };
        let audio = match find_field(general, &general_sep_chars, &audio_name) {
            Some(a) => a,
            None => return Err(ParseError::MissingAudioFilename),
        };
        let meta = match secs.get(&metadata_key) {
            Some(m) => m,
            None => return Err(ParseError::MissingMetadata),
        };
        let title = match find_field(meta, &metadata_sep_chars, &title_name) {
            Some(t) => t,
            None => return Err(ParseError::MissingTitle),
        };
        let artist = match find_field(meta, &metadata_sep_chars, &artist_name) {
            Some(a) => a,
            None => return Err(ParseError::MissingArtist),
        };
        let title_unicode = find_field(meta, &metadata_sep_chars, &title_unicode_name);
        let artist_unicode = find_field(meta, &metadata_sep_chars, &artist_unicode_name);
        let plain = BasicSongInfo::new(title, artist);
        match (title_unicode, artist_unicode) {
            (Some(tu), Some(au)) => Ok(OsuBeatmapInfoExtracted {
                ascii_opt: Some(plain),
                unicode: BasicSongInfo::new(tu, au),
                background,
                audio,
            }),
            _ => Ok(OsuBeatmapInfoExtracted { ascii_opt: None, unicode: plain, background, audio }),
        }
    }

    /// Parses the metadata of one legacy beatmap text.
    pub fn parse(beatmap_string: &str) -> (r: Result<Self, ParseError>)
        ensures
            result_view(r) == parse_beatmap(beatmap_string@),
    {
        let secs = get_osu_beatmap_sections(beatmap_string);
        Self::from_sections(&secs)
    }
}


/// The header line of the section named `k`.
pub open spec fn header_line(k: Seq<char>) -> Seq<char> {
    seq!['['] + k + seq![']']
}

/// The lines of one section: its header, then its body.
pub open spec fn section_lines(sec: (Seq<char>, Seq<Seq<char>>)) -> Seq<Seq<char>> {
    seq![header_line(sec.0)] + sec.1
}

/// The lines of all sections, in order.
pub open spec fn rendered_lines(secs: Seq<(Seq<char>, Seq<Seq<char>>)>) -> Seq<Seq<char>>
    decreases secs.len(),
{
    if secs.len() == 0 {
        Seq::empty()
    } else {
        rendered_lines(secs.drop_last()) + section_lines(secs.last())
    }
}

/// Sections written back as beatmap text.
pub open spec fn render_sections(secs: Seq<(Seq<char>, Seq<Seq<char>>)>) -> Seq<char> {
    join_lines(rendered_lines(secs))
}

/// A section name that reads back as itself: already trimmed and lower-case,
/// on one line.
pub open spec fn stable_key(k: Seq<char>) -> bool {
    lower_of(k) == k && trim(k) == k && is_single_line(k)
}

/// A line that a section body can hold.
pub open spec fn is_body_line(l: Seq<char>) -> bool {
    l.len() > 0 && is_single_line(l) && !is_header(l)
}

/// Sections whose names read back as themselves and whose bodies hold only
/// body lines, as every text's sections do.
pub open spec fn well_formed_sections(secs: Seq<(Seq<char>, Seq<Seq<char>>)>) -> bool {
    forall|q: int|
        0 <= q < secs.len() ==> stable_key((#[trigger] secs[q]).0) && forall|m: int|
            0 <= m < secs[q].1.len() ==> is_body_line(#[trigger] secs[q].1[m])
}

/// Appending a run (an opening item, then items that open none) appends one
/// run.
proof fn lemma_hierarchy_append<T>(a: Seq<(bool, T)>, b: Seq<(bool, T)>)
    requires
        b.len() > 0,
        b[0].0,
        forall|i: int| 1 <= i < b.len() ==> !(#[trigger] b[i]).0,
    ensures
        hierarchy(a + b) == hierarchy(a).push(b.map_values(|p: (bool, T)| p.1)),
    decreases b.len(),
{
    if b.len() == 1 {
        assert((a + b).drop_last() =~= a);
        assert((a + b).last() == b[0]);
        assert(b.map_values(|p: (bool, T)| p.1) =~= seq![b[0].1]);
    } else {
        let bp = b.drop_last();
        lemma_hierarchy_append(a, bp);
        assert((a + b).drop_last() =~= a + bp);
        assert((a + b).last() == b.last());
        assert(!b[b.len() - 1].0);
        let prev = hierarchy(a + bp);
        assert(prev.last() == bp.map_values(|p: (bool, T)| p.1));
        assert(bp.map_values(|p: (bool, T)| p.1).push(b.last().1) =~= b.map_values(|p: (bool, T)| p.1));
        assert(prev.update(prev.len() - 1, prev.last().push(b.last().1)) =~= hierarchy(a).push(
            b.map_values(|p: (bool, T)| p.1),
        ));
    }
}

proof fn lemma_header_line(k: Seq<char>)
    requires
        stable_key(k),
    ensures
        is_header(header_line(k)),
        header_key(header_line(k)) == k,
        is_single_line(header_line(k)),
{
    let h = header_line(k);
    assert(h[0] == '[');
    assert(h.last() == ']');
    lemma_trim_fixed(h);
    assert(h.subrange(1, h.len() - 1) =~= k);
    assert forall|i: int| 0 <= i < h.len() implies h[i] != '\n' && h[i] != '\r' by {
        if 0 < i < h.len() - 1 {
            assert(h[i] == k[i - 1]);
        }
    }
}

proof fn lemma_non_empty_kept(ls: Seq<Seq<char>>)
    requires
        forall|m: int| 0 <= m < ls.len() ==> (#[trigger] ls[m]).len() > 0,
    ensures
        non_empty_lines(ls) == ls,
    decreases ls.len(),
{
    if ls.len() > 0 {
        lemma_non_empty_kept(ls.drop_last());
        assert(ls.drop_last().push(ls.last()) =~= ls);
    }
}

/// The rendered lines of well-formed sections split into one run per
/// section.
proof fn lemma_rendered_runs(secs: Seq<(Seq<char>, Seq<Seq<char>>)>)
    requires
        well_formed_sections(secs),
    ensures
        hierarchy(tag_headers(rendered_lines(secs))) == secs.map_values(
            |sec: (Seq<char>, Seq<Seq<char>>)| section_lines(sec),
        ),
        forall|i: int| 0 <= i < rendered_lines(secs).len() ==> is_single_line(#[trigger] rendered_lines(secs)[i]),
        secs.len() > 0 ==> rendered_lines(secs).len() > 0 && rendered_lines(secs)[0] == header_line(secs[0].0),
    decreases secs.len(),
{
    if secs.len() > 0 {
        let p = secs.drop_last();
        assert forall|q: int| 0 <= q < p.len() implies stable_key((#[trigger] p[q]).0) && forall|m: int|
            0 <= m < p[q].1.len() ==> is_body_line(#[trigger] p[q].1[m]) by {
            assert(p[q] == secs[q]);
        }
        lemma_rendered_runs(p);
        let sec = secs.last();
        assert(secs[secs.len() - 1] == sec);
        lemma_header_line(sec.0);
        let a = rendered_lines(p);
        let b = section_lines(sec);
        assert(tag_headers(a + b) =~= tag_headers(a) + tag_headers(b));
        let tb = tag_headers(b);
        assert forall|i: int| 1 <= i < tb.len() implies !(#[trigger] tb[i]).0 by {
            assert(b[i] == sec.1[i - 1]);
            assert(is_body_line(sec.1[i - 1]));
        }
        lemma_hierarchy_append(tag_headers(a), tb);
        assert(tb.map_values(|q: (bool, Seq<char>)| q.1) =~= b);
        assert(secs.map_values(|sec: (Seq<char>, Seq<Seq<char>>)| section_lines(sec)) =~= p.map_values(
            |sec: (Seq<char>, Seq<Seq<char>>)| section_lines(sec),
        ).push(b));
        assert forall|i: int| 0 <= i < (a + b).len() implies is_single_line(#[trigger] (a + b)[i]) by {
            if i >= a.len() {
                if i > a.len() {
                    assert(b[i - a.len()] == sec.1[i - a.len() - 1]);
                    assert(is_body_line(sec.1[i - a.len() - 1]));
                }
            }
        }
        if p.len() == 0 {
            assert(a =~= Seq::<Seq<char>>::empty());
            assert((a + b)[0] == b[0]);
        } else {
            assert(p[0] == secs[0]);
            assert((a + b)[0] == a[0]);
        }
    }
}

/// Rendering well-formed sections as text and splitting that text into
/// sections gives the same sections.
pub proof fn lemma_render_reparse(secs: Seq<(Seq<char>, Seq<Seq<char>>)>)
    requires
        well_formed_sections(secs),
    ensures
        sections_of(render_sections(secs)) == secs,
{
    lemma_rendered_runs(secs);
    let r = rendered_lines(secs);
    if secs.len() == 0 {
        assert(r =~= Seq::<Seq<char>>::empty());
        assert(render_sections(secs) =~= Seq::<char>::empty());
        let ls = lines_of(Seq::<char>::empty());
        assert(ls == seq![Seq::<char>::empty()]);
        assert(!is_header(ls[0]));
        assert(ls.drop_first() =~= Seq::<Seq<char>>::empty());
        assert(drop_preamble(Seq::<Seq<char>>::empty()) == Seq::<Seq<char>>::empty());
        assert(drop_preamble(ls) == drop_preamble(ls.drop_first()));
        assert(drop_preamble(ls) =~= Seq::<Seq<char>>::empty());
        assert(tag_headers(Seq::<Seq<char>>::empty()) =~= Seq::<(bool, Seq<char>)>::empty());
        assert(render_sections(secs) == Seq::<char>::empty());
        assert(hierarchy(Seq::<(bool, Seq<char>)>::empty()) == Seq::<Seq<Seq<char>>>::empty());
        assert(sections_of(render_sections(secs)) =~= secs);
    } else {
        lemma_lines_of_join(r);
        lemma_header_line(secs[0].0);
        assert(drop_preamble(r) == r);
        let runs = secs.map_values(|sec: (Seq<char>, Seq<Seq<char>>)| section_lines(sec));
        assert forall|q: int| 0 <= q < secs.len() implies section_of(#[trigger] runs[q]) == secs[q] by {
            let sec = secs[q];
            lemma_header_line(sec.0);
            assert(runs[q][0] == header_line(sec.0));
            assert(runs[q].drop_first() =~= sec.1);
            assert forall|m: int| 0 <= m < sec.1.len() implies (#[trigger] sec.1[m]).len() > 0 by {
                assert(is_body_line(secs[q].1[m]));
            }
            lemma_non_empty_kept(sec.1);
        }
        assert(sections_of(render_sections(secs)) =~= secs);
    }
}


/// Every member of a run is the value of some item; every member but the
/// first of its run is the value of an item that opens no run.
proof fn lemma_hierarchy_members<T>(items: Seq<(bool, T)>)
    ensures
        forall|q: int, m: int|
            0 <= q < hierarchy(items).len() && 0 <= m < hierarchy(items)[q].len() ==> exists|i: int|
                0 <= i < items.len() && items[i].1 == (#[trigger] hierarchy(items)[q][m]) && (m > 0
                    ==> !items[i].0),
    decreases items.len(),
{
    if items.len() > 0 {
        let prev = items.drop_last();
        lemma_hierarchy_members(prev);
        let h = hierarchy(items);
        let hp = hierarchy(prev);
        let (head, x) = items.last();
        assert forall|q: int, m: int| 0 <= q < h.len() && 0 <= m < h[q].len() implies exists|i: int|
            0 <= i < items.len() && items[i].1 == (#[trigger] h[q][m]) && (m > 0 ==> !items[i].0) by {
            if q < hp.len() && m < hp[q].len() {
                assert(h[q][m] == hp[q][m]);
                let i = choose|i: int| 0 <= i < prev.len() && prev[i].1 == hp[q][m] && (m > 0 ==> !prev[i].0);
                assert(items[i] == prev[i]);
            } else {
                assert(items[items.len() - 1] == items.last());
                assert(h[q][m] == x);
            }
        }
    }
}

/// Every line after the preamble is a line of the text.
proof fn lemma_preamble_members(lines: Seq<Seq<char>>)
    ensures
        forall|i: int| 0 <= i < drop_preamble(lines).len() ==> lines.contains(#[trigger] drop_preamble(lines)[i]),
    decreases lines.len(),
{
    if lines.len() > 0 && !is_header(lines[0]) {
        let rest = lines.drop_first();
        lemma_preamble_members(rest);
        assert forall|i: int| 0 <= i < drop_preamble(lines).len() implies lines.contains(#[trigger] drop_preamble(lines)[i]) by {
            let j = choose|j: int| 0 <= j < rest.len() && rest[j] == drop_preamble(rest)[i];
            assert(lines[j + 1] == rest[j]);
        }
    }
}

/// Every line that `non_empty_lines` keeps is a non-empty line of its input.
proof fn lemma_non_empty_members(ls: Seq<Seq<char>>)
    ensures
        forall|m: int| 0 <= m < non_empty_lines(ls).len() ==> (#[trigger] non_empty_lines(ls)[m]).len() > 0
            && ls.contains(non_empty_lines(ls)[m]),
    decreases ls.len(),
{
    if ls.len() > 0 {
        let p = ls.drop_last();
        lemma_non_empty_members(p);
        assert forall|m: int| 0 <= m < non_empty_lines(ls).len() implies (#[trigger] non_empty_lines(ls)[m]).len() > 0
            && ls.contains(non_empty_lines(ls)[m]) by {
            if m < non_empty_lines(p).len() {
                assert(non_empty_lines(ls)[m] == non_empty_lines(p)[m]);
                let j = choose|j: int| 0 <= j < p.len() && p[j] == non_empty_lines(p)[m];
                assert(ls[j] == p[j]);
            } else {
                assert(ls[ls.len() - 1] == ls.last());
            }
        }
    }
}

/// The sections of a text are well formed when each section name reads back
/// as itself.
pub proof fn lemma_sections_well_formed(text: Seq<char>)
    requires
        forall|q: int| 0 <= q < sections_of(text).len() ==> stable_key((#[trigger] sections_of(text)[q]).0),
    ensures
        well_formed_sections(sections_of(text)),
{
    let secs = sections_of(text);
    let ls = lines_of(text);
    let d = drop_preamble(ls);
    let items = tag_headers(d);
    let hs = hierarchy(items);
    lemma_lines_single(text);
    lemma_preamble_members(ls);
    lemma_hierarchy_members(items);
    lemma_preamble_dropped(ls);
    if d.len() > 0 {
        assert(items[0] == (is_header(d[0]), d[0]));
    }
    lemma_hierarchy_heads(items);
    assert forall|q: int| 0 <= q < secs.len() implies stable_key((#[trigger] secs[q]).0) && forall|m: int|
        0 <= m < secs[q].1.len() ==> is_body_line(#[trigger] secs[q].1[m]) by {
        let run = hs[q];
        assert(run.len() > 0);
        assert(secs[q] == section_of(run));
        let body = run.drop_first();
        lemma_non_empty_members(body);
        assert forall|m: int| 0 <= m < secs[q].1.len() implies is_body_line(#[trigger] secs[q].1[m]) by {
            let l = secs[q].1[m];
            assert(l == non_empty_lines(body)[m]);
            let j = choose|j: int| 0 <= j < body.len() && body[j] == l;
            assert(body[j] == hs[q][j + 1]);
            let i = choose|i: int| 0 <= i < items.len() && items[i].1 == hs[q][j + 1] && (j + 1 > 0 ==> !items[i].0);
            assert(items[i] == (is_header(d[i]), d[i]));
            assert(ls.contains(d[i]));
            let w = choose|w: int| 0 <= w < ls.len() && ls[w] == d[i];
            assert(is_single_line(ls[w]));
        }
    }
}

/// Parsing is idempotent: the sections of a beatmap text, written back as
/// text and parsed again, are the same sections and give the same metadata,
/// when each section name reads back as itself.
pub proof fn lemma_parse_idempotent(text: Seq<char>)
    requires
        forall|q: int| 0 <= q < sections_of(text).len() ==> stable_key((#[trigger] sections_of(text)[q]).0),
    ensures
        sections_of(render_sections(sections_of(text))) == sections_of(text),
        parse_beatmap(render_sections(sections_of(text))) == parse_beatmap(text),
{
    lemma_sections_well_formed(text);
    let secs = sections_of(text);
    lemma_render_reparse(secs);
}

/// The lines joined with line feeds.
fn join_line_chars(ls: &Vec<Vec<char>>) -> (r: String)
    ensures
        r@ == join_lines(ls@.map_values(|l: Vec<char>| l@)),
{
    let ghost lv = ls@.map_values(|l: Vec<char>| l@);
    let mut out: Vec<char> = Vec::new();
    let mut q: usize = 0;
    while q < ls.len()
        invariant
            q <= ls.len(),
            lv == ls@.map_values(|l: Vec<char>| l@),
            out@ == join_lines(lv.subrange(0, q as int)),
        decreases ls.len() - q,
    {
        let ghost before = out@;
        assert(lv.subrange(0, q + 1).drop_last() == lv.subrange(0, q as int));
        assert(lv.subrange(0, q + 1).last() == ls@[q as int]@);
        if q > 0 {
            out.push('\n');
        }
        let line = &ls[q];
        let mut m: usize = 0;
        while m < line.len()
            invariant
                m <= line.len(),
                out@ == (if q > 0 { before + seq!['\n'] } else { before }) + line@.subrange(0, m as int),
            decreases line.len() - m,
        {
            out.push(line[m]);
            assert(line@.subrange(0, m + 1) == line@.subrange(0, m as int).push(line@[m as int]));
            m = m + 1;
        }
        assert(line@.subrange(0, line.len() as int) == line@);
        proof {
            if q == 0 {
                assert(before =~= Seq::<char>::empty());
                assert(lv.subrange(0, 1) =~= seq![lv[0]]);
                assert(out@ =~= join_lines(lv.subrange(0, 1)));
            } else {
                assert(out@ =~= join_lines(lv.subrange(0, q + 1)));
            }
        }
        q = q + 1;
    }
    assert(lv.subrange(0, ls.len() as int) == lv);
    string_of(&out)
}

impl BeatmapSections {
    /// The sections written back as beatmap text: each header as `[name]`,
    /// then the section's lines, all joined with line feeds.
    pub fn render(&self) -> (r: String)
        ensures
            r@ == render_sections(self@),
    {
        let ghost v = self@;
        let mut lines: Vec<Vec<char>> = Vec::new();
        let mut q: usize = 0;
        while q < self.sections.len()
            invariant
                q <= self.sections.len(),
                v == self@,
                lines@.map_values(|l: Vec<char>| l@) == rendered_lines(v.subrange(0, q as int)),
            decreases self.sections.len() - q,
        {
            let ghost before = lines@.map_values(|l: Vec<char>| l@);
            let ghost sec = v[q as int];
            assert(v.subrange(0, q + 1).drop_last() == v.subrange(0, q as int));
            assert(v.subrange(0, q + 1).last() == sec);
            let mut header: Vec<char> = Vec::new();
            header.push('[');
            let key = chars_of(self.sections[q].0.as_str());
            let mut m: usize = 0;
            while m < key.len()
                invariant
                    m <= key.len(),
                    header@ == seq!['['] + key@.subrange(0, m as int),
                decreases key.len() - m,
            {
                header.push(key[m]);
                assert(key@.subrange(0, m + 1) == key@.subrange(0, m as int).push(key@[m as int]));
                m = m + 1;
            }
            header.push(']');
            assert(key@.subrange(0, key.len() as int) == key@);
            assert(header@ =~= header_line(sec.0));
            lines.push(header);
            let body = &self.sections[q].1;
            assert(sec == (self.sections@[q as int].0@, lines_view(self.sections@[q as int].1@)));
            let mut b: usize = 0;
            while b < body.len()
                invariant
                    b <= body.len(),
                    v == self@,
                    sec == v[q as int],
                    q < self.sections.len(),
                    body == &self.sections@[q as int].1,
                    sec.1 == lines_view(body@),
                    lines@.map_values(|l: Vec<char>| l@) == before + seq![header_line(sec.0)] + sec.1.subrange(0, b as int),
                decreases body.len() - b,
            {
                assert(sec.1[b as int] == body@[b as int]@);
                let l = chars_of(body[b].as_str());
                let ghost old_lines = lines@.map_values(|l: Vec<char>| l@);
                lines.push(l);
                assert(lines@.map_values(|l: Vec<char>| l@) =~= old_lines.push(sec.1[b as int]));
                assert(sec.1.subrange(0, b + 1) == sec.1.subrange(0, b as int).push(sec.1[b as int]));
                assert(lines@.map_values(|l: Vec<char>| l@) =~= before + seq![header_line(sec.0)] + sec.1.subrange(0, b + 1));
                b = b + 1;
            }
            assert(sec.1.subrange(0, body.len() as int) == sec.1);
            assert(lines@.map_values(|l: Vec<char>| l@) =~= rendered_lines(v.subrange(0, q + 1)));
            q = q + 1;
        }
        assert(v.subrange(0, self.sections.len() as int) == v);
        join_line_chars(&lines)
    }
}


/// No two sections share a name.
pub open spec fn distinct_names(secs: Seq<(Seq<char>, Seq<Seq<char>>)>) -> bool {
    forall|i: int, j: int|
        0 <= i < secs.len() && 0 <= j < secs.len() && i != j ==> (#[trigger] secs[i]).0 != (
        #[trigger] secs[j]).0
}

/// When no two sections share a name, the lookup finds the one section of
/// that name, if any.
proof fn lemma_lookup_distinct(secs: Seq<(Seq<char>, Seq<Seq<char>>)>, name: Seq<char>)
    requires
        distinct_names(secs),
    ensures
        forall|i: int| 0 <= i < secs.len() && (#[trigger] secs[i]).0 == name ==> section_lookup(secs, name) == Some(secs[i].1),
        (forall|i: int| 0 <= i < secs.len() ==> (#[trigger] secs[i]).0 != name) ==> section_lookup(secs, name) is None,
    decreases secs.len(),
{
    if secs.len() > 0 {
        let p = secs.drop_last();
        assert forall|i: int, j: int| 0 <= i < p.len() && 0 <= j < p.len() && i != j implies (#[trigger] p[i]).0 != (#[trigger] p[j]).0 by {
            assert(p[i] == secs[i] && p[j] == secs[j]);
        }
        lemma_lookup_distinct(p, name);
        assert forall|i: int| 0 <= i < secs.len() && (#[trigger] secs[i]).0 == name implies section_lookup(secs, name) == Some(secs[i].1) by {
            if i < secs.len() - 1 {
                assert(secs[i] == p[i]);
                assert(secs[secs.len() - 1].0 != name);
            }
        }
        if forall|i: int| 0 <= i < secs.len() ==> (#[trigger] secs[i]).0 != name {
            assert(secs[secs.len() - 1].0 != name);
            assert forall|i: int| 0 <= i < p.len() implies (#[trigger] p[i]).0 != name by {
                assert(p[i] == secs[i]);
            }
        }
    }
}

/// Two section lists that hold the same sections, neither with a name twice,
/// look up every name alike.
proof fn lemma_lookup_same_sections(
    s1: Seq<(Seq<char>, Seq<Seq<char>>)>,
    s2: Seq<(Seq<char>, Seq<Seq<char>>)>,
    name: Seq<char>,
)
    requires
        distinct_names(s1),
        distinct_names(s2),
        forall|x: (Seq<char>, Seq<Seq<char>>)| s1.contains(x) <==> s2.contains(x),
    ensures
        section_lookup(s1, name) == section_lookup(s2, name),
{
    lemma_lookup_distinct(s1, name);
    lemma_lookup_distinct(s2, name);
    if exists|i: int| 0 <= i < s1.len() && (#[trigger] s1[i]).0 == name {
        let i = choose|i: int| 0 <= i < s1.len() && (#[trigger] s1[i]).0 == name;
        assert(s1.contains(s1[i]));
        let j = choose|j: int| 0 <= j < s2.len() && s2[j] == s1[i];
        assert(s2[j].0 == name);
    } else if exists|j: int| 0 <= j < s2.len() && (#[trigger] s2[j]).0 == name {
        let j = choose|j: int| 0 <= j < s2.len() && (#[trigger] s2[j]).0 == name;
        assert(s2.contains(s2[j]));
        let i = choose|i: int| 0 <= i < s1.len() && s1[i] == s2[j];
        assert(s1[i].0 == name);
    }
}

/// Re-parsing does not depend on the order in which the sections are written
/// back: when no two sections of a text share a name and each name reads back
/// as itself, the sections written in any order and parsed again give the same
/// metadata.
pub proof fn lemma_parse_idempotent_any_order(text: Seq<char>, order: Seq<(Seq<char>, Seq<Seq<char>>)>)
    requires
        forall|q: int| 0 <= q < sections_of(text).len() ==> stable_key((#[trigger] sections_of(text)[q]).0),
        distinct_names(sections_of(text)),
        distinct_names(order),
        forall|x: (Seq<char>, Seq<Seq<char>>)| order.contains(x) <==> sections_of(text).contains(x),
    ensures
        parse_beatmap(render_sections(order)) == parse_beatmap(text),
{
    let secs = sections_of(text);
    lemma_sections_well_formed(text);
    assert forall|q: int| 0 <= q < order.len() implies stable_key((#[trigger] order[q]).0) && forall|m: int|
        0 <= m < order[q].1.len() ==> is_body_line(#[trigger] order[q].1[m]) by {
        assert(order.contains(order[q]));
        let i = choose|i: int| 0 <= i < secs.len() && secs[i] == order[q];
        assert(stable_key(secs[i].0));
        assert forall|m: int| 0 <= m < order[q].1.len() implies is_body_line(#[trigger] order[q].1[m]) by {
            assert(is_body_line(secs[i].1[m]));
        }
    }
    lemma_render_reparse(order);
    lemma_lookup_same_sections(order, secs, events_name());
    lemma_lookup_same_sections(order, secs, general_name());
    lemma_lookup_same_sections(order, secs, metadata_name());
}

} // verus!
