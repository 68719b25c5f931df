//! Which files of the destination folder are left over from earlier runs.
use vstd::prelude::*;

verus! {

/// The paths of `existing` that `expected` does not hold, in order.
pub open spec fn orphans(existing: Seq<Seq<char>>, expected: Seq<Seq<char>>) -> Seq<Seq<char>>
    decreases existing.len(),
{
    if existing.len() == 0 {
        existing
    } else {
        let prev = orphans(existing.drop_last(), expected);
        if expected.contains(existing.last()) {
            prev
        } else {
            prev.push(existing.last())
        }
    }
}

/// The characters of each path.
pub open spec fn paths_view(v: Seq<String>) -> Seq<Seq<char>> {
    v.map_values(|p: String| p@)
}

fn holds(v: &Vec<String>, p: &String) -> (r: bool)
    ensures
        r == paths_view(v@).contains(p@),
{
    let mut i: usize = 0;
    while i < v.len()
        invariant
            i <= v.len(),
            forall|j: int| 0 <= j < i ==> v@[j]@ != p@,
        decreases v.len() - i,
    {
        if v[i] == *p {
            assert(paths_view(v@)[i as int] == p@);
            return true;
        }
        i = i + 1;
    }
    assert forall|j: int| 0 <= j < v.len() implies paths_view(v@)[j] != p@ by {
        assert(paths_view(v@)[j] == v@[j]@);
    }
    false
}

/// The files of the destination folder that no current record will write.
pub fn orphaned_files(existing: &Vec<String>, expected: &Vec<String>) -> (r: Vec<String>)
    ensures
        paths_view(r@) == orphans(paths_view(existing@), paths_view(expected@)),
{
    let ghost ev = paths_view(existing@);
    let mut out: Vec<String> = Vec::new();
    for i in 0..existing.len()
        invariant
            ev == paths_view(existing@),
            paths_view(out@) == orphans(ev.subrange(0, i as int), paths_view(expected@)),
    {
        assert(ev.subrange(0, i + 1).drop_last() == ev.subrange(0, i as int));
        assert(ev.subrange(0, i + 1).last() == existing@[i as int]@);
        if !holds(expected, &existing[i]) {
            out.push(existing[i].clone());
            assert(paths_view(out@) =~= orphans(ev.subrange(0, i + 1), paths_view(expected@)));
        }
    }
    assert(ev.subrange(0, existing.len() as int) == ev);
    out
}

/// Reconciliation never removes an expected destination path.
pub proof fn lemma_expected_never_removed(existing: Seq<Seq<char>>, expected: Seq<Seq<char>>, p: Seq<char>)
    requires
        expected.contains(p),
    ensures
        !orphans(existing, expected).contains(p),
    decreases existing.len(),
{
    if existing.len() > 0 {
        lemma_expected_never_removed(existing.drop_last(), expected, p);
        let prev = orphans(existing.drop_last(), expected);
        if !expected.contains(existing.last()) {
            assert forall|j: int| 0 <= j < prev.len() + 1 implies prev.push(existing.last())[j] != p by {
                if j < prev.len() {
                    assert(prev[j] != p);
                }
            }
        }
    }
}

} // verus!
