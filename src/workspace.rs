use vstd::prelude::*;

verus! {

/// The components of a path, as character sequences.
pub open spec fn parts_view(p: Seq<String>) -> Seq<Seq<char>> {
    p.map_values(|s: String| s@)
}

/// How many leading components of a file path make its workspace root.
/// `marked[i]` tells whether the ancestor made of the first `i` components
/// holds a version-control marker. The deepest marked ancestor wins; with
/// none, the top-most ancestor (no components) is the root.
pub open spec fn root_len(marked: Seq<bool>) -> int
    decreases marked.len(),
{
    if marked.len() <= 1 {
        0
    } else if marked.last() {
        marked.len() - 1
    } else {
        root_len(marked.drop_last())
    }
}

/// `s` with every element after its first occurrence left out.
pub open spec fn dedup<T>(s: Seq<T>) -> Seq<T>
    decreases s.len(),
{
    if s.len() == 0 {
        s
    } else if dedup(s.drop_last()).contains(s.last()) {
        dedup(s.drop_last())
    } else {
        dedup(s.drop_last()).push(s.last())
    }
}

/// What `dedup` keeps holds no element twice, and holds every element.
pub proof fn lemma_dedup_distinct<T>(s: Seq<T>)
    ensures
        dedup(s).no_duplicates(),
        forall|x: T| dedup(s).contains(x) <==> s.contains(x),
    decreases s.len(),
{
    if s.len() > 0 {
        let t = s.drop_last();
        lemma_dedup_distinct(t);
        let d = dedup(t);
        assert forall|x: T| s.contains(x) <==> (t.contains(x) || x == s.last()) by {
            if s.contains(x) && x != s.last() {
                let k = choose|k: int| 0 <= k < s.len() && s[k] == x;
                assert(t[k] == x);
            }
            if t.contains(x) {
                let k = choose|k: int| 0 <= k < t.len() && t[k] == x;
                assert(s[k] == x);
            }
            assert(s[s.len() - 1] == s.last());
        }
        if !d.contains(s.last()) {
            let e = d.push(s.last());
            assert(dedup(s) == e);
            assert forall|x: T| e.contains(x) <==> (d.contains(x) || x == s.last()) by {
                if e.contains(x) && x != s.last() {
                    let k = choose|k: int| 0 <= k < e.len() && e[k] == x;
                    assert(d[k] == x);
                }
                if d.contains(x) {
                    let k = choose|k: int| 0 <= k < d.len() && d[k] == x;
                    assert(e[k] == x);
                }
                assert(e[d.len() as int] == s.last());
            }
            assert forall|i: int, j: int| 0 <= i < e.len() && 0 <= j < e.len() && i != j implies e[i]
                != e[j] by {
                if i == d.len() {
                    assert(d.contains(e[j]));
                } else if j == d.len() {
                    assert(d.contains(e[i]));
                }
            }
        }
    }
}

/// A sequence without repeats is left as it is.
pub proof fn lemma_dedup_of_distinct<T>(s: Seq<T>)
    requires
        s.no_duplicates(),
    ensures
        dedup(s) == s,
    decreases s.len(),
{
    if s.len() > 0 {
        let t = s.drop_last();
        assert(t.no_duplicates());
        lemma_dedup_of_distinct(t);
        assert(!t.contains(s.last())) by {
            if t.contains(s.last()) {
                let k = choose|k: int| 0 <= k < t.len() && t[k] == s.last();
                assert(s[k] == s[s.len() - 1]);
            }
        }
        assert(t.push(s.last()) =~= s);
    }
}

/// Indexing the same discovered paths again gives the same candidates, none
/// of them twice: the candidate list is free of repeats, and taking repeats
/// out of it once more changes nothing.
pub proof fn lemma_index_idempotent<T>(found: Seq<T>)
    ensures
        dedup(found).no_duplicates(),
        dedup(dedup(found)) == dedup(found),
        forall|x: T| dedup(found).contains(x) <==> found.contains(x),
{
    lemma_dedup_distinct(found);
    lemma_dedup_of_distinct(dedup(found));
}

pub proof fn lemma_root_len_bounds(marked: Seq<bool>)
    ensures
        0 <= root_len(marked),
        marked.len() > 0 ==> root_len(marked) < marked.len(),
    decreases marked.len(),
{
    if marked.len() > 1 {
        lemma_root_len_bounds(marked.drop_last());
    }
}

/// Whether two paths have the same components.
pub fn same_path(a: &Vec<String>, b: &Vec<String>) -> (r: bool)
    ensures
        r == (parts_view(a@) == parts_view(b@)),
{
    if a.len() != b.len() {
        assert(parts_view(a@).len() != parts_view(b@).len());
        return false;
    }
    let mut i: usize = 0;
    while i < a.len()
        invariant
            a.len() == b.len(),
            i <= a.len(),
            forall|k: int| 0 <= k < i ==> a@[k]@ == b@[k]@,
        decreases a.len() - i,
    {
        if a[i] != b[i] {
            assert(parts_view(a@)[i as int] != parts_view(b@)[i as int]);
            return false;
        }
        i = i + 1;
    }
    assert(parts_view(a@) =~= parts_view(b@));
    true
}

/// The ancestors of a file, by depth: entry `i` is made of the first `i`
/// components, down to the file's own directory.
pub fn ancestors(file: &Vec<String>) -> (r: Vec<Vec<String>>)
    ensures
        r@.len() == file@.len(),
        forall|i: int| 0 <= i < r@.len() ==> #[trigger] r@[i]@ == file@.take(i),
{
    let mut out: Vec<Vec<String>> = Vec::new();
    let mut prefix: Vec<String> = Vec::new();
    let mut i: usize = 0;
    while i < file.len()
        invariant
            i <= file.len(),
            out@.len() == i,
            prefix@ == file@.take(i as int),
            forall|k: int| 0 <= k < i ==> #[trigger] out@[k]@ == file@.take(k),
        decreases file.len() - i,
    {
        out.push(prefix.clone());
        prefix.push(file[i].clone());
        i = i + 1;
        assert(prefix@ =~= file@.take(i as int));
    }
    out
}

/// The workspace root of `file`, given which of its ancestors (see
/// [`ancestors`]) hold a version-control marker.
pub fn resolve_root(file: &Vec<String>, marked: &Vec<bool>) -> (r: Vec<String>)
    requires
        marked@.len() == file@.len(),
    ensures
        r@ == file@.take(root_len(marked@)),
{
    proof {
        lemma_root_len_bounds(marked@);
    }
    let mut len: usize = 0;
    let mut done = false;
    let mut i: usize = marked.len();
    assert(marked@.take(i as int) =~= marked@);
    while i > 1 && !done
        invariant
            i <= marked@.len(),
            done ==> len as int == root_len(marked@),
            !done ==> root_len(marked@) == root_len(marked@.take(i as int)),
        decreases i + if done { 0int } else { 1int },
    {
        assert(marked@.take(i as int).drop_last() =~= marked@.take(i - 1));
        if marked[i - 1] {
            len = i - 1;
            done = true;
        } else {
            i = i - 1;
        }
    }
    if !done {
        len = 0;
    }
    let mut r: Vec<String> = Vec::new();
    let mut k: usize = 0;
    while k < len
        invariant
            k <= len,
            len as int == root_len(marked@),
            len <= file@.len(),
            r@ == file@.take(k as int),
        decreases len - k,
    {
        r.push(file[k].clone());
        k = k + 1;
        assert(r@ =~= file@.take(k as int));
    }
    r
}

/// The paths of `found` without repeats, in order of first discovery.
pub fn dedup_paths(found: Vec<Vec<String>>) -> (r: Vec<Vec<String>>)
    ensures
        r@.map_values(|p: Vec<String>| parts_view(p@)) == dedup(
            found@.map_values(|p: Vec<String>| parts_view(p@)),
        ),
{
    let ghost fv = found@.map_values(|p: Vec<String>| parts_view(p@));
    let mut out: Vec<Vec<String>> = Vec::new();
    let mut i: usize = 0;
    while i < found.len()
        invariant
            i <= found@.len(),
            fv == found@.map_values(|p: Vec<String>| parts_view(p@)),
            out@.map_values(|p: Vec<String>| parts_view(p@)) == dedup(fv.take(i as int)),
        decreases found.len() - i,
    {
        let ghost ov = out@.map_values(|p: Vec<String>| parts_view(p@));
        assert(fv.take(i + 1).drop_last() =~= fv.take(i as int));
        assert(fv.take(i + 1).last() == parts_view(found@[i as int]@));
        let mut seen = false;
        let mut j: usize = 0;
        while j < out.len()
            invariant
                j <= out@.len(),
                i < found@.len(),
                ov == out@.map_values(|p: Vec<String>| parts_view(p@)),
                seen == (exists|k: int| 0 <= k < j && ov[k] == parts_view(found@[i as int]@)),
            decreases out.len() - j,
        {
            assert(ov[j as int] == parts_view(out@[j as int]@));
            if same_path(&out[j], &found[i]) {
                seen = true;
            }
            j = j + 1;
        }
        if !seen {
            out.push(found[i].clone());
            assert(out@.map_values(|p: Vec<String>| parts_view(p@)) =~= ov.push(
                parts_view(found@[i as int]@),
            ));
        } else {
            proof {
                let k = choose|k: int| 0 <= k < j && ov[k] == parts_view(found@[i as int]@);
                assert(ov.contains(ov[k]));
            }
        }
        i = i + 1;
    }
    assert(fv.take(found@.len() as int) =~= fv);
    out
}

} // verus!
