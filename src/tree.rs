//! Branch-drawing prefixes for a forest listed in pre-order.
use vstd::prelude::*;

use crate::group::strs_view;
use crate::resource::QtyByQualifier;

verus! {

pub open spec fn tee() -> Seq<char> {
    seq!['├', '─']
}

pub open spec fn corner() -> Seq<char> {
    seq!['└', '─']
}

pub open spec fn bar() -> Seq<char> {
    seq!['│', ' ']
}

pub open spec fn blank() -> Seq<char> {
    seq![' ', ' ']
}

/// The key paths of the entries, as values.
pub open spec fn paths_view(data: Seq<(Vec<String>, Option<QtyByQualifier>)>) -> Seq<Seq<Seq<char>>> {
    data.map_values(|e: (Vec<String>, Option<QtyByQualifier>)| strs_view(e.0@))
}

/// A path without its last key; a root path has the empty parent.
pub open spec fn parent_of(p: Seq<Seq<char>>) -> Seq<Seq<char>> {
    if p.len() == 0 {
        p
    } else {
        p.drop_last()
    }
}

/// Whether a later sibling of entry `i` is found scanning forward from `j`,
/// before an entry with a shorter path.
pub open spec fn sibling_from(paths: Seq<Seq<Seq<char>>>, i: int, j: int) -> bool
    decreases paths.len() - j,
{
    if j < 0 || j >= paths.len() || i < 0 || i >= paths.len() {
        false
    } else if paths[j].len() < paths[i].len() {
        false
    } else if paths[j].len() == paths[i].len() && parent_of(paths[j]) == parent_of(paths[i]) {
        true
    } else {
        sibling_from(paths, i, j + 1)
    }
}

pub open spec fn has_next_sibling(paths: Seq<Seq<Seq<char>>>, i: int) -> bool {
    sibling_from(paths, i, i + 1)
}

/// The nearest entry at or before `j` whose path has length `len`, or -1.
pub open spec fn ancestor_from(paths: Seq<Seq<Seq<char>>>, len: int, j: int) -> int
    decreases j + 1,
{
    if j < 0 || j >= paths.len() {
        -1
    } else if paths[j].len() == len {
        j
    } else {
        ancestor_from(paths, len, j - 1)
    }
}

/// The glyph that entry `i` shows for its ancestor at depth `a`: a bar where
/// that ancestor has a later sibling, else blank space.
pub open spec fn continuation(paths: Seq<Seq<Seq<char>>>, i: int, a: int) -> Seq<char> {
    let k = ancestor_from(paths, a + 1, i - 1);
    if k >= 0 && has_next_sibling(paths, k) {
        bar()
    } else {
        blank()
    }
}

/// The glyphs of entry `i` for its ancestors at depths below `a`.
pub open spec fn continuations(paths: Seq<Seq<Seq<char>>>, i: int, a: int) -> Seq<char>
    decreases a,
{
    if a <= 0 {
        Seq::empty()
    } else {
        continuations(paths, i, a - 1) + continuation(paths, i, a - 1)
    }
}

/// The prefix of entry `i`: a glyph per ancestor, then a tee where the entry
/// has a later sibling, else a corner.
pub open spec fn prefix_of(paths: Seq<Seq<Seq<char>>>, i: int) -> Seq<char> {
    continuations(paths, i, paths[i].len() - 1) + if has_next_sibling(paths, i) {
        tee()
    } else {
        corner()
    }
}

/// Whether two paths of one length have the same parent.
fn same_parent(a: &Vec<String>, b: &Vec<String>) -> (r: bool)
    requires
        a@.len() == b@.len(),
    ensures
        r == (parent_of(strs_view(a@)) == parent_of(strs_view(b@))),
{
    let n = a.len();
    if n == 0 {
        assert(strs_view(a@) =~= strs_view(b@));
        return true;
    }
    let mut j: usize = 0;
    while j < n - 1
        invariant
            j <= n - 1,
            n == a@.len(),
            n == b@.len(),
            n > 0,
            forall|l: int| 0 <= l < j ==> a@[l]@ == b@[l]@,
        decreases n - 1 - j,
    {
        if a[j] != b[j] {
            assert(strs_view(a@)[j as int] == a@[j as int]@);
            assert(strs_view(b@)[j as int] == b@[j as int]@);
            assert(parent_of(strs_view(a@))[j as int] != parent_of(strs_view(b@))[j as int]);
            return false;
        }
        j = j + 1;
    }
    assert(parent_of(strs_view(a@)) =~= parent_of(strs_view(b@)));
    true
}

fn next_sibling(data: &[(Vec<String>, Option<QtyByQualifier>)], i: usize) -> (r: bool)
    requires
        i < data@.len(),
    ensures
        r == has_next_sibling(paths_view(data@), i as int),
{
    let ghost paths = paths_view(data@);
    let n = data.len();
    let mut j: usize = i + 1;
    while j < data.len()
        invariant
            i < j <= data@.len(),
            paths == paths_view(data@),
            has_next_sibling(paths, i as int) == sibling_from(paths, i as int, j as int),
        decreases data@.len() - j,
    {
        let lj = data[j].0.len();
        let li = data[i].0.len();
        if lj < li {
            return false;
        }
        if lj == li && same_parent(&data[j].0, &data[i].0) {
            return true;
        }
        j = j + 1;
    }
    false
}

fn ancestor(data: &[(Vec<String>, Option<QtyByQualifier>)], len: usize, i: usize) -> (r: Option<usize>)
    requires
        i < data@.len(),
    ensures
        match r {
            Some(k) => k as int == ancestor_from(paths_view(data@), len as int, i - 1) && k < i,
            None => ancestor_from(paths_view(data@), len as int, i - 1) == -1,
        },
{
    let ghost paths = paths_view(data@);
    let mut j: usize = i;
    while j > 0
        invariant
            j <= i < data@.len(),
            paths == paths_view(data@),
            ancestor_from(paths, len as int, i - 1) == ancestor_from(paths, len as int, j - 1),
        decreases j,
    {
        if data[j - 1].0.len() == len {
            return Some(j - 1);
        }
        j = j - 1;
    }
    None
}

/// The prefix of each entry, by index, for entries listed in pre-order: a
/// glyph per ancestor (a bar where the ancestor has a later sibling, else
/// blank), then a tee where the entry has a later sibling, else a corner.
pub fn provide_prefix(data: &[(Vec<String>, Option<QtyByQualifier>)]) -> (r: Vec<String>)
    ensures
        r@.len() == data@.len(),
        forall|i: int| 0 <= i < data@.len() ==> (#[trigger] r@[i])@ == prefix_of(paths_view(data@), i),
{
    let ghost paths = paths_view(data@);
    proof {
        reveal_strlit("├─");
        reveal_strlit("└─");
        reveal_strlit("│ ");
        reveal_strlit("  ");
        assert("├─"@ =~= tee());
        assert("└─"@ =~= corner());
        assert("│ "@ =~= bar());
        assert("  "@ =~= blank());
    }
    let mut out: Vec<String> = Vec::new();
    let mut i: usize = 0;
    while i < data.len()
        invariant
            i <= data@.len(),
            paths == paths_view(data@),
            out@.len() == i,
            forall|l: int| 0 <= l < i ==> (#[trigger] out@[l])@ == prefix_of(paths, l),
            "├─"@ == tee(),
            "└─"@ == corner(),
            "│ "@ == bar(),
            "  "@ == blank(),
        decreases data@.len() - i,
    {
        let depth = data[i].0.len();
        let mut s = String::new();
        let mut a: usize = 0;
        let d: usize = if depth == 0 { 0 } else { depth - 1 };
        assert(continuations(paths, i as int, 0) =~= Seq::<char>::empty());
        while a < d
            invariant
                a <= d,
                i < data@.len(),
                paths == paths_view(data@),
                s@ == continuations(paths, i as int, a as int),
                "│ "@ == bar(),
                "  "@ == blank(),
            decreases d - a,
        {
            let has_bar = match ancestor(data, a + 1, i) {
                Some(k) => next_sibling(data, k),
                None => false,
            };
            if has_bar {
                s.append("│ ");
            } else {
                s.append("  ");
            }
            a = a + 1;
        }
        assert(paths[i as int].len() == depth);
        if next_sibling(data, i) {
            s.append("├─");
        } else {
            s.append("└─");
        }
        proof {
            if depth == 0 {
                assert(continuations(paths, i as int, -1) =~= Seq::<char>::empty());
            }
        }
        out.push(s);
        i = i + 1;
    }
    out
}

} // verus!
