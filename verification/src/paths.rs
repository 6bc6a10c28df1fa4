//! Path-derived metadata: document ids from file stems and facet categories
//! from parent directories, on `/`-separated path strings.

use vstd::prelude::*;
use vstd::string::StrSliceExecFns;
use vstd::string::StringExecFns;

verus! {

/// One past the last `/` in `p[..j]`, or 0 if there is none.
pub open spec fn last_slash_end(p: Seq<char>, j: int) -> int
    decreases j,
    when j <= p.len()
{
    if j <= 0 {
        0
    } else if p[j - 1] == '/' {
        j
    } else {
        last_slash_end(p, j - 1)
    }
}

/// Index of the last `.` in `nm[..j]`, or -1 if there is none.
pub open spec fn last_dot_pos(nm: Seq<char>, j: int) -> int
    decreases j,
    when j <= nm.len()
{
    if j <= 0 {
        -1
    } else if nm[j - 1] == '.' {
        j - 1
    } else {
        last_dot_pos(nm, j - 1)
    }
}

/// The file-name part of `p`: everything after the last `/`.
pub open spec fn file_name_of(p: Seq<char>) -> Seq<char> {
    p.subrange(last_slash_end(p, p.len() as int), p.len() as int)
}

/// The file stem of `p`: the file name with the part after its last `.`
/// dropped, unless the only `.` leads the name.
pub open spec fn stem_of(p: Seq<char>) -> Seq<char> {
    let nm = file_name_of(p);
    let d = last_dot_pos(nm, nm.len() as int);
    if d <= 0 {
        nm
    } else {
        nm.subrange(0, d)
    }
}

/// `p` made relative to `root`: the part after `root` and one `/` when `p`
/// lies under `root`, otherwise `p` itself.
pub open spec fn rel_to_root(p: Seq<char>, root: Seq<char>) -> Seq<char> {
    if p.len() > root.len() && p.subrange(0, root.len() as int) == root && p[root.len() as int]
        == '/' {
        p.subrange(root.len() as int + 1, p.len() as int)
    } else {
        p
    }
}

/// The facet path of a file: `/` followed by its parent directory relative to
/// the walk root, or `/misc` for a file at the root itself.
pub open spec fn facet_of(p: Seq<char>, root: Seq<char>) -> Seq<char> {
    let rel = rel_to_root(p, root);
    let e = last_slash_end(rel, rel.len() as int);
    if e == 0 {
        seq!['/', 'm', 'i', 's', 'c']
    } else {
        seq!['/'] + rel.subrange(0, e - 1)
    }
}

proof fn lemma_last_slash_end_bounds(p: Seq<char>, j: int)
    requires
        0 <= j <= p.len(),
    ensures
        0 <= last_slash_end(p, j) <= j,
    decreases j,
{
    if j > 0 && p[j - 1] != '/' {
        lemma_last_slash_end_bounds(p, j - 1);
    }
}

proof fn lemma_last_slash_end_scan(p: Seq<char>, j: int, k: int)
    requires
        0 <= k <= j <= p.len(),
        forall|q: int| k <= q < j ==> #[trigger] p[q] != '/',
    ensures
        last_slash_end(p, j) == last_slash_end(p, k),
    decreases j - k,
{
    if k < j {
        lemma_last_slash_end_scan(p, j - 1, k);
    }
}

proof fn lemma_last_dot_pos_scan(nm: Seq<char>, j: int, k: int)
    requires
        0 <= k <= j <= nm.len(),
        forall|q: int| k <= q < j ==> #[trigger] nm[q] != '.',
    ensures
        last_dot_pos(nm, j) == last_dot_pos(nm, k),
    decreases j - k,
{
    if k < j {
        lemma_last_dot_pos_scan(nm, j - 1, k);
    }
}

/// One past the last `/` of `p[..upto]`, found by a backward scan.
fn find_last_slash_end(p: &str, upto: usize) -> (r: usize)
    requires
        upto <= p@.len(),
    ensures
        r == last_slash_end(p@, upto as int),
        r <= upto,
{
    let mut j: usize = upto;
    while j > 0 && p.get_char(j - 1) != '/'
        invariant
            0 <= j <= upto <= p@.len(),
            forall|q: int| j <= q < upto ==> #[trigger] p@[q] != '/',
        decreases j,
    {
        j = j - 1;
    }
    proof {
        lemma_last_slash_end_scan(p@, upto as int, j as int);
    }
    j
}

/// Extract the document id (the file stem) from a file path.
pub fn extract_doc_id(file_path: &str) -> (r: String)
    ensures
        r@ == stem_of(file_path@),
{
    let n = file_path.unicode_len();
    let s = find_last_slash_end(file_path, n);
    // Backward scan for the last dot of the file name.
    let mut j: usize = n;
    while j > s && file_path.get_char(j - 1) != '.'
        invariant
            s <= j <= n,
            n == file_path@.len(),
            forall|q: int| j <= q < n ==> #[trigger] file_path@[q] != '.',
        decreases j,
    {
        j = j - 1;
    }
    let ghost nm = file_name_of(file_path@);
    proof {
        assert(forall|q: int|
            j - s <= q < nm.len() ==> #[trigger] nm[q] != '.');
        lemma_last_dot_pos_scan(nm, nm.len() as int, j as int - s as int);
    }
    if j - s > 1 {
        // A dot sits at j - 1, strictly inside the name.
        proof {
            assert(nm[j as int - s as int - 1] == '.');
            assert(last_dot_pos(nm, j as int - s as int) == j - s - 1);
        }
        let r = file_path.substring_char(s, j - 1).to_owned();
        proof {
            assert(r@ =~= stem_of(file_path@));
        }
        r
    } else {
        // No dot, or only a leading dot: the whole name is the stem.
        proof {
            if j == s + 1 {
                assert(nm[0] == '.');
                assert(last_dot_pos(nm, 1) == 0);
            } else {
                assert(last_dot_pos(nm, 0) == -1);
            }
        }
        let r = file_path.substring_char(s, n).to_owned();
        proof {
            assert(r@ =~= stem_of(file_path@));
        }
        r
    }
}

/// Whether `p` lies strictly under `root` (so `root` plus `/` prefixes it).
fn is_under_root(p: &str, root: &str) -> (r: bool)
    ensures
        r == (p@.len() > root@.len() && p@.subrange(0, root@.len() as int) == root@ && p@[root@.len() as int] == '/'),
{
    let pn = p.unicode_len();
    let rn = root.unicode_len();
    if pn <= rn {
        return false;
    }
    if p.get_char(rn) != '/' {
        return false;
    }
    let mut i: usize = 0;
    while i < rn
        invariant
            0 <= i <= rn,
            rn == root@.len(),
            pn == p@.len(),
            rn < pn,
            forall|q: int| 0 <= q < i ==> #[trigger] p@[q] == root@[q],
        decreases rn - i,
    {
        if p.get_char(i) != root.get_char(i) {
            proof {
                assert(p@.subrange(0, rn as int)[i as int] != root@[i as int]);
            }
            return false;
        }
        i = i + 1;
    }
    proof {
        assert(p@.subrange(0, rn as int) =~= root@);
    }
    true
}

/// The facet category of a file under a walk root: its parent directory as an
/// absolute-looking facet path, or `/misc` for files at the root.
pub fn get_facet_from_path(file_path: &str, data_dir: &str) -> (r: String)
    ensures
        r@ == facet_of(file_path@, data_dir@),
{
    let n = file_path.unicode_len();
    let rel_start: usize = if is_under_root(file_path, data_dir) {
        data_dir.unicode_len() + 1
    } else {
        0
    };
    let ghost rel = rel_to_root(file_path@, data_dir@);
    proof {
        assert(rel =~= file_path@.subrange(rel_start as int, n as int));
    }
    // Last slash within the relative part.
    let mut j: usize = n;
    while j > rel_start && file_path.get_char(j - 1) != '/'
        invariant
            rel_start <= j <= n,
            n == file_path@.len(),
            forall|q: int| j <= q < n ==> #[trigger] file_path@[q] != '/',
        decreases j,
    {
        j = j - 1;
    }
    proof {
        assert(forall|q: int|
            j - rel_start <= q < rel.len() ==> #[trigger] rel[q] != '/');
        lemma_last_slash_end_scan(rel, rel.len() as int, j as int - rel_start as int);
    }
    if j == rel_start {
        proof {
            assert(last_slash_end(rel, 0) == 0);
        }
        let r = String::from_str("/misc");
        proof {
            reveal_strlit("/misc");
            assert(r@ =~= facet_of(file_path@, data_dir@));
        }
        r
    } else {
        proof {
            assert(rel[j as int - rel_start as int - 1] == '/');
            assert(last_slash_end(rel, j as int - rel_start as int) == j - rel_start);
        }
        let mut r = String::from_str("/");
        r.append(file_path.substring_char(rel_start, j - 1));
        proof {
            reveal_strlit("/");
            assert("/"@ =~= seq!['/']);
            assert(file_path@.subrange(rel_start as int, j as int - 1) =~= rel.subrange(
                0,
                last_slash_end(rel, rel.len() as int) - 1,
            ));
            assert(r@ =~= facet_of(file_path@, data_dir@));
        }
        r
    }
}

} // verus!
