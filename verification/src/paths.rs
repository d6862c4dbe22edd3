//! Where a downloaded file is stored: its name from the URL path, joined to a
//! directory.
use vstd::prelude::*;
use crate::text::{chars_of, string_of, sub_chars};

verus! {

/// The last segment of a URL path that starts with `/`: what follows its
/// last `/` (empty when the path ends with `/`).
pub open spec fn last_segment(path: Seq<char>) -> Seq<char>
    decreases path.len(),
{
    if path.len() == 0 || path.last() == '/' {
        Seq::empty()
    } else {
        last_segment(path.drop_last()).push(path.last())
    }
}

/// Proof that the last segment is what follows the last `/`, character for
/// character.
pub proof fn lemma_last_segment_is_suffix(p: Seq<char>, s: Seq<char>)
    requires
        forall|i: int| 0 <= i < s.len() ==> #[trigger] s[i] != '/',
    ensures
        last_segment(p + seq!['/'] + s) == s,
    decreases s.len(),
{
    let x = p + seq!['/'] + s;
    if s.len() == 0 {
        assert(x.last() == '/');
        assert(s =~= Seq::<char>::empty());
    } else {
        assert(x.last() == s.last());
        assert(x.drop_last() =~= p + seq!['/'] + s.drop_last());
        lemma_last_segment_is_suffix(p, s.drop_last());
        assert(s.drop_last().push(s.last()) =~= s);
    }
}

/// Whether `url::Url::path_segments` gives segments for this path: the path
/// starts with `/`.
pub open spec fn has_segments(path: Seq<char>) -> bool {
    path.len() > 0 && path[0] == '/'
}

/// The file name of a URL: the last segment of its path (the `path()` of a
/// parsed `url::Url`). The path must have segments.
pub fn get_filename(path: &str) -> (r: String)
    requires
        has_segments(path@),
    ensures
        r@ == last_segment(path@),
{
    let p = chars_of(path);
    let mut j: usize = p.len();
    assert(p@.take(j as int) =~= p@);
    assert(last_segment(p@) =~= last_segment(p@.take(j as int)) + p@.subrange(j as int, p@.len() as int));
    while j > 0 && p[j - 1] != '/'
        invariant
            p@ == path@,
            j <= p@.len(),
            forall|k: int| j <= k < p@.len() ==> p@[k] != '/',
            last_segment(p@) == last_segment(p@.take(j as int)) + p@.subrange(j as int, p@.len() as int),
        decreases j,
    {
        proof {
            let t = p@.take(j as int);
            assert(t.drop_last() =~= p@.take(j - 1));
            assert(p@.subrange(j - 1, p@.len() as int) =~= seq![t.last()] + p@.subrange(
                j as int,
                p@.len() as int,
            ));
            assert(last_segment(t) == last_segment(t.drop_last()).push(t.last()));
            assert(last_segment(t.drop_last()).push(t.last()) + p@.subrange(j as int, p@.len() as int)
                =~= last_segment(t.drop_last()) + (seq![t.last()] + p@.subrange(
                j as int,
                p@.len() as int,
            )));
        }
        j = j - 1;
    }
    proof {
        let t = p@.take(j as int);
        assert(last_segment(t) =~= Seq::<char>::empty());
        assert(last_segment(p@) =~= p@.subrange(j as int, p@.len() as int));
    }
    let name = sub_chars(p.as_slice(), j, p.len());
    string_of(name.as_slice())
}

/// `format!("{}/{}", dir, name)`.
pub open spec fn joined(dir: Seq<char>, name: Seq<char>) -> Seq<char> {
    dir + seq!['/'] + name
}

pub fn join_path(dir: &str, name: &str) -> (r: String)
    ensures
        r@ == joined(dir@, name@),
{
    let mut v = chars_of(dir);
    v.push('/');
    let n = chars_of(name);
    let mut i: usize = 0;
    let ghost base = v@;
    while i < n.len()
        invariant
            i <= n@.len(),
            v@ == base + n@.take(i as int),
        decreases n@.len() - i,
    {
        v.push(n[i]);
        assert(n@.take(i + 1) =~= n@.take(i as int).push(n@[i as int]));
        i = i + 1;
    }
    assert(n@.take(i as int) =~= n@);
    string_of(v.as_slice())
}

} // verus!
