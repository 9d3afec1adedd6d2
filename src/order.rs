//! The stable order of groups by the path of their first image.

use vstd::prelude::*;
use crate::store::{ImgInfo, ImgView, group_view, groups_nonempty};

verus! {

/// Lexicographic order of paths, character by character (the order of
/// Unicode code points, which is also the byte order of their UTF-8 text).
pub open spec fn path_le(a: Seq<char>, b: Seq<char>) -> bool
    decreases a.len(),
{
    if a.len() == 0 {
        true
    } else if b.len() == 0 {
        false
    } else if a[0] as u32 != b[0] as u32 {
        (a[0] as u32) < (b[0] as u32)
    } else {
        path_le(a.drop_first(), b.drop_first())
    }
}

/// The path of a group's first image: the key by which groups are ordered.
pub open spec fn first_path(g: Seq<ImgView>) -> Seq<char> {
    g[0].path
}

/// Inserts `g` into `s` after every group of `s`, counted from the end, whose key
/// is greater than that of `g`: after groups with an equal key.
pub open spec fn insert_sorted(s: Seq<Seq<ImgView>>, g: Seq<ImgView>) -> Seq<Seq<ImgView>>
    decreases s.len(),
{
    if s.len() == 0 {
        seq![g]
    } else if path_le(first_path(s.last()), first_path(g)) {
        s.push(g)
    } else {
        insert_sorted(s.drop_last(), g).push(s.last())
    }
}

/// The groups in the stable order of their first paths.
pub open spec fn sort_by_first(gs: Seq<Seq<ImgView>>) -> Seq<Seq<ImgView>>
    decreases gs.len(),
{
    if gs.len() == 0 {
        Seq::empty()
    } else {
        insert_sorted(sort_by_first(gs.drop_last()), gs.last())
    }
}

/// Each group's first path is at most the next group's.
pub open spec fn sorted_by_first(gs: Seq<Seq<ImgView>>) -> bool {
    forall|k: int| 0 < k < gs.len() ==> path_le(first_path(#[trigger] gs[k - 1]), first_path(gs[k]))
}

/// Decides `path_le`.
pub fn path_le_exec(a: &Vec<char>, b: &Vec<char>) -> (r: bool)
    ensures
        r == path_le(a@, b@),
{
    let mut i: usize = 0;
    assert(a@.skip(0) =~= a@);
    assert(b@.skip(0) =~= b@);
    loop
        invariant
            i <= a@.len(),
            i <= b@.len(),
            path_le(a@, b@) == path_le(a@.skip(i as int), b@.skip(i as int)),
        decreases a@.len() - i,
    {
        if i == a.len() {
            return true;
        }
        if i == b.len() {
            return false;
        }
        if a[i] as u32 != b[i] as u32 {
            return (a[i] as u32) < (b[i] as u32);
        }
        assert(a@.skip(i as int)[0] == a@[i as int]);
        assert(b@.skip(i as int)[0] == b@[i as int]);
        assert(a@.skip(i as int).drop_first() =~= a@.skip(i + 1));
        assert(b@.skip(i as int).drop_first() =~= b@.skip(i + 1));
        i = i + 1;
    }
}

proof fn lemma_insert_at(s: Seq<Seq<ImgView>>, g: Seq<ImgView>, j: int)
    requires
        0 <= j <= s.len(),
        forall|k: int| j <= k < s.len() ==> !path_le(first_path(#[trigger] s[k]), first_path(g)),
        j > 0 ==> path_le(first_path(s[j - 1]), first_path(g)),
    ensures
        insert_sorted(s, g) == s.take(j).push(g) + s.skip(j),
    decreases s.len(),
{
    if s.len() == 0 {
        assert(s.take(j).push(g) + s.skip(j) =~= seq![g]);
    } else if j == s.len() {
        assert(s.take(j).push(g) + s.skip(j) =~= s.push(g));
    } else {
        let d = s.drop_last();
        assert(!path_le(first_path(s[s.len() - 1]), first_path(g)));
        lemma_insert_at(d, g, j);
        assert(d.take(j).push(g) + d.skip(j) + seq![s.last()] =~= s.take(j).push(g) + s.skip(j));
    }
}

/// The view of a list of groups.
pub open spec fn groups_view(gs: Seq<Vec<ImgInfo>>) -> Seq<Seq<ImgView>> {
    gs.map_values(|g: Vec<ImgInfo>| group_view(g@))
}

/// Each key is the first path of the group at its position.
pub open spec fn keys_match(keys: Seq<Vec<char>>, gs: Seq<Vec<ImgInfo>>) -> bool {
    &&& keys.len() == gs.len()
    &&& forall|k: int| 0 <= k < keys.len() ==> #[trigger] keys[k]@ == first_path(group_view(gs[k]@))
}

/// Inserts a group, with its key, where `insert_sorted` puts it.
pub fn insert_group(
    keys: &mut Vec<Vec<char>>,
    groups: &mut Vec<Vec<ImgInfo>>,
    key: Vec<char>,
    g: Vec<ImgInfo>,
)
    requires
        keys_match(old(keys)@, old(groups)@),
        groups_nonempty(groups_view(old(groups)@)),
        g@.len() > 0,
        key@ == first_path(group_view(g@)),
    ensures
        keys_match(final(keys)@, final(groups)@),
        groups_nonempty(groups_view(final(groups)@)),
        groups_view(final(groups)@) == insert_sorted(groups_view(old(groups)@), group_view(g@)),
{
    let ghost s = groups_view(groups@);
    let ghost gv = group_view(g@);
    let mut j: usize = keys.len();
    while j > 0 && !path_le_exec(&keys[j - 1], &key)
        invariant
            j <= keys@.len(),
            keys_match(keys@, groups@),
            s == groups_view(groups@),
            key@ == first_path(gv),
            forall|k: int| j <= k < s.len() ==> !path_le(first_path(#[trigger] s[k]), first_path(gv)),
        decreases j,
    {
        assert(s[j - 1] == group_view(groups@[j - 1]@));
        assert(keys@[j - 1]@ == first_path(group_view(groups@[j - 1]@)));
        j = j - 1;
    }
    proof {
        lemma_insert_at(s, gv, j as int);
    }
    keys.insert(j, key);
    groups.insert(j, g);
    assert(groups_view(groups@) =~= s.take(j as int).push(gv) + s.skip(j as int));
    assert forall|k: int| 0 <= k < keys@.len() implies #[trigger] keys@[k]@ == first_path(
        group_view(groups@[k]@),
    ) by {
        if k > j {
            assert(keys@[k] == old(keys)@[k - 1]);
        }
    }
}

} // verus!

verus! {

proof fn lemma_path_le_total(a: Seq<char>, b: Seq<char>)
    ensures
        path_le(a, b) || path_le(b, a),
    decreases a.len(),
{
    if a.len() > 0 && b.len() > 0 && a[0] as u32 == b[0] as u32 {
        lemma_path_le_total(a.drop_first(), b.drop_first());
    }
}

proof fn lemma_insert_sorted_shape(s: Seq<Seq<ImgView>>, g: Seq<ImgView>)
    ensures
        insert_sorted(s, g).len() == s.len() + 1,
        insert_sorted(s, g).last() == g || (s.len() > 0 && insert_sorted(s, g).last() == s.last()),
        sorted_by_first(s) ==> sorted_by_first(insert_sorted(s, g)),
    decreases s.len(),
{
    if s.len() > 0 {
        let d = s.drop_last();
        lemma_insert_sorted_shape(d, g);
        if !path_le(first_path(s.last()), first_path(g)) {
            let r = insert_sorted(d, g);
            if sorted_by_first(s) {
                assert(sorted_by_first(d)) by {
                    assert forall|k: int| 0 < k < d.len() implies path_le(
                        first_path(#[trigger] d[k - 1]),
                        first_path(d[k]),
                    ) by {
                        assert(d[k - 1] == s[k - 1] && d[k] == s[k]);
                    }
                }
                lemma_path_le_total(first_path(s.last()), first_path(g));
                let r2 = r.push(s.last());
                assert forall|k: int| 0 < k < r2.len() implies path_le(
                    first_path(#[trigger] r2[k - 1]),
                    first_path(r2[k]),
                ) by {
                    if k == r2.len() - 1 {
                        if r.last() != g {
                            assert(r.last() == d.last());
                            assert(s[s.len() - 2] == d.last());
                        }
                    } else {
                        assert(r2[k - 1] == r[k - 1] && r2[k] == r[k]);
                    }
                }
            }
        } else if sorted_by_first(s) {
            let r2 = s.push(g);
            assert forall|k: int| 0 < k < r2.len() implies path_le(
                first_path(#[trigger] r2[k - 1]),
                first_path(r2[k]),
            ) by {
                if k < r2.len() - 1 {
                    assert(r2[k - 1] == s[k - 1] && r2[k] == s[k]);
                }
            }
        }
    }
}

/// Sorting always gives groups ordered by their first paths.
pub proof fn lemma_sort_sorted(gs: Seq<Seq<ImgView>>)
    ensures
        sorted_by_first(sort_by_first(gs)),
        sort_by_first(gs).len() == gs.len(),
    decreases gs.len(),
{
    if gs.len() > 0 {
        lemma_sort_sorted(gs.drop_last());
        lemma_insert_sorted_shape(sort_by_first(gs.drop_last()), gs.last());
    }
}

/// Sorting groups that are already in order leaves them as they are: sorting
/// again changes nothing.
pub proof fn lemma_sort_sorted_identity(gs: Seq<Seq<ImgView>>)
    requires
        sorted_by_first(gs),
    ensures
        sort_by_first(gs) == gs,
    decreases gs.len(),
{
    if gs.len() > 0 {
        let d = gs.drop_last();
        assert(sorted_by_first(d)) by {
            assert forall|k: int| 0 < k < d.len() implies path_le(
                first_path(#[trigger] d[k - 1]),
                first_path(d[k]),
            ) by {
                assert(d[k - 1] == gs[k - 1] && d[k] == gs[k]);
            }
        }
        lemma_sort_sorted_identity(d);
        if d.len() > 0 {
            assert(d.last() == gs[gs.len() - 2]);
        }
        assert(d.push(gs.last()) =~= gs);
    }
}

} // verus!
