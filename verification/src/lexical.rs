//! The lexical path engine: how a sequence of characters parses into
//! components, and the spec-level queries derived from that parse.
//!
//! Parsing follows the conventional normalization rules: repeated
//! separators collapse, occurrences of `.` are dropped except a leading
//! one, and a trailing separator is ignored. No other normalization takes
//! place; in particular `a/c` and `a/b/../c` parse differently, so that a
//! symbolic link in the middle of a path stays observable.

use vstd::prelude::*;
use vstd::string::*;
use crate::component::CompModel;
use crate::component::Component;
use crate::component::models_of;
use crate::component::lemma_models_of_push;

verus! {

/// The platform separator.
pub open spec fn is_sep(c: char) -> bool {
    c == '/'
}

/// Whether the path starts with the root marker.
pub open spec fn has_root(s: Seq<char>) -> bool {
    s.len() > 0 && is_sep(s[0])
}

/// Whether the path keeps a leading current-directory marker: it starts
/// with `.` standing alone or followed by a separator, and has no root.
pub open spec fn starts_cur_dir(s: Seq<char>) -> bool {
    &&& !has_root(s)
    &&& s.len() > 0
    &&& s[0] == '.'
    &&& (s.len() == 1 || is_sep(s[1]))
}

/// The raw segments of a path: the text split at every separator,
/// empty segments included. Splitting the empty path gives one empty
/// segment, so the result is never empty.
pub open spec fn raw_segs(s: Seq<char>) -> Seq<Seq<char>>
    decreases s.len(),
{
    if s.len() == 0 {
        seq![Seq::<char>::empty()]
    } else if is_sep(s.last()) {
        raw_segs(s.drop_last()).push(Seq::<char>::empty())
    } else {
        let r = raw_segs(s.drop_last());
        r.update(r.len() - 1, r.last().push(s.last()))
    }
}

pub proof fn lemma_raw_segs_nonempty(s: Seq<char>)
    ensures
        raw_segs(s).len() >= 1,
    decreases s.len(),
{
    if s.len() > 0 {
        lemma_raw_segs_nonempty(s.drop_last());
    }
}

/// Whether a raw segment survives normalization: empty segments
/// (repeated or trailing separators) and `.` segments are dropped.
pub open spec fn seg_keep(g: Seq<char>) -> bool {
    g.len() > 0 && g != seq!['.']
}

/// The component a kept segment stands for.
pub open spec fn seg_comp(g: Seq<char>) -> CompModel {
    if g == seq!['.', '.'] {
        CompModel::ParentDir
    } else {
        CompModel::Normal(g)
    }
}

/// The components the raw segments normalize to, in order.
pub open spec fn norm_segs(raw: Seq<Seq<char>>) -> Seq<CompModel>
    decreases raw.len(),
{
    if raw.len() == 0 {
        Seq::<CompModel>::empty()
    } else if seg_keep(raw.last()) {
        norm_segs(raw.drop_last()).push(seg_comp(raw.last()))
    } else {
        norm_segs(raw.drop_last())
    }
}

/// The marker components a path starts with: its root marker, or a
/// preserved leading current-directory marker.
pub open spec fn prefix_comps(s: Seq<char>) -> Seq<CompModel> {
    if has_root(s) {
        seq![CompModel::RootDir]
    } else if starts_cur_dir(s) {
        seq![CompModel::CurDir]
    } else {
        Seq::<CompModel>::empty()
    }
}

/// The component sequence a path parses into.
pub open spec fn spec_components(s: Seq<char>) -> Seq<CompModel> {
    prefix_comps(s) + norm_segs(raw_segs(s))
}

pub proof fn lemma_components_empty()
    ensures
        spec_components(Seq::<char>::empty()) == Seq::<CompModel>::empty(),
{
    let e = Seq::<char>::empty();
    let r = raw_segs(e);
    assert(r == seq![Seq::<char>::empty()]);
    assert(!seg_keep(r.last()));
    assert(r.drop_last() =~= Seq::<Seq<char>>::empty());
    assert(norm_segs(r) == norm_segs(Seq::<Seq<char>>::empty()));
    assert(norm_segs(r) =~= Seq::<CompModel>::empty());
    assert(prefix_comps(e) =~= Seq::<CompModel>::empty());
    assert(spec_components(e) =~= Seq::<CompModel>::empty());
}

/// The final component's text, when the final component is a named
/// segment; nothing when the path has no components or ends in a marker.
pub open spec fn spec_file_name(s: Seq<char>) -> Option<Seq<char>> {
    let cv = spec_components(s);
    if cv.len() > 0 && cv.last() is Normal {
        Option::Some(cv.last()->Normal_0)
    } else {
        Option::None
    }
}

/// The extension of a file name: the text after the last `.` that is not
/// the name's first character. A name with no such `.` — in particular a
/// name that begins with its only `.` — has none.
pub open spec fn ext_of_name(f: Seq<char>) -> Option<Seq<char>>
    decreases f.len(),
{
    if f.len() <= 1 {
        Option::None
    } else if f.last() == '.' {
        Option::Some(Seq::<char>::empty())
    } else {
        match ext_of_name(f.drop_last()) {
            Option::Some(e) => Option::Some(e.push(f.last())),
            Option::None => Option::None,
        }
    }
}

/// The stem of a file name: what precedes the extension's `.`, or the
/// whole name when there is no extension.
pub open spec fn stem_of_name(f: Seq<char>) -> Seq<char> {
    match ext_of_name(f) {
        Option::Some(e) => f.take(f.len() - e.len() - 1),
        Option::None => f,
    }
}

/// The extension of the path's file name.
pub open spec fn spec_extension(s: Seq<char>) -> Option<Seq<char>> {
    match spec_file_name(s) {
        Option::Some(f) => ext_of_name(f),
        Option::None => Option::None,
    }
}

/// The stem of the path's file name.
pub open spec fn spec_file_stem(s: Seq<char>) -> Option<Seq<char>> {
    match spec_file_name(s) {
        Option::Some(f) => Option::Some(stem_of_name(f)),
        Option::None => Option::None,
    }
}

/// Whether `c`'s components are a suffix of `a`'s: suffix matching works
/// on whole components, never on parts of a segment's text.
pub open spec fn spec_ends_with(a: Seq<char>, c: Seq<char>) -> bool {
    let av = spec_components(a);
    let cv = spec_components(c);
    cv.len() <= av.len() && av.skip(av.len() - cv.len()) == cv
}

/// Whether the path has no parent: it has no components at all, or it is
/// the root alone.
pub open spec fn no_parent(s: Seq<char>) -> bool {
    spec_components(s).len() == 0 || spec_components(s) == seq![CompModel::RootDir]
}

/// How a path and its parent relate: the parent parses to the path's
/// components with the final one dropped, and is a proper prefix of the
/// path's own text.
pub open spec fn parent_link(s: Seq<char>, p: Seq<char>) -> bool {
    &&& !no_parent(s)
    &&& spec_components(p) == spec_components(s).drop_last()
    &&& p.len() < s.len()
    &&& p == s.take(p.len() as int)
}

/// Where the last admissible `.` of a name sits, the extension is what
/// follows it.
pub proof fn lemma_ext_at_dot(f: Seq<char>, d: int)
    requires
        1 <= d < f.len(),
        f[d] == '.',
        forall|k: int| d < k < f.len() ==> f[k] != '.',
    ensures
        ext_of_name(f) == Option::Some(f.skip(d + 1)),
    decreases f.len(),
{
    if d == f.len() - 1 {
        assert(f.last() == '.');
        assert(f.skip(d + 1) =~= Seq::<char>::empty());
    } else {
        assert(f[f.len() - 1] != '.');
        assert(f.last() != '.');
        let g = f.drop_last();
        assert(g[d] == f[d]);
        assert forall|k: int| d < k < g.len() implies g[k] != '.' by {
            assert(g[k] == f[k]);
        }
        lemma_ext_at_dot(g, d);
        let e = g.skip(d + 1);
        assert(ext_of_name(f) == Option::Some(e.push(f.last())));
        assert(e.push(f.last()) =~= f.skip(d + 1));
    }
}

/// A name whose only possible `.` is its first character has no extension.
pub proof fn lemma_ext_none(f: Seq<char>)
    requires
        forall|k: int| 1 <= k < f.len() ==> f[k] != '.',
    ensures
        ext_of_name(f) is None,
    decreases f.len(),
{
    if f.len() > 1 {
        assert(f[f.len() - 1] != '.');
        assert(f.last() != '.');
        let g = f.drop_last();
        assert forall|k: int| 1 <= k < g.len() implies g[k] != '.' by {
            assert(g[k] == f[k]);
        }
        lemma_ext_none(g);
    }
}

/// A file name splits exactly into its stem and its extension: gluing
/// the stem, a `.` and the extension back together gives the name, and
/// a name without an extension is its own stem.
pub proof fn lemma_stem_ext_reconstruct(f: Seq<char>)
    ensures
        match ext_of_name(f) {
            Option::Some(e) => f == stem_of_name(f) + seq!['.'] + e,
            Option::None => stem_of_name(f) == f,
        },
    decreases f.len(),
{
    if f.len() <= 1 {
    } else if f.last() == '.' {
        assert(stem_of_name(f) == f.take(f.len() - 1));
        assert(stem_of_name(f) + seq!['.'] + Seq::<char>::empty() =~= f);
    } else {
        let g = f.drop_last();
        lemma_stem_ext_reconstruct(g);
        match ext_of_name(g) {
            Option::Some(e1) => {
                let e = e1.push(f.last());
                assert(ext_of_name(f) == Option::Some(e));
                assert(stem_of_name(f) == f.take(f.len() - e.len() - 1));
                assert(stem_of_name(g) == g.take(g.len() - e1.len() - 1));
                assert(stem_of_name(f) =~= stem_of_name(g));
                assert(g == stem_of_name(g) + seq!['.'] + e1);
                assert(f =~= g.push(f.last()));
                assert(stem_of_name(f) + seq!['.'] + e =~= (stem_of_name(g) + seq!['.']
                    + e1).push(f.last()));
            }
            Option::None => {
                assert(ext_of_name(f) is None);
            }
        }
    }
}

/// Parsing is deterministic and free of hidden state: two paths with the
/// same characters parse to the same components, however their views
/// were constructed.
pub proof fn lemma_components_deterministic(a: Seq<char>, b: Seq<char>)
    requires
        a == b,
    ensures
        spec_components(a) == spec_components(b),
{
}

/// A trailing separator is ignored: adding one to a nonempty path leaves
/// the components unchanged.
pub proof fn lemma_trailing_sep_ignored(s: Seq<char>)
    requires
        s.len() > 0,
    ensures
        spec_components(s.push('/')) == spec_components(s),
{
    let s1 = s.push('/');
    assert(s1.drop_last() =~= s);
    assert(raw_segs(s1) == raw_segs(s).push(Seq::<char>::empty()));
    lemma_raw_segs_nonempty(s);
    assert(raw_segs(s1).drop_last() =~= raw_segs(s));
    assert(norm_segs(raw_segs(s1)) == norm_segs(raw_segs(s)));
    assert(s1[0] == s[0]);
    assert(has_root(s1) == has_root(s));
    if s.len() == 1 {
        assert(starts_cur_dir(s1) == starts_cur_dir(s));
    } else {
        assert(s1[1] == s[1]);
        assert(starts_cur_dir(s1) == starts_cur_dir(s));
    }
    assert(prefix_comps(s1) == prefix_comps(s));
}

/// Along a chain of parents — each element after the first the parent
/// of the one before, ending with the first element that has no parent
/// — the element at position `i` parses to the head's components with
/// the last `i` dropped, and the chain's length is fixed by the head's
/// component count: one entry per component, plus one for the final
/// componentless ancestor unless the chain ends at the root.
pub proof fn lemma_ancestor_chain(vs: Seq<Seq<char>>, s: Seq<char>)
    requires
        vs.len() >= 1,
        vs[0] == s,
        forall|i: int| 0 <= i < vs.len() - 1 ==> parent_link(#[trigger] vs[i], vs[i + 1]),
        no_parent(vs.last()),
    ensures
        forall|i: int|
            0 <= i < vs.len() ==> spec_components(#[trigger] vs[i]) == spec_components(s).take(
                spec_components(s).len() - i,
            ),
        vs.len() == if spec_components(s).len() > 0 && spec_components(s)[0]
            == CompModel::RootDir {
            spec_components(s).len() as int
        } else {
            spec_components(s).len() + 1int
        },
    decreases vs.len(),
{
    let cv = spec_components(s);
    assert(cv.take(cv.len() as int) =~= cv);
    if vs.len() == 1 {
        if cv == seq![CompModel::RootDir] {
            assert(cv.len() == 1 && cv[0] == CompModel::RootDir);
        }
    } else {
        assert(parent_link(vs[0], vs[1]));
        let s1 = vs[1];
        let cv1 = spec_components(s1);
        assert(cv1 == cv.drop_last());
        assert(cv.drop_last() =~= cv.take(cv.len() - 1));
        assert(cv.len() >= 1);
        let tail = vs.skip(1);
        assert(tail[0] == s1);
        assert(tail.last() == vs.last());
        assert forall|i: int| 0 <= i < tail.len() - 1 implies parent_link(
            #[trigger] tail[i],
            tail[i + 1],
        ) by {
            assert(tail[i] == vs[i + 1]);
            assert(tail[i + 1] == vs[i + 2]);
        }
        lemma_ancestor_chain(tail, s1);
        assert forall|i: int| 0 <= i < vs.len() implies spec_components(#[trigger] vs[i])
            == cv.take(cv.len() - i) by {
            if i > 0 {
                assert(vs[i] == tail[i - 1]);
                assert(spec_components(tail[i - 1]) == cv1.take(cv1.len() - (i - 1)));
                assert(cv1.take(cv1.len() - (i - 1)) =~= cv.take(cv.len() - i));
            }
        }
        if cv.len() >= 2 {
            assert(cv1[0] == cv[0]);
        } else {
            assert(cv1.len() == 0);
            if cv[0] == CompModel::RootDir {
                assert(cv =~= seq![CompModel::RootDir]);
                assert(false);
            }
        }
    }
}

/// Taking a prefix of the path keeps its leading markers, as long as the
/// prefix is nonempty and does not cut a lone `.` out of a longer first
/// segment.
pub proof fn lemma_prefix_comps_take(s: Seq<char>, i: int)
    requires
        1 <= i <= s.len(),
        i == 1 ==> s[0] != '.',
    ensures
        prefix_comps(s.take(i)) == prefix_comps(s),
{
    let t = s.take(i);
    assert(t.len() == i);
    assert(t[0] == s[0]);
    assert(has_root(t) == has_root(s));
    if i == 1 {
        assert(!starts_cur_dir(t));
        assert(!starts_cur_dir(s));
    } else {
        assert(t[1] == s[1]);
        assert(starts_cur_dir(t) == starts_cur_dir(s));
    }
}

/// Emits the raw segment `s[start..i]` as a component if it survives
/// normalization, recording `i` as the position where that component's
/// text ends. The models built so far must cover everything before the
/// segment; afterwards they cover the segment too.
fn emit_if_kept(s: &str, start: usize, i: usize, comps: &mut Vec<Component>, ends: &mut Vec<usize>)
    requires
        start <= i <= s@.len(),
        old(comps)@.len() == old(ends)@.len(),
        raw_segs(s@.take(i as int)).last() == s@.subrange(start as int, i as int),
        models_of(old(comps)@) == prefix_comps(s@) + norm_segs(
            raw_segs(s@.take(i as int)).drop_last(),
        ),
        forall|j: int|
            0 <= j < old(ends)@.len() ==> (#[trigger] old(ends)@[j]) <= s@.len()
                && spec_components(s@.take(old(ends)@[j] as int)) == models_of(
                old(comps)@,
            ).take(j + 1),
    ensures
        final(comps)@.len() == final(ends)@.len(),
        models_of(final(comps)@) == prefix_comps(s@) + norm_segs(raw_segs(s@.take(i as int))),
        forall|j: int|
            0 <= j < final(ends)@.len() ==> (#[trigger] final(ends)@[j]) <= s@.len()
                && spec_components(s@.take(final(ends)@[j] as int)) == models_of(
                final(comps)@,
            ).take(j + 1),
{
    let ghost t = s@.take(i as int);
    let ghost rs = raw_segs(t);
    let ghost seg = s@.subrange(start as int, i as int);
    proof {
        lemma_raw_segs_nonempty(t);
        assert(seg.len() == i - start);
    }
    if i > start && !(i - start == 1 && s.get_char(start) == '.') {
        proof {
            if seg.len() == 1 && seg =~= seq!['.'] {
                assert(seg[0] == s@[start as int]);
                assert(false);
            }
            assert(seg_keep(seg));
        }
        let comp: Component = if i - start == 2 && s.get_char(start) == '.' && s.get_char(
            start + 1,
        ) == '.' {
            proof {
                assert(seg =~= seq!['.', '.']);
            }
            Component::ParentDir
        } else {
            proof {
                if seg =~= seq!['.', '.'] {
                    assert(seg.len() == 2 && seg[0] == '.' && seg[1] == '.');
                    assert(false);
                }
            }
            Component::Normal(s.substring_char(start, i).to_owned())
        };
        proof {
            assert(comp@ == seg_comp(seg));
            assert(norm_segs(rs) == norm_segs(rs.drop_last()).push(seg_comp(seg)));
            lemma_models_of_push(comps@, comp);
            assert((prefix_comps(s@) + norm_segs(rs.drop_last())).push(seg_comp(seg))
                =~= prefix_comps(s@) + norm_segs(rs));
        }
        let ghost old_models = models_of(comps@);
        let ghost old_len = comps@.len() as int;
        comps.push(comp);
        ends.push(i);
        proof {
            // the markers of the prefix `s[..i]` agree with those of `s`
            if i == 1 {
                assert(start == 0);
                assert(seg =~= seq![s@[0]]);
                assert(s@[0] != '.');
            }
            lemma_prefix_comps_take(s@, i as int);
            assert(spec_components(t) == prefix_comps(s@) + norm_segs(rs));
            assert(models_of(comps@).take(old_len + 1) =~= models_of(comps@));
            assert forall|j: int| 0 <= j < old_len implies #[trigger] models_of(comps@).take(j + 1)
                == old_models.take(j + 1) by {
                assert(models_of(comps@).take(j + 1) =~= old_models.take(j + 1));
            }
        }
    } else {
        proof {
            if i == start {
                assert(seg =~= Seq::<char>::empty());
                assert(!seg_keep(seg));
            } else {
                assert(seg.len() == 1 && seg[0] == s@[start as int] && seg[0] == '.');
                assert(seg =~= seq!['.']);
                assert(!seg_keep(seg));
            }
            assert(norm_segs(rs) == norm_segs(rs.drop_last()));
        }
    }
}

/// Parses a path into its components, returning beside each component
/// the position in the text where that component ends: the text up to
/// that position parses to exactly the components up to and including
/// it.
pub(crate) fn parse(s: &str) -> (r: (Vec<Component>, Vec<usize>))
    ensures
        models_of(r.0@) == spec_components(s@),
        r.1@.len() == r.0@.len(),
        forall|j: int|
            0 <= j < r.1@.len() ==> (#[trigger] r.1@[j]) <= s@.len() && spec_components(
                s@.take(r.1@[j] as int),
            ) == models_of(r.0@).take(j + 1),
{
    let n = s.unicode_len();
    let mut comps: Vec<Component> = Vec::new();
    let mut ends: Vec<usize> = Vec::new();
    let mut start: usize = 0;
    let mut i: usize = 0;
    proof {
        assert(s@.take(0) =~= Seq::<char>::empty());
        assert(raw_segs(Seq::<char>::empty()).last() =~= s@.subrange(0, 0));
        assert(raw_segs(Seq::<char>::empty()).drop_last() =~= Seq::<Seq<char>>::empty());
        assert(models_of(comps@) =~= Seq::<CompModel>::empty());
    }
    if n >= 1 && s.get_char(0) == '/' {
        comps.push(Component::RootDir);
        ends.push(1);
        start = 1;
        i = 1;
        proof {
            let t = s@.take(1);
            assert(t =~= seq![s@[0]]);
            assert(t.drop_last() =~= Seq::<char>::empty());
            assert(raw_segs(t) == raw_segs(Seq::<char>::empty()).push(Seq::<char>::empty()));
            assert(raw_segs(t) =~= seq![Seq::<char>::empty(), Seq::<char>::empty()]);
            assert(raw_segs(t).last() =~= s@.subrange(1, 1));
            let raw1: Seq<Seq<char>> = seq![Seq::<char>::empty()];
            assert(raw_segs(t).drop_last() =~= raw1);
            assert(raw1.drop_last() =~= Seq::<Seq<char>>::empty());
            assert(!seg_keep(raw1.last()));
            assert(norm_segs(Seq::<Seq<char>>::empty()) =~= Seq::<CompModel>::empty());
            assert(norm_segs(raw1) =~= Seq::<CompModel>::empty());
            assert(norm_segs(raw_segs(t).drop_last()) =~= Seq::<CompModel>::empty());
            assert(has_root(s@) && has_root(t));
            assert(models_of(comps@) =~= seq![CompModel::RootDir]);
            assert(models_of(comps@) =~= prefix_comps(s@) + norm_segs(raw_segs(t).drop_last()));
            assert(norm_segs(raw_segs(t)) =~= Seq::<CompModel>::empty());
            assert(spec_components(t) =~= models_of(comps@).take(1));
        }
    } else if n >= 1 && s.get_char(0) == '.' && (n == 1 || s.get_char(1) == '/') {
        comps.push(Component::CurDir);
        ends.push(1);
        i = 1;
        proof {
            let t = s@.take(1);
            assert(t =~= seq![s@[0]]);
            assert(t.drop_last() =~= Seq::<char>::empty());
            assert(!is_sep(t.last()));
            assert(raw_segs(t) == raw_segs(Seq::<char>::empty()).update(
                0,
                Seq::<char>::empty().push('.'),
            ));
            assert(raw_segs(t) =~= seq![seq!['.']]);
            assert(raw_segs(t).last() =~= s@.subrange(0, 1));
            assert(raw_segs(t).drop_last() =~= Seq::<Seq<char>>::empty());
            assert(norm_segs(raw_segs(t).drop_last()) =~= Seq::<CompModel>::empty());
            assert(!has_root(s@) && starts_cur_dir(s@));
            assert(!has_root(t) && starts_cur_dir(t));
            assert(models_of(comps@) =~= seq![CompModel::CurDir]);
            assert(models_of(comps@) =~= prefix_comps(s@) + norm_segs(raw_segs(t).drop_last()));
            assert(!seg_keep(raw_segs(t).last()));
            assert(norm_segs(raw_segs(t)) =~= Seq::<CompModel>::empty());
            assert(spec_components(t) =~= models_of(comps@).take(1));
        }
    } else {
        proof {
            assert(!has_root(s@) && !starts_cur_dir(s@));
            assert(prefix_comps(s@) =~= Seq::<CompModel>::empty());
            assert(models_of(comps@) =~= prefix_comps(s@) + norm_segs(
                raw_segs(s@.take(0)).drop_last(),
            ));
        }
    }
    while i < n
        invariant
            n == s@.len(),
            start <= i <= n,
            comps@.len() == ends@.len(),
            raw_segs(s@.take(i as int)).last() == s@.subrange(start as int, i as int),
            models_of(comps@) == prefix_comps(s@) + norm_segs(
                raw_segs(s@.take(i as int)).drop_last(),
            ),
            forall|j: int|
                0 <= j < ends@.len() ==> (#[trigger] ends@[j]) <= s@.len() && spec_components(
                    s@.take(ends@[j] as int),
                ) == models_of(comps@).take(j + 1),
        decreases n - i,
    {
        let c = s.get_char(i);
        let ghost t = s@.take(i as int);
        let ghost t1 = s@.take(i + 1 as int);
        proof {
            lemma_raw_segs_nonempty(t);
            assert(t1.drop_last() =~= t);
            assert(t1.last() == s@[i as int]);
        }
        if c == '/' {
            emit_if_kept(s, start, i, &mut comps, &mut ends);
            proof {
                assert(raw_segs(t1) == raw_segs(t).push(Seq::<char>::empty()));
                assert(raw_segs(t1).drop_last() =~= raw_segs(t));
                assert(raw_segs(t1).last() =~= s@.subrange(i + 1 as int, i + 1 as int));
            }
            start = i + 1;
        } else {
            proof {
                let rs = raw_segs(t);
                assert(raw_segs(t1) == rs.update(rs.len() - 1, rs.last().push(s@[i as int])));
                assert(raw_segs(t1).last() =~= s@.subrange(start as int, i + 1 as int));
                assert(raw_segs(t1).drop_last() =~= rs.drop_last());
            }
        }
        i = i + 1;
    }
    proof {
        assert(s@.take(n as int) =~= s@);
    }
    emit_if_kept(s, start, n, &mut comps, &mut ends);
    proof {
        assert(models_of(comps@) == spec_components(s@));
    }
    (comps, ends)
}

} // verus!
