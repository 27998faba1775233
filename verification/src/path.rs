//! The `Path` and `PathBuf` types and their lexical operations.

use vstd::prelude::*;
use vstd::string::*;
use crate::component::Component;
use crate::component::CompModel;
use crate::component::models_of;
use crate::lexical::spec_components;
use crate::lexical::has_root;
use crate::lexical::spec_file_name;
use crate::lexical::spec_extension;
use crate::lexical::spec_file_stem;
use crate::lexical::spec_ends_with;
use crate::lexical::stem_of_name;
use crate::lexical::no_parent;
use crate::lexical::parent_link;
use crate::lexical::parse;
use crate::lexical::lemma_ancestor_chain;
use crate::lexical::lemma_components_empty;
use crate::lexical::lemma_ext_at_dot;
use crate::lexical::lemma_ext_none;

verus! {

/// A path, held as text. All lexical operations are total: they parse
/// the text and never fail.
pub struct Path {
    inner: String,
}

/// An owned path buffer. It carries the same text as a `Path` and
/// converts to one for read access.
pub struct PathBuf {
    inner: String,
}

impl View for Path {
    type V = Seq<char>;

    closed spec fn view(&self) -> Seq<char> {
        self.inner@
    }
}

impl View for PathBuf {
    type V = Seq<char>;

    closed spec fn view(&self) -> Seq<char> {
        self.inner@
    }
}

impl Path {
    /// Wraps path text as a `Path`.
    pub fn new(s: &str) -> (p: Path)
        ensures
            p@ == s@,
    {
        Path { inner: s.to_owned() }
    }

    /// The path's text.
    pub fn as_str(&self) -> (r: &str)
        ensures
            r@ == self@,
    {
        self.inner.as_str()
    }

    /// The path's text as an owned string, for printing.
    pub fn display(&self) -> (r: String)
        ensures
            r@ == self@,
    {
        self.inner.clone()
    }

    /// Converts the path to an owned `PathBuf` holding the same text.
    pub fn to_path_buf(&self) -> (r: PathBuf)
        ensures
            r@ == self@,
    {
        PathBuf { inner: self.inner.clone() }
    }

    /// Converts a boxed path into an owned `PathBuf` holding the same
    /// text.
    pub fn into_path_buf(self: Box<Path>) -> (r: PathBuf)
        ensures
            r@ == self@,
    {
        let b = *self;
        PathBuf { inner: b.inner }
    }

    /// Parses the path into its components, in order. Repeated
    /// separators collapse, a trailing separator is ignored, and `.`
    /// segments are dropped except a leading one; no other
    /// normalization takes place, so `a/c` and `a/b/../c` stay
    /// distinct. The result depends on the path's characters alone.
    pub fn components(&self) -> (r: Vec<Component>)
        ensures
            models_of(r@) == spec_components(self@),
    {
        let (comps, _ends) = parse(self.inner.as_str());
        comps
    }

    /// The path with its final component dropped: `None` when there is
    /// no component to drop, or the path is the root alone. The parent
    /// is always a proper prefix of the path's own text.
    pub fn parent(&self) -> (r: Option<Path>)
        ensures
            match r {
                Option::Some(p) => parent_link(self@, p@),
                Option::None => no_parent(self@),
            },
    {
        let (comps, ends) = parse(self.inner.as_str());
        let k = comps.len();
        if k == 0 {
            return Option::None;
        }
        proof {
            assert(models_of(comps@).len() == comps@.len());
            if self@.len() == 0 {
                assert(self@ =~= Seq::<char>::empty());
                lemma_components_empty();
                assert(false);
            }
        }
        if k == 1 {
            let is_root = match &comps[0] {
                Component::RootDir => true,
                _ => false,
            };
            proof {
                assert(models_of(comps@)[0] == comps@[0]@);
            }
            if is_root {
                proof {
                    assert(models_of(comps@) =~= seq![CompModel::RootDir]);
                }
                return Option::None;
            }
            let p = Path { inner: String::new() };
            proof {
                lemma_components_empty();
                assert(p@ =~= Seq::<char>::empty());
                assert(spec_components(p@) =~= spec_components(self@).drop_last());
                assert(p@ =~= self@.take(0));
                assert(models_of(comps@) != seq![CompModel::RootDir]);
            }
            return Option::Some(p);
        }
        let e = ends[k - 2];
        let p = Path { inner: self.inner.as_str().substring_char(0, e).to_owned() };
        proof {
            let cv = spec_components(self@);
            assert(p@ =~= self@.take(e as int));
            assert(spec_components(self@.take(e as int)) == models_of(comps@).take(k - 1));
            assert(cv.drop_last() =~= cv.take(k - 1));
            if e == self@.len() {
                assert(self@.take(e as int) =~= self@);
                assert(cv.take(k - 1).len() == k - 1);
                assert(false);
            }
            assert(p@.len() == e < self@.len());
            assert(cv != seq![CompModel::RootDir]) by {
                assert(cv.len() == k >= 2);
            }
        }
        Option::Some(p)
    }

    /// The path itself, then each successive parent, ending with the
    /// first ancestor that has no parent. There is always at least one
    /// element, and the first is the path itself.
    pub fn ancestors(&self) -> (r: Vec<Path>)
        ensures
            r@.len() >= 1,
            r@[0]@ == self@,
            forall|i: int|
                0 <= i < r@.len() - 1 ==> parent_link(#[trigger] r@[i]@, r@[i + 1]@),
            no_parent(r@[r@.len() - 1]@),
            forall|i: int|
                0 <= i < r@.len() ==> spec_components(#[trigger] r@[i]@) == spec_components(
                    self@,
                ).take(spec_components(self@).len() - i),
            r@.len() == if spec_components(self@).len() > 0 && spec_components(self@)[0]
                == CompModel::RootDir {
                spec_components(self@).len() as int
            } else {
                spec_components(self@).len() + 1int
            },
    {
        let mut out: Vec<Path> = Vec::new();
        let mut cur = Path { inner: self.inner.clone() };
        let mut done = false;
        while !done
            invariant
                out@.len() == 0 ==> !done && cur@ == self@,
                out@.len() >= 1 ==> out@[0]@ == self@,
                forall|i: int|
                    0 <= i < out@.len() - 1 ==> parent_link(
                        #[trigger] out@[i]@,
                        out@[i + 1]@,
                    ),
                !done && out@.len() >= 1 ==> parent_link(out@[out@.len() - 1]@, cur@),
                done ==> out@.len() >= 1 && no_parent(out@[out@.len() - 1]@),
            decreases (if done { 0int } else { 1int }), cur@.len(),
        {
            let next = cur.parent();
            out.push(Path { inner: cur.inner.clone() });
            match next {
                Option::Some(p) => {
                    cur = p;
                }
                Option::None => {
                    done = true;
                }
            }
        }
        proof {
            let vs = out@.map_values(|p: Path| p@);
            assert(vs.len() == out@.len());
            assert(vs[0] == out@[0]@);
            assert(vs.last() == out@[out@.len() - 1]@);
            assert forall|i: int| 0 <= i < vs.len() - 1 implies parent_link(
                #[trigger] vs[i],
                vs[i + 1],
            ) by {
                assert(vs[i] == out@[i]@);
                assert(vs[i + 1] == out@[i + 1]@);
            }
            lemma_ancestor_chain(vs, self@);
            assert forall|i: int| 0 <= i < out@.len() implies spec_components(
                #[trigger] out@[i]@,
            ) == spec_components(self@).take(spec_components(self@).len() - i) by {
                assert(vs[i] == out@[i]@);
            }
        }
        out
    }

    /// Whether `child`'s components are a suffix of this path's: only
    /// whole trailing components match, never part of a segment's text.
    pub fn ends_with(&self, child: &Path) -> (r: bool)
        ensures
            r == spec_ends_with(self@, child@),
    {
        let (a, _ea) = parse(self.inner.as_str());
        let (c, _ec) = parse(child.inner.as_str());
        let alen = a.len();
        let clen = c.len();
        proof {
            assert(models_of(a@).len() == a@.len());
            assert(models_of(c@).len() == c@.len());
        }
        if clen > alen {
            return false;
        }
        let off = alen - clen;
        let ghost av = spec_components(self@);
        let ghost cv = spec_components(child@);
        let mut k: usize = 0;
        while k < clen
            invariant
                off + clen == alen,
                k <= clen <= alen,
                alen == a@.len(),
                clen == c@.len(),
                models_of(a@) == av,
                models_of(c@) == cv,
                av == spec_components(self@),
                cv == spec_components(child@),
                forall|j: int| 0 <= j < k ==> av[off + j] == #[trigger] cv[j],
            decreases clen - k,
        {
            let matches_here = a[off + k].same_as(&c[k]);
            proof {
                assert(models_of(a@)[off + k] == a@[off + k]@);
                assert(models_of(c@)[k as int] == c@[k as int]@);
            }
            if !matches_here {
                proof {
                    assert(models_of(a@).len() == a@.len());
                    assert(models_of(c@).len() == c@.len());
                    assert(av.len() - cv.len() == off as int);
                    assert(av.skip(off as int)[k as int] == av[off + k]);
                    assert(av.skip(off as int) != cv);
                }
                return false;
            }
            k = k + 1;
        }
        proof {
            assert(av.skip(off as int) =~= cv);
        }
        true
    }

    /// The text of the final component, when it is a named segment:
    /// nothing when the path is empty or ends in a root, `.` or `..`
    /// marker.
    pub fn file_name(&self) -> (r: Option<String>)
        ensures
            match r {
                Option::Some(f) => spec_file_name(self@) == Option::Some(f@),
                Option::None => spec_file_name(self@) is None,
            },
    {
        let (comps, _ends) = parse(self.inner.as_str());
        let k = comps.len();
        proof {
            assert(models_of(comps@).len() == comps@.len());
        }
        if k == 0 {
            return Option::None;
        }
        proof {
            assert(models_of(comps@)[k - 1] == comps@[k - 1]@);
        }
        match &comps[k - 1] {
            Component::Normal(name) => Option::Some(name.clone()),
            _ => Option::None,
        }
    }

    /// The extension of the file name: the portion after its final `.`,
    /// absent when there is no file name, the name holds no `.`, or the
    /// name begins with its only `.`.
    pub fn extension(&self) -> (r: Option<String>)
        ensures
            match r {
                Option::Some(e) => spec_extension(self@) == Option::Some(e@),
                Option::None => spec_extension(self@) is None,
            },
    {
        let f = match self.file_name() {
            Option::Some(f) => f,
            Option::None => {
                return Option::None;
            }
        };
        let flen = f.as_str().unicode_len();
        match last_dot(f.as_str()) {
            Option::Some(d) => {
                proof {
                    lemma_ext_at_dot(f@, d as int);
                }
                let e = f.as_str().substring_char(d + 1, flen).to_owned();
                proof {
                    assert(e@ =~= f@.skip(d + 1));
                }
                Option::Some(e)
            }
            Option::None => {
                proof {
                    lemma_ext_none(f@);
                }
                Option::None
            }
        }
    }

    /// The stem of the file name: what precedes the extension's `.`, or
    /// the whole name when there is no extension.
    pub fn file_stem(&self) -> (r: Option<String>)
        ensures
            match r {
                Option::Some(t) => spec_file_stem(self@) == Option::Some(t@),
                Option::None => spec_file_stem(self@) is None,
            },
    {
        let f = match self.file_name() {
            Option::Some(f) => f,
            Option::None => {
                return Option::None;
            }
        };
        match last_dot(f.as_str()) {
            Option::Some(d) => {
                proof {
                    lemma_ext_at_dot(f@, d as int);
                    let e = f@.skip(d + 1);
                    assert(f@.take(f@.len() - e.len() - 1) =~= f@.subrange(0, d as int));
                }
                let t = f.as_str().substring_char(0, d).to_owned();
                proof {
                    assert(stem_of_name(f@) == f@.subrange(0, d as int));
                }
                Option::Some(t)
            }
            Option::None => {
                proof {
                    lemma_ext_none(f@);
                }
                Option::Some(f)
            }
        }
    }
}

/// The index of the last `.` in a name that is not its first character,
/// if any.
fn last_dot(f: &str) -> (r: Option<usize>)
    ensures
        match r {
            Option::Some(d) => 1 <= d < f@.len() && f@[d as int] == '.' && (forall|k: int|
                d < k < f@.len() ==> f@[k] != '.'),
            Option::None => forall|k: int| 1 <= k < f@.len() ==> f@[k] != '.',
        },
{
    let flen = f.unicode_len();
    let mut dot: Option<usize> = Option::None;
    let mut k: usize = 1;
    while k < flen
        invariant
            1 <= k,
            flen == f@.len(),
            k <= flen || k == 1,
            match dot {
                Option::Some(d) => 1 <= d < k && f@[d as int] == '.' && (forall|k2: int|
                    d < k2 < k ==> f@[k2] != '.'),
                Option::None => forall|k2: int| 1 <= k2 < k ==> f@[k2] != '.',
            },
        decreases flen - k,
    {
        if f.get_char(k) == '.' {
            dot = Option::Some(k);
        }
        k = k + 1;
    }
    dot
}

impl PathBuf {
    /// Takes ownership of path text as a `PathBuf`.
    pub fn from_string(s: String) -> (p: PathBuf)
        ensures
            p@ == s@,
    {
        PathBuf { inner: s }
    }

    /// The buffer's read-only view as a `Path` holding the same text.
    pub fn as_path(&self) -> (p: Path)
        ensures
            p@ == self@,
    {
        Path { inner: self.inner.clone() }
    }

    /// The buffer's text.
    pub fn as_str(&self) -> (r: &str)
        ensures
            r@ == self@,
    {
        self.inner.as_str()
    }

    /// Extends the buffer with a further path. A rooted path replaces
    /// the buffer; otherwise the path is appended, with a separator in
    /// between unless the buffer is empty or already ends in one.
    pub fn push(&mut self, path: &Path)
        ensures
            has_root(path@) ==> final(self)@ == path@,
            !has_root(path@) && (old(self)@.len() == 0 || old(self)@.last() == '/')
                ==> final(self)@ == old(self)@ + path@,
            !has_root(path@) && old(self)@.len() > 0 && old(self)@.last() != '/'
                ==> final(self)@ == old(self)@ + seq!['/'] + path@,
    {
        let plen = path.as_str().unicode_len();
        if plen >= 1 && path.as_str().get_char(0) == '/' {
            self.inner = path.as_str().to_owned();
            return;
        }
        let n = self.inner.as_str().unicode_len();
        if n > 0 && self.inner.as_str().get_char(n - 1) != '/' {
            proof {
                reveal_strlit("/");
                assert(old(self)@.last() == old(self)@[n - 1]);
            }
            self.inner.append("/");
            proof {
                assert("/"@ =~= seq!['/']);
            }
        }
        self.inner.append(path.as_str());
        proof {
            if n > 0 && old(self)@[n - 1] == '/' {
                assert(old(self)@.last() == '/');
            }
        }
    }
}

} // verus!
