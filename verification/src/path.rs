//! A filesystem path modelled as its sequence of components.
//!
//! An absolute path carries the root directory as an explicit first
//! component, written `/`, followed by the directory and file names; a
//! relative path holds names only. This mirrors how `std::path::Path`
//! iterates its components on Unix-like systems, so `/a/b/c` is the four
//! components `/`, `a`, `b`, `c` and `b/c` is the two components `b`, `c`.

use vstd::prelude::*;

use crate::strutil::{char_sep, lemma_runs_append_run, lemma_runs_prepend_sep, lemma_runs_wf,
    runs, sep_free, split_runs_char, str_eq};

verus! {

/// The component that stands for the root directory.
pub open spec fn root_marker() -> Seq<char> {
    seq!['/']
}

/// A proper path component: a nonempty name without separators.
pub open spec fn is_name(c: Seq<char>) -> bool {
    c.len() > 0 && sep_free(c, char_sep('/'))
}

/// A well-formed component sequence: names throughout, except that the
/// first component may be the root marker.
pub open spec fn wf_path(p: Seq<Seq<char>>) -> bool {
    forall|i: int| 0 <= i < p.len() ==> is_name(#[trigger] p[i]) || (i == 0 && p[i] == root_marker())
}

/// Whether a component sequence denotes an absolute path.
pub open spec fn is_abs(p: Seq<Seq<char>>) -> bool {
    p.len() > 0 && p[0] == root_marker()
}

/// The component sequence a string parses to: the root marker if the string
/// starts with a separator, followed by its separator-free chunks.
pub open spec fn parse_path(s: Seq<char>) -> Seq<Seq<char>> {
    if s.len() > 0 && s[0] == '/' {
        seq![root_marker()] + runs(s, char_sep('/'))
    } else {
        runs(s, char_sep('/'))
    }
}

/// The names of a path joined with separators, without a root marker.
pub open spec fn render_names(p: Seq<Seq<char>>) -> Seq<char>
    decreases p.len(),
{
    if p.len() == 0 {
        Seq::empty()
    } else if p.len() == 1 {
        p[0]
    } else {
        render_names(p.drop_last()) + seq!['/'] + p.last()
    }
}

/// The string form of a component sequence: a leading separator when the
/// path is absolute, then its names joined with separators.
pub open spec fn render_path(p: Seq<Seq<char>>) -> Seq<char> {
    if is_abs(p) {
        seq!['/'] + render_names(p.skip(1))
    } else {
        render_names(p)
    }
}

/// Splitting the rendered names restores them: each name is a chunk of its
/// own, and the rendering separates them with exactly one separator.
proof fn lemma_parse_render_names(p: Seq<Seq<char>>)
    requires
        forall|i: int| 0 <= i < p.len() ==> is_name(#[trigger] p[i]),
    ensures
        runs(render_names(p), char_sep('/')) == p,
        p.len() > 0 ==> render_names(p).len() > 0 && !char_sep('/')(render_names(p)[0]),
    decreases p.len(),
{
    if p.len() == 0 {
        assert(runs(render_names(p), char_sep('/')) =~= p);
    } else if p.len() == 1 {
        assert(render_names(p) == p[0]);
        assert(Seq::<char>::empty() + p[0] =~= p[0]);
        lemma_runs_append_run(Seq::<char>::empty(), p[0], char_sep('/'));
        assert(runs(Seq::<char>::empty(), char_sep('/')) =~= Seq::<Seq<char>>::empty());
        assert(Seq::<Seq<char>>::empty().push(p[0]) =~= p);
        assert(!char_sep('/')(p[0][0]));
    } else {
        assert(forall|i: int| 0 <= i < p.drop_last().len() ==> is_name(#[trigger] p.drop_last()[i]));
        lemma_parse_render_names(p.drop_last());
        let rn = render_names(p.drop_last());
        let x = rn + seq!['/'];
        assert(x.drop_last() =~= rn);
        assert(x.last() == '/');
        assert(char_sep('/')('/'));
        assert(runs(x, char_sep('/')) == runs(x.drop_last(), char_sep('/')));
        assert(is_name(p.last()));
        lemma_runs_append_run(x, p.last(), char_sep('/'));
        assert(render_names(p) =~= x + p.last());
        assert(runs(render_names(p), char_sep('/')) == runs(x, char_sep('/')).push(p.last()));
        assert(p.drop_last().push(p.last()) =~= p);
        assert(rn.len() > 0);
        assert(render_names(p)[0] == rn[0]);
    }
}

/// Parsing the rendered form of a well-formed path restores exactly its
/// components.
pub proof fn lemma_parse_render(p: Seq<Seq<char>>)
    requires
        wf_path(p),
    ensures
        parse_path(render_path(p)) == p,
{
    if is_abs(p) {
        let names = p.skip(1);
        assert(forall|i: int| 0 <= i < names.len() ==> is_name(#[trigger] names[i])) by {
            assert(forall|i: int| 0 <= i < names.len() ==> names[i] == p[i + 1]);
        }
        lemma_parse_render_names(names);
        let rn = render_names(names);
        let sline = seq!['/'] + rn;
        assert(render_path(p) == sline);
        assert(sline[0] == '/');
        lemma_runs_prepend_sep('/', rn, char_sep('/'));
        assert(runs(sline, char_sep('/')) == names);
        assert(parse_path(sline) == seq![root_marker()] + names);
        assert(seq![root_marker()] + names =~= p);
    } else {
        assert(forall|i: int| 0 <= i < p.len() ==> is_name(#[trigger] p[i])) by {
            if p.len() > 0 {
                assert(is_name(p[0]) || p[0] == root_marker());
                if p[0] == root_marker() {
                    assert(is_abs(p));
                }
            }
        }
        lemma_parse_render_names(p);
        let rn = render_names(p);
        assert(render_path(p) == rn);
        if p.len() == 0 {
            assert(rn =~= Seq::<char>::empty());
            assert(parse_path(rn) =~= p);
        } else {
            assert(rn[0] != '/');
            assert(parse_path(rn) == runs(rn, char_sep('/')));
        }
    }
}

/// A filesystem path held as its parsed components.
#[derive(Debug)]
pub struct FsPath {
    components: Vec<String>,
}

impl View for FsPath {
    type V = Seq<Seq<char>>;

    closed spec fn view(&self) -> Seq<Seq<char>> {
        self.components.deep_view()
    }
}

impl DeepView for FsPath {
    type V = Seq<Seq<char>>;

    open spec fn deep_view(&self) -> Seq<Seq<char>> {
        self.view()
    }
}

/// An element-wise copy of a component vector.
pub(crate) fn clone_components(v: &Vec<String>) -> (r: Vec<String>)
    ensures
        r@ == v@,
{
    let mut r: Vec<String> = Vec::new();
    let mut i: usize = 0;
    while i < v.len()
        invariant
            0 <= i <= v.len(),
            r@ == v@.take(i as int),
        decreases v.len() - i,
    {
        r.push(v[i].clone());
        proof {
            assert(r@ =~= v@.take(i + 1));
        }
        i = i + 1;
    }
    proof {
        assert(v@.take(v@.len() as int) =~= v@);
    }
    r
}

/// Whether two component vectors hold equal components.
pub(crate) fn components_eq(a: &Vec<String>, b: &Vec<String>) -> (r: bool)
    ensures
        r == (a.deep_view() =~= b.deep_view()),
{
    if a.len() != b.len() {
        return false;
    }
    let mut i: usize = 0;
    while i < a.len()
        invariant
            0 <= i <= a.len(),
            a.len() == b.len(),
            forall|k: int| 0 <= k < i ==> a.deep_view()[k] == b.deep_view()[k],
        decreases a.len() - i,
    {
        if !str_eq(a[i].as_str(), b[i].as_str()) {
            proof {
                assert(a.deep_view()[i as int] == a@[i as int]@);
                assert(b.deep_view()[i as int] == b@[i as int]@);
            }
            return false;
        }
        i = i + 1;
    }
    true
}

impl Clone for FsPath {
    /// A copy with the same components.
    fn clone(&self) -> (r: Self)
        ensures
            r@ == self@,
    {
        FsPath { components: clone_components(&self.components) }
    }
}

impl PartialEq for FsPath {
    fn eq(&self, other: &Self) -> (r: bool) {
        components_eq(&self.components, &other.components)
    }
}

impl vstd::std_specs::cmp::PartialEqSpecImpl for FsPath {
    open spec fn obeys_eq_spec() -> bool {
        true
    }

    open spec fn eq_spec(&self, other: &Self) -> bool {
        self@ =~= other@
    }
}

impl FsPath {
    /// Parses a path string into its components.
    pub fn from_string(s: &str) -> (r: FsPath)
        ensures
            r@ == parse_path(s@),
            wf_path(r@),
    {
        let chunks = split_runs_char(s, '/');
        proof {
            lemma_runs_wf(s@, char_sep('/'));
        }
        let n: usize = s.unicode_len();
        if n > 0 && s.get_char(0) == '/' {
            let mut components: Vec<String> = Vec::new();
            components.push(String::from_str("/"));
            let mut rest = chunks;
            let ghost rest_dv = rest.deep_view();
            components.append(&mut rest);
            proof {
                reveal_strlit("/");
                assert("/"@ =~= root_marker());
                assert(components.deep_view() =~= seq![root_marker()] + rest_dv);
            }
            FsPath { components }
        } else {
            FsPath { components: chunks }
        }
    }

    /// Whether the path is absolute, i.e. starts at the root directory.
    pub fn is_absolute(&self) -> (r: bool)
        ensures
            r == is_abs(self@),
    {
        if self.components.len() == 0 {
            return false;
        }
        let r = str_eq(self.components[0].as_str(), "/");
        proof {
            reveal_strlit("/");
            assert("/"@ =~= root_marker());
        }
        r
    }

    /// The number of components.
    pub fn num_components(&self) -> (r: usize)
        ensures
            r == self@.len(),
    {
        self.components.len()
    }

    /// The component at position `i`.
    pub fn component(&self, i: usize) -> (r: &String)
        requires
            i < self@.len(),
        ensures
            r@ == self@[i as int],
    {
        &self.components[i]
    }

    /// A copy of this path extended by one further component.
    pub fn child(&self, name: &String) -> (r: FsPath)
        ensures
            r@ == self@.push(name@),
            wf_path(self@) && is_name(name@) ==> wf_path(r@),
    {
        let mut components = clone_components(&self.components);
        components.push(name.clone());
        proof {
            assert(components.deep_view() =~= self@.push(name@));
        }
        FsPath { components }
    }

    /// The path made of the first `end` components.
    pub fn prefix_to(&self, end: usize) -> (r: FsPath)
        requires
            end <= self@.len(),
        ensures
            r@ == self@.take(end as int),
    {
        let mut components: Vec<String> = Vec::new();
        let mut i: usize = 0;
        while i < end
            invariant
                0 <= i <= end <= self@.len(),
                self@.len() == self.components@.len(),
                components.deep_view() =~= self@.take(i as int),
            decreases end - i,
        {
            let ghost dv = components.deep_view();
            components.push(self.components[i].clone());
            proof {
                assert(self@[i as int] == self.components.deep_view()[i as int]);
                assert(components.deep_view() =~= dv.push(self@[i as int]));
                assert(components.deep_view() =~= self@.take(i + 1));
            }
            i = i + 1;
        }
        FsPath { components }
    }

    /// The path made of the components from position `start` on.
    pub fn suffix_from(&self, start: usize) -> (r: FsPath)
        requires
            start <= self@.len(),
        ensures
            r@ == self@.skip(start as int),
    {
        let mut components: Vec<String> = Vec::new();
        let mut i: usize = start;
        proof {
            assert(components.deep_view() =~= self@.subrange(start as int, start as int));
        }
        while i < self.components.len()
            invariant
                start <= i <= self.components@.len(),
                self@.len() == self.components@.len(),
                components.deep_view() =~= self@.subrange(start as int, i as int),
            decreases self.components@.len() - i,
        {
            let ghost dv = components.deep_view();
            components.push(self.components[i].clone());
            proof {
                assert(self@[i as int] == self.components.deep_view()[i as int]);
                assert(components.deep_view() =~= dv.push(self@[i as int]));
                assert(components.deep_view() =~= self@.subrange(start as int, i + 1));
            }
            i = i + 1;
        }
        proof {
            assert(self@.subrange(start as int, self@.len() as int) =~= self@.skip(start as int));
        }
        FsPath { components }
    }

    /// The string form of the path, with components joined by `/`.
    pub fn to_path_string(&self) -> (r: String)
        ensures
            r@ == render_path(self@),
    {
        let mut out = String::new();
        let absolute = self.is_absolute();
        let start: usize = if absolute { 1 } else { 0 };
        if absolute {
            out.append("/");
        }
        proof {
            reveal_strlit("/");
            assert("/"@ =~= seq!['/']);
            let names = self@.skip(start as int);
            assert(names.take(0) =~= Seq::<Seq<char>>::empty());
            if absolute {
                assert(out@ =~= seq!['/'] + render_names(names.take(0)));
            } else {
                assert(out@ =~= render_names(names.take(0)));
            }
        }
        let mut i: usize = start;
        while i < self.components.len()
            invariant
                start <= i <= self.components.len(),
                start == if is_abs(self@) { 1int } else { 0int },
                self.components.len() == self@.len(),
                is_abs(self@) ==> out@ == seq!['/'] + render_names(
                    self@.skip(start as int).take(i - start),
                ),
                !is_abs(self@) ==> out@ == render_names(self@.skip(start as int).take(i - start)),
            decreases self.components.len() - i,
        {
            let ghost names = self@.skip(start as int);
            let ghost k = i - start;
            if i > start {
                out.append("/");
            }
            out.append(self.components[i].as_str());
            proof {
                reveal_strlit("/");
                assert("/"@ =~= seq!['/']);
                assert(self@[i as int] == self.components.deep_view()[i as int]);
                assert(names.take(k + 1).drop_last() =~= names.take(k));
                assert(names.take(k + 1).last() == self@[i as int]);
                if k == 0 {
                    assert(render_names(names.take(1)) == names[0]);
                }
            }
            i = i + 1;
        }
        proof {
            assert(self@.skip(start as int).take(self@.len() - start) =~= self@.skip(
                start as int,
            ));
            assert(self@.skip(0) =~= self@);
        }
        out
    }

    /// Appends `other` to this path, exactly as `std::path::Path::join`
    /// does: an absolute `other` replaces `self` entirely.
    pub fn join(&self, other: &FsPath) -> (r: FsPath)
        ensures
            is_abs(other@) ==> r@ == other@,
            !is_abs(other@) ==> r@ == self@ + other@,
            wf_path(self@) && wf_path(other@) ==> wf_path(r@),
    {
        if other.is_absolute() {
            other.clone()
        } else {
            let mut components = clone_components(&self.components);
            let mut tail = clone_components(&other.components);
            let ghost tail_dv = tail.deep_view();
            components.append(&mut tail);
            proof {
                assert(components.deep_view() =~= self@ + other@);
            }
            FsPath { components }
        }
    }
}

} // verus!
