//! Output paths of pages and links between them, over path components.

use vstd::prelude::*;
use crate::text::{replace_all, decimal, replace_str, decimal_string};
use crate::errors::{PageError, PageErrorCode};
use lexiclean::Lexiclean;

verus! {

/// One component of a relative or absolute path.
pub enum PathPart {
    Root,
    Current,
    Parent,
    Normal(String),
}

/// The mathematical form of a path component.
pub enum PartView {
    Root,
    Current,
    Parent,
    Normal(Seq<char>),
}

impl View for PathPart {
    type V = PartView;

    open spec fn view(&self) -> PartView {
        match self {
            PathPart::Root => PartView::Root,
            PathPart::Current => PartView::Current,
            PathPart::Parent => PartView::Parent,
            PathPart::Normal(s) => PartView::Normal(s@),
        }
    }
}

pub open spec fn parts_view(v: Seq<PathPart>) -> Seq<PartView> {
    v.map_values(|p: PathPart| p@)
}

/// The text of a component as a path string spells it.
pub open spec fn part_text(p: PartView) -> Seq<char> {
    match p {
        PartView::Root => seq!['/'],
        PartView::Current => seq!['.'],
        PartView::Parent => seq!['.', '.'],
        PartView::Normal(s) => s,
    }
}

/// A component as a path's components can hold it: the root and the current
/// directory only in front, a name never empty, never `.` or `..`, without `/`.
pub open spec fn part_wf(ps: Seq<PartView>, i: int) -> bool {
    match ps[i] {
        PartView::Root => i == 0,
        PartView::Current => i == 0,
        PartView::Parent => true,
        PartView::Normal(s) => s.len() > 0 && s != seq!['.'] && s != seq!['.', '.']
            && (forall|k: int| 0 <= k < s.len() ==> s[k] != '/'),
    }
}

pub open spec fn parts_wf(ps: Seq<PartView>) -> bool {
    forall|i: int| 0 <= i < ps.len() ==> part_wf(ps, i)
}

pub open spec fn no_current(ps: Seq<PartView>) -> bool {
    forall|i: int| 0 <= i < ps.len() ==> !(#[trigger] ps[i] is Current)
}

/// The pieces of `s` between slashes, empty ones included.
pub open spec fn split_slash(s: Seq<char>) -> Seq<Seq<char>>
    decreases s.len(),
{
    if s.len() == 0 {
        seq![Seq::empty()]
    } else {
        let init = split_slash(s.drop_last());
        if s.last() == '/' {
            init.push(Seq::empty())
        } else {
            init.update(init.len() - 1, init.last().push(s.last()))
        }
    }
}

/// The component that one piece between slashes stands for, if any: an empty
/// piece and a `.` stand for none, except a `.` in front.
pub open spec fn segment_part(seg: Seq<char>, first: bool) -> Option<PartView> {
    if seg.len() == 0 {
        None
    } else if seg == seq!['.'] {
        if first { Some(PartView::Current) } else { None }
    } else if seg == seq!['.', '.'] {
        Some(PartView::Parent)
    } else {
        Some(PartView::Normal(seg))
    }
}

pub open spec fn opt_seq(o: Option<PartView>) -> Seq<PartView> {
    match o {
        Some(p) => seq![p],
        None => Seq::empty(),
    }
}

pub open spec fn segments_parts(segs: Seq<Seq<char>>) -> Seq<PartView>
    decreases segs.len(),
{
    if segs.len() == 0 {
        Seq::empty()
    } else {
        segments_parts(segs.drop_last()) + opt_seq(segment_part(segs.last(), segs.len() == 1))
    }
}

/// The components of a path string, read with `/` as the separator.
pub open spec fn path_parts(s: Seq<char>) -> Seq<PartView> {
    (if s.len() > 0 && s[0] == '/' { seq![PartView::Root] } else { Seq::empty() })
        + segments_parts(split_slash(s))
}

pub proof fn lemma_split_slash_nonempty(s: Seq<char>)
    ensures
        split_slash(s).len() >= 1,
    decreases s.len(),
{
    if s.len() > 0 {
        lemma_split_slash_nonempty(s.drop_last());
    }
}

/// The components joined by `/`.
pub open spec fn join_parts(ps: Seq<PartView>) -> Seq<char>
    decreases ps.len(),
{
    if ps.len() == 0 {
        Seq::empty()
    } else if ps.len() == 1 {
        part_text(ps[0])
    } else {
        join_parts(ps.drop_last()) + seq!['/'] + part_text(ps.last())
    }
}

/// The path string of a sequence of components.
pub open spec fn render(ps: Seq<PartView>) -> Seq<char> {
    if ps.len() > 0 && ps[0] is Root {
        seq!['/'] + join_parts(ps.drop_first())
    } else {
        join_parts(ps)
    }
}

pub open spec fn is_absolute(ps: Seq<PartView>) -> bool {
    ps.len() > 0 && ps[0] is Root
}

/// The components of path `a` joined with path `b`: `b` where it is absolute,
/// else `b` after `a`, a leading `.` of `b` dropped.
pub open spec fn joined(a: Seq<PartView>, b: Seq<PartView>) -> Seq<PartView> {
    if is_absolute(b) || a.len() == 0 {
        b
    } else if b.len() > 0 && b[0] is Current {
        a + b.drop_first()
    } else {
        a + b
    }
}

impl PathPart {
    /// The text of this component.
    pub fn as_str(&self) -> (r: &str)
        ensures
            r@ == part_text(self@),
    {
        proof {
            reveal_strlit("/");
            reveal_strlit(".");
            reveal_strlit("..");
        }
        match self {
            PathPart::Root => "/",
            PathPart::Current => ".",
            PathPart::Parent => "..",
            PathPart::Normal(s) => s.as_str(),
        }
    }

    /// The component that a component's text stands for.
    pub fn from_text(s: &str) -> (r: PathPart)
        ensures
            s@ == seq!['/'] ==> r@ == PartView::Root,
            s@ == seq!['.'] ==> r@ == PartView::Current,
            s@ == seq!['.', '.'] ==> r@ == PartView::Parent,
            s@ != seq!['/'] && s@ != seq!['.'] && s@ != seq!['.', '.'] ==> r@ == PartView::Normal(s@),
    {
        let n = s.unicode_len();
        if n == 1 && s.get_char(0) == '/' {
            assert(s@ =~= seq!['/']);
            PathPart::Root
        } else if n == 1 && s.get_char(0) == '.' {
            assert(s@ =~= seq!['.']);
            PathPart::Current
        } else if n == 2 && s.get_char(0) == '.' && s.get_char(1) == '.' {
            assert(s@ =~= seq!['.', '.']);
            PathPart::Parent
        } else {
            proof {
                if s@ == seq!['/'] || s@ == seq!['.'] {
                    assert(s@[0] == s@[0]);
                }
                if s@ == seq!['.', '.'] {
                    assert(s@[1] == '.');
                }
            }
            PathPart::Normal(String::from_str(s))
        }
    }

    pub fn duplicate(&self) -> (r: PathPart)
        ensures
            r@ == self@,
    {
        match self {
            PathPart::Root => PathPart::Root,
            PathPart::Current => PathPart::Current,
            PathPart::Parent => PathPart::Parent,
            PathPart::Normal(s) => PathPart::Normal(s.clone()),
        }
    }
}


/// The component that one piece between slashes stands for, as `segment_part`.
fn piece_part(seg: &str, first: bool) -> (r: Option<PathPart>)
    requires
        forall|k: int| 0 <= k < seg@.len() ==> seg@[k] != '/',
    ensures
        r matches Some(p) ==> segment_part(seg@, first) == Some(p@),
        r is None ==> segment_part(seg@, first) is None,
        r matches Some(p) ==> (p is Normal ==> part_wf(seq![p@], 0)),
{
    let n = seg.unicode_len();
    if n == 0 {
        return None;
    }
    let p = PathPart::from_text(seg);
    proof {
        if seg@ == seq!['/'] {
            assert(seg@[0] == '/');
        }
    }
    match p {
        PathPart::Current => {
            if first { Some(p) } else { None }
        },
        _ => Some(p),
    }
}

proof fn lemma_push_wf(ps: Seq<PartView>, p: PartView)
    requires
        parts_wf(ps),
        part_wf(ps.push(p), ps.len() as int),
    ensures
        parts_wf(ps.push(p)),
{
    assert forall|i: int| 0 <= i < ps.push(p).len() implies part_wf(ps.push(p), i) by {
        if i < ps.len() {
            assert(ps.push(p)[i] == ps[i]);
            assert(part_wf(ps, i));
        }
    }
}

/// Reads a path string into its components, as `path_parts` states.
pub fn parse_path(s: &str) -> (r: Vec<PathPart>)
    ensures
        parts_view(r@) == path_parts(s@),
        parts_wf(parts_view(r@)),
{
    let cs = crate::text::chars_of(s);
    let n = cs.len();
    let mut r: Vec<PathPart> = Vec::new();
    let abs = n > 0 && cs[0] == '/';
    if abs {
        r.push(PathPart::Root);
    }
    let ghost head: Seq<PartView> = if abs { seq![PartView::Root] } else { Seq::empty() };
    assert(parts_view(r@) =~= head);
    assert(s@.subrange(0, 0) =~= Seq::<char>::empty());
    assert(split_slash(Seq::<char>::empty()).drop_last() =~= Seq::<Seq<char>>::empty());
    let mut seg_start: usize = 0;
    let mut i: usize = 0;
    while i < n
        invariant
            cs@ == s@,
            n == s@.len(),
            abs == (n > 0 && s@[0] == '/'),
            head == (if abs { seq![PartView::Root] } else { Seq::<PartView>::empty() }),
            seg_start <= i <= n,
            split_slash(s@.subrange(0, i as int)).len() >= 1,
            split_slash(s@.subrange(0, i as int)).last() == s@.subrange(seg_start as int, i as int),
            (seg_start == 0) == (split_slash(s@.subrange(0, i as int)).len() == 1),
            parts_view(r@) == head + segments_parts(split_slash(s@.subrange(0, i as int)).drop_last()),
            forall|k: int| seg_start <= k < i ==> s@[k] != '/',
            abs ==> (i == 0 || seg_start > 0),
            parts_wf(parts_view(r@)),
        decreases n - i,
    {
        let ghost pre = s@.subrange(0, i as int);
        let ghost post = s@.subrange(0, i + 1);
        assert(post.drop_last() =~= pre);
        assert(post.last() == cs@[i as int]);
        let ghost sp = split_slash(pre);
        if cs[i] == '/' {
            let seg = s.substring_char(seg_start, i);
            let first = seg_start == 0;
            assert(split_slash(post) == sp.push(Seq::empty()));
            assert(split_slash(post).drop_last() =~= sp);
            assert(sp.drop_last().push(sp.last()) =~= sp);
            assert(segments_parts(sp) == segments_parts(sp.drop_last()) + opt_seq(segment_part(sp.last(), sp.len() == 1)));
            let ghost old_r = parts_view(r@);
            match piece_part(seg, first) {
                Some(p) => {
                    proof {
                        if p is Current {
                            assert(first);
                            assert(!abs);
                            assert(sp.drop_last().len() == 0);
                            assert(old_r.len() == 0);
                        }
                        if p is Normal {
                            assert(part_wf(seq![p@], 0));
                        }
                        assert(old_r.push(p@)[old_r.len() as int] == p@);
                        lemma_push_wf(old_r, p@);
                    }
                    r.push(p);
                    assert(parts_view(r@) =~= old_r.push(p@));
                    assert(parts_view(r@) =~= head + segments_parts(split_slash(post).drop_last()));
                },
                None => {
                    assert(parts_view(r@) =~= head + segments_parts(split_slash(post).drop_last()));
                },
            }
            seg_start = i + 1;
            assert(s@.subrange(seg_start as int, i + 1) =~= Seq::<char>::empty());
        } else {
            proof {
                lemma_split_slash_nonempty(pre);
            }
            assert(split_slash(post) == sp.update(sp.len() - 1, sp.last().push(cs@[i as int])));
            assert(split_slash(post).drop_last() =~= sp.drop_last());
            assert(s@.subrange(seg_start as int, i + 1) =~= s@.subrange(seg_start as int, i as int).push(cs@[i as int]));
        }
        i = i + 1;
    }
    assert(s@.subrange(0, n as int) =~= s@);
    let ghost sp = split_slash(s@);
    let seg = s.substring_char(seg_start, n);
    let first = seg_start == 0;
    assert(sp.drop_last().push(sp.last()) =~= sp);
    assert(segments_parts(sp) == segments_parts(sp.drop_last()) + opt_seq(segment_part(sp.last(), sp.len() == 1)));
    let ghost old_r = parts_view(r@);
    match piece_part(seg, first) {
        Some(p) => {
            proof {
                if p is Current {
                    assert(!abs);
                    assert(sp.drop_last().len() == 0);
                    assert(old_r.len() == 0);
                }
                if p is Normal {
                    assert(part_wf(seq![p@], 0));
                }
                assert(old_r.push(p@)[old_r.len() as int] == p@);
                lemma_push_wf(old_r, p@);
            }
            r.push(p);
            assert(parts_view(r@) =~= old_r.push(p@));
        },
        None => {},
    }
    assert(parts_view(r@) =~= path_parts(s@));
    r
}

/// Writes components as a path string, as `render` states.
pub fn render_path(ps: &Vec<PathPart>) -> (r: String)
    ensures
        r@ == render(parts_view(ps@)),
{
    let ghost pv = parts_view(ps@);
    let n = ps.len();
    proof {
        reveal_strlit("/");
    }
    let mut out = String::new();
    let mut start: usize = 0;
    if n > 0 {
        if let PathPart::Root = &ps[0] {
            out.append("/");
            start = 1;
        }
    }
    proof {
        reveal_strlit("/");
    }
    let ghost lead = out@;
    assert(pv.subrange(start as int, start as int) =~= Seq::<PartView>::empty());
    let mut i: usize = start;
    while i < n
        invariant
            pv == parts_view(ps@),
            n == ps.len(),
            start <= i <= n,
            out@ == lead + join_parts(pv.subrange(start as int, i as int)),
        decreases n - i,
    {
        let ghost sub = pv.subrange(start as int, i + 1);
        assert(sub.drop_last() =~= pv.subrange(start as int, i as int));
        assert(sub.last() == ps@[i as int]@);
        let ghost before = out@;
        if i > start {
            proof {
                reveal_strlit("/");
            }
            out.append("/");
            assert(out@ =~= before + seq!['/']);
        } else {
            assert(sub.len() == 1);
        }
        out.append(ps[i].as_str());
        proof {
            if i > start {
                assert(join_parts(sub) == join_parts(sub.drop_last()) + seq!['/'] + part_text(sub.last()));
                assert(out@ =~= lead + join_parts(sub));
            } else {
                assert(join_parts(sub) == part_text(sub[0]));
                assert(pv.subrange(start as int, i as int) =~= Seq::<PartView>::empty());
                assert(join_parts(Seq::<PartView>::empty()) =~= Seq::<char>::empty());
                assert(before =~= lead);
                assert(sub[0] == ps@[i as int]@);
                assert(out@ =~= lead + join_parts(sub));
            }
        }
        i = i + 1;
    }
    assert(pv.subrange(start as int, n as int) =~= (if start == 1 { pv.drop_first() } else { pv }));
    out
}


/// One step of lexical cleaning: `.` is dropped, `..` removes a preceding
/// name, or stays where nothing or `..` precedes it, and goes at the root.
pub open spec fn clean_step(acc: Seq<PartView>, p: PartView) -> Seq<PartView> {
    match p {
        PartView::Current => acc,
        PartView::Parent => {
            if acc.len() > 0 && acc.last() is Normal {
                acc.drop_last()
            } else if acc.len() == 0 || acc.last() is Parent {
                acc.push(PartView::Parent)
            } else {
                acc
            }
        },
        _ => acc.push(p),
    }
}

pub open spec fn clean_fold(ps: Seq<PartView>) -> Seq<PartView>
    decreases ps.len(),
{
    if ps.len() == 0 {
        Seq::empty()
    } else {
        clean_step(clean_fold(ps.drop_last()), ps.last())
    }
}

/// A path with `.` and `..` resolved lexically; one of at most one component
/// stays as it is.
pub open spec fn lexical_clean(ps: Seq<PartView>) -> Seq<PartView> {
    if ps.len() <= 1 {
        ps
    } else {
        clean_fold(ps)
    }
}

/// Relies on `lexiclean::Lexiclean::lexiclean` for `&Path`: it returns the path
/// unchanged where it has at most one component, and else folds the components
/// as `clean_fold` states. The components of any path are well formed.
/// Paths here have `/` as their only separator, as on Unix.
#[verifier::external_body]
fn lexiclean_parts(ps: &Vec<PathPart>) -> (r: Vec<PathPart>)
    requires
        parts_wf(parts_view(ps@)),
    ensures
        parts_view(r@) == lexical_clean(parts_view(ps@)),
        parts_wf(parts_view(r@)),
{
    let path: std::path::PathBuf = ps.iter().map(|p| p.as_str()).collect();
    path.as_path().lexiclean().components().map(|c| PathPart::from_text(&c.as_os_str().to_string_lossy())).collect()
}

pub open spec fn parent_run(n: nat) -> Seq<PartView> {
    Seq::new(n, |i: int| PartView::Parent)
}

/// The component walk of a relative-path computation from `b` to `a`, with
/// `comps` gathered so far.
pub open spec fn diff_walk(a: Seq<PartView>, b: Seq<PartView>, comps: Seq<PartView>) -> Option<Seq<PartView>>
    decreases a.len() + b.len(),
{
    if a.len() == 0 && b.len() == 0 {
        Some(comps)
    } else if b.len() == 0 {
        Some(comps + a)
    } else if a.len() == 0 {
        diff_walk(a, b.drop_first(), comps.push(PartView::Parent))
    } else if comps.len() == 0 && a[0] == b[0] {
        diff_walk(a.drop_first(), b.drop_first(), comps)
    } else if b[0] is Current {
        diff_walk(a.drop_first(), b.drop_first(), comps.push(a[0]))
    } else if b[0] is Parent {
        None
    } else {
        Some(comps + parent_run(b.len()) + a)
    }
}

/// The path that leads from directory `base` to `path`, where there is one.
pub open spec fn relative_parts(path: Seq<PartView>, base: Seq<PartView>) -> Option<Seq<PartView>> {
    if is_absolute(path) != is_absolute(base) {
        if is_absolute(path) { Some(path) } else { None }
    } else {
        diff_walk(path, base, Seq::empty())
    }
}

/// Relies on `pathdiff::diff_paths(path, base)`: its result, as `relative_parts`
/// states, for paths without a `.` component, with `/` as the only separator.
#[verifier::external_body]
fn diff_path_parts(path: &Vec<PathPart>, base: &Vec<PathPart>) -> (r: Option<Vec<PathPart>>)
    requires
        parts_wf(parts_view(path@)),
        parts_wf(parts_view(base@)),
        no_current(parts_view(path@)),
        no_current(parts_view(base@)),
    ensures
        r is None ==> relative_parts(parts_view(path@), parts_view(base@)) is None,
        r matches Some(d) ==> relative_parts(parts_view(path@), parts_view(base@)) == Some(parts_view(d@)),
{
    let a: std::path::PathBuf = path.iter().map(|p| p.as_str()).collect();
    let b: std::path::PathBuf = base.iter().map(|p| p.as_str()).collect();
    pathdiff::diff_paths(a, b).map(|d| d.components().map(|c| PathPart::from_text(&c.as_os_str().to_string_lossy())).collect())
}


/// The position of the last `.` in `s`, or -1.
pub open spec fn last_dot(s: Seq<char>) -> int
    decreases s.len(),
{
    if s.len() == 0 {
        -1
    } else if s.last() == '.' {
        s.len() - 1
    } else {
        last_dot(s.drop_last())
    }
}

/// A file name without its extension: the part before the last `.`, unless
/// that dot is the name's first character or there is none.
pub open spec fn file_stem(name: Seq<char>) -> Seq<char> {
    if last_dot(name) > 0 {
        name.subrange(0, last_dot(name))
    } else {
        name
    }
}

proof fn lemma_last_dot_range(s: Seq<char>)
    ensures
        -1 <= last_dot(s) < s.len(),
        last_dot(s) >= 0 ==> s[last_dot(s)] == '.',
        forall|k: int| last_dot(s) < k < s.len() ==> s[k] != '.',
    decreases s.len(),
{
    if s.len() > 0 {
        lemma_last_dot_range(s.drop_last());
        assert forall|k: int| last_dot(s) < k < s.len() implies s[k] != '.' by {
            if k < s.len() - 1 {
                assert(s.drop_last()[k] == s[k]);
            }
        }
    }
}

/// The stem of a file name, as `file_stem` states.
pub fn stem_of(name: &str) -> (r: String)
    ensures
        r@ == file_stem(name@),
{
    let cs = crate::text::chars_of(name);
    let mut i: usize = cs.len();
    while i > 0 && cs[i - 1] != '.'
        invariant
            cs@ == name@,
            i <= cs.len(),
            forall|k: int| i <= k < cs.len() ==> cs@[k] != '.',
        decreases i,
    {
        i = i - 1;
    }
    proof {
        lemma_last_dot_range(name@);
        assert(i == 0 || cs@[i - 1] == '.');
        let d = last_dot(name@);
        if i > 0 {
            if d > i - 1 {
                assert(name@[d] == '.');
            }
            if d < i - 1 {
                assert(name@[i - 1] != '.');
            }
        }
        if i == 0 && d >= 0 {
            assert(name@[d] == '.');
        }
        assert(i == 0 ==> d == -1);
        assert(i > 0 ==> d == i - 1);
    }
    if i > 1 {
        String::from_str(name.substring_char(0, i - 1))
    } else {
        String::from_str(name)
    }
}

pub open spec fn index_name() -> Seq<char> {
    seq!['i', 'n', 'd', 'e', 'x', '.', 'h', 't', 'm', 'l']
}

pub open spec fn index_stem() -> Seq<char> {
    seq!['i', 'n', 'd', 'e', 'x']
}

pub open spec fn num_token() -> Seq<char> {
    seq![':', 'n', 'u', 'm']
}

/// The URL format of a page: `:num` replaced by the page's number, counted from one.
pub open spec fn page_url(url: Seq<char>, page: nat) -> Seq<char> {
    replace_all(url, num_token(), decimal(page + 1))
}

/// A path that a source file can have: at least one component, every one a name.
pub open spec fn valid_file_path(file: Seq<char>) -> bool {
    path_parts(file).len() > 0 && forall|i: int| 0 <= i < path_parts(file).len() ==> (#[trigger] path_parts(file)[i]) is Normal
}

pub open spec fn last_name(ps: Seq<PartView>) -> Seq<char> {
    match ps.last() {
        PartView::Normal(n) => n,
        _ => Seq::empty(),
    }
}

/// Where page `page > 0` of `file` goes before cleaning: the URL format under
/// the file's directory, under the file's stem first unless that stem is
/// `index`, and `index.html` in it.
pub open spec fn nested_parts(file: Seq<char>, url: Seq<char>, page: nat) -> Seq<PartView> {
    let fp = path_parts(file);
    let stem = file_stem(last_name(fp));
    let up = path_parts(page_url(url, page));
    let index = seq![PartView::Normal(index_name())];
    let inner = if stem == index_stem() {
        joined(up, index)
    } else {
        joined(joined(path_parts(stem), up), index)
    };
    joined(fp.drop_last(), inner)
}

/// The components of page `page`'s output path: the file's own for the first
/// page, else the cleaned nested path.
pub open spec fn page_parts(file: Seq<char>, url: Seq<char>, page: nat) -> Seq<PartView> {
    if page == 0 {
        path_parts(file)
    } else {
        lexical_clean(nested_parts(file, url, page))
    }
}

/// Whether a path leaves the directory it is relative to.
pub open spec fn escapes(ps: Seq<PartView>) -> bool {
    ps.len() > 0 && ps[0] is Parent
}

pub open spec fn escape_message(ps: Seq<PartView>) -> Seq<char> {
    "Pagination URL resolves outside of output directory: \""@ + render(ps) + seq!['"']
}

proof fn lemma_joined_wf(a: Seq<PartView>, b: Seq<PartView>)
    requires
        parts_wf(a),
        parts_wf(b),
    ensures
        parts_wf(joined(a, b)),
        b.len() > 0 && !(b.len() == 1 && b[0] is Current) ==> joined(a, b).len() > 0 && joined(a, b).last() == b.last(),
{
    let j = joined(a, b);
    if is_absolute(b) || a.len() == 0 {
    } else if b.len() > 0 && b[0] is Current {
        let t = b.drop_first();
        assert forall|i: int| 0 <= i < j.len() implies part_wf(j, i) by {
            if i < a.len() {
                assert(j[i] == a[i]);
                assert(part_wf(a, i));
            } else {
                assert(j[i] == b[i - a.len() + 1]);
                assert(part_wf(b, i - a.len() + 1));
            }
        }
    } else {
        assert forall|i: int| 0 <= i < j.len() implies part_wf(j, i) by {
            if i < a.len() {
                assert(j[i] == a[i]);
                assert(part_wf(a, i));
            } else {
                assert(j[i] == b[i - a.len()]);
                assert(part_wf(b, i - a.len()));
                if i - a.len() == 0 {
                    assert(!(b[0] is Root));
                }
            }
        }
    }
}

/// The components of `a` joined with `b`, as `joined` states.
fn join_path(a: Vec<PathPart>, b: Vec<PathPart>) -> (r: Vec<PathPart>)
    requires
        parts_wf(parts_view(a@)),
        parts_wf(parts_view(b@)),
    ensures
        parts_view(r@) == joined(parts_view(a@), parts_view(b@)),
        parts_wf(parts_view(r@)),
{
    proof {
        lemma_joined_wf(parts_view(a@), parts_view(b@));
    }
    let mut a = a;
    let mut b = b;
    let abs = b.len() > 0 && matches!(b[0], PathPart::Root);
    if abs || a.len() == 0 {
        return b;
    }
    let ghost av = parts_view(a@);
    let ghost bv = parts_view(b@);
    if b.len() > 0 && matches!(b[0], PathPart::Current) {
        b.remove(0);
        assert(parts_view(b@) =~= bv.drop_first());
    }
    let ghost bt = parts_view(b@);
    a.append(&mut b);
    assert(parts_view(a@) =~= av + bt);
    a
}

proof fn lemma_clean_fold_no_current(ps: Seq<PartView>)
    ensures
        no_current(clean_fold(ps)),
    decreases ps.len(),
{
    if ps.len() > 0 {
        lemma_clean_fold_no_current(ps.drop_last());
        let acc = clean_fold(ps.drop_last());
        let r = clean_fold(ps);
        assert forall|i: int| 0 <= i < r.len() implies !(#[trigger] r[i] is Current) by {
            if i < acc.len() {
                assert(r[i] == acc[i]);
            }
        }
    }
}

proof fn lemma_nested_shape(file: Seq<char>, url: Seq<char>, page: nat)
    requires
        valid_file_path(file),
        parts_wf(path_parts(file)),
        parts_wf(path_parts(page_url(url, page))),
        parts_wf(path_parts(file_stem(last_name(path_parts(file))))),
    ensures
        parts_wf(nested_parts(file, url, page)),
        nested_parts(file, url, page).len() > 0,
        nested_parts(file, url, page).last() == PartView::Normal(index_name()),
{
    let fp = path_parts(file);
    let stem = file_stem(last_name(fp));
    let up = path_parts(page_url(url, page));
    let index = seq![PartView::Normal(index_name())];
    assert(part_wf(index, 0)) by {
        reveal_strlit("index.html");
        assert(index_name()[0] == 'i');
        assert(index_name() != seq!['.']);
        assert(index_name() != seq!['.', '.']);
    }
    assert(parts_wf(index));
    assert(parts_wf(fp.drop_last())) by {
        assert forall|i: int| 0 <= i < fp.drop_last().len() implies part_wf(fp.drop_last(), i) by {
            assert(fp.drop_last()[i] == fp[i]);
            assert(part_wf(fp, i));
        }
    }
    lemma_joined_wf(up, index);
    lemma_joined_wf(path_parts(stem), up);
    lemma_joined_wf(joined(path_parts(stem), up), index);
    let inner = if stem == index_stem() {
        joined(up, index)
    } else {
        joined(joined(path_parts(stem), up), index)
    };
    lemma_joined_wf(fp.drop_last(), inner);
}


/// The shape of every resolvable page path: well formed, without `.`, and
/// ending in a name.
pub open spec fn page_path_shape(ps: Seq<PartView>) -> bool {
    parts_wf(ps) && no_current(ps) && ps.len() > 0 && ps.last() is Normal
}

/// The components of page `page`'s output path, or the error that it leaves
/// the output directory.
pub fn page_path(file: &str, url: &str, page: usize) -> (r: Result<Vec<PathPart>, PageError>)
    requires
        valid_file_path(file@),
        page < usize::MAX,
    ensures
        r is Err <==> (page > 0 && escapes(page_parts(file@, url@, page as nat))),
        r matches Ok(v) ==> parts_view(v@) == page_parts(file@, url@, page as nat)
            && page_path_shape(parts_view(v@)),
        r matches Err(e) ==> e.code == PageErrorCode::ParentDir && e.relative_path@ == file@
            && e.message@ == escape_message(page_parts(file@, url@, page as nat)),
{
    let fp = parse_path(file);
    let ghost fv = parts_view(fp@);
    if page == 0 {
        assert(no_current(fv)) by {
            assert forall|i: int| 0 <= i < fv.len() implies !(#[trigger] fv[i] is Current) by {
                assert(path_parts(file@)[i] is Normal);
            }
        }
        assert(fv.last() is Normal) by {
            assert(path_parts(file@)[fv.len() - 1] is Normal);
        }
        return Ok(fp);
    }
    let n = fp.len();
    let name: &str = match &fp[n - 1] {
        PathPart::Normal(s) => s.as_str(),
        _ => "",
    };
    assert(name@ == last_name(fv)) by {
        assert(fv.last() is Normal) by {
            assert(path_parts(file@)[fv.len() - 1] is Normal);
        }
    }
    let stem = stem_of(name);
    let num = decimal_string(page + 1);
    proof {
        reveal_strlit(":num");
        reveal_strlit("index.html");
        reveal_strlit("index");
    }
    let url_page = replace_str(url, ":num", num.as_str());
    assert(":num"@ =~= num_token());
    let up = parse_path(url_page.as_str());
    let stem_parts = parse_path(stem.as_str());
    let index_file = String::from_str("index.html");
    assert(index_file@ =~= index_name());
    let mut index: Vec<PathPart> = Vec::new();
    index.push(PathPart::Normal(index_file));
    assert(parts_view(index@) =~= seq![PartView::Normal(index_name())]);
    proof {
        lemma_nested_shape(file@, url@, page as nat);
    }
    assert(parts_wf(parts_view(index@))) by {
        assert(index_name()[0] == 'i');
        assert(index_name() != seq!['.']);
        assert(index_name() != seq!['.', '.']);
        assert(part_wf(parts_view(index@), 0));
    }
    let is_index = stem == String::from_str("index");
    assert("index"@ =~= index_stem());
    let inner = if is_index {
        join_path(up, index)
    } else {
        join_path(join_path(stem_parts, up), index)
    };
    let mut dir = fp;
    dir.pop();
    assert(parts_view(dir@) =~= fv.drop_last());
    assert(parts_wf(parts_view(dir@))) by {
        assert forall|i: int| 0 <= i < parts_view(dir@).len() implies part_wf(parts_view(dir@), i) by {
            assert(parts_view(dir@)[i] == fv[i]);
            assert(part_wf(fv, i));
        }
    }
    let full = join_path(dir, inner);
    let cleaned = lexiclean_parts(&full);
    let ghost nv = parts_view(full@);
    let ghost cv = parts_view(cleaned@);
    proof {
        if nv.len() <= 1 {
            assert(nv =~= seq![PartView::Normal(index_name())]);
            assert(no_current(cv));
        } else {
            lemma_clean_fold_no_current(nv);
            assert(nv.drop_last().push(nv.last()) =~= nv);
        }
        assert(cv.len() > 0 && cv.last() is Normal);
    }
    if cleaned.len() > 0 && matches!(cleaned[0], PathPart::Parent) {
        let mut message = String::from_str("Pagination URL resolves outside of output directory: \"");
        let shown = render_path(&cleaned);
        message.append(shown.as_str());
        message.append("\"");
        proof {
            reveal_strlit("Pagination URL resolves outside of output directory: \"");
            reveal_strlit("\"");
        }
        assert(message@ =~= escape_message(cv));
        return Err(PageError { relative_path: String::from_str(file), message, code: PageErrorCode::ParentDir });
    }
    Ok(cleaned)
}

/// Where page `page` of `file` is written, relative to the output directory:
/// the file's own path for the first page, else the URL format resolved as
/// `page_parts` states; an error where that path leaves the output directory.
pub fn resolve_output_path(file: &str, url: &str, page: usize) -> (r: Result<String, PageError>)
    requires
        valid_file_path(file@),
        page < usize::MAX,
    ensures
        page == 0 ==> (r matches Ok(p) && p@ == file@),
        r is Err <==> (page > 0 && escapes(page_parts(file@, url@, page as nat))),
        page > 0 ==> (r matches Ok(p) ==> p@ == render(page_parts(file@, url@, page as nat))),
        r matches Err(e) ==> e.code == PageErrorCode::ParentDir && e.relative_path@ == file@
            && e.message@ == escape_message(page_parts(file@, url@, page as nat)),
{
    if page == 0 {
        return Ok(String::from_str(file));
    }
    match page_path(file, url, page) {
        Ok(parts) => Ok(render_path(&parts)),
        Err(e) => Err(e),
    }
}

/// The directory that page `page` is written in.
pub open spec fn page_dir(file: Seq<char>, url: Seq<char>, page: nat) -> Seq<PartView> {
    page_parts(file, url, page).drop_last()
}

/// A relative path as a link: a leading `.` dropped, `./` for the same
/// directory, and else the path with a trailing `/`.
pub open spec fn link_text(rel: Seq<PartView>) -> Seq<char> {
    let r = if rel.len() > 0 && rel[0] is Current { rel.drop_first() } else { rel };
    if r.len() == 0 {
        seq!['.', '/']
    } else {
        render(r) + seq!['/']
    }
}

pub open spec fn page_escapes(file: Seq<char>, url: Seq<char>, page: nat) -> bool {
    page > 0 && escapes(page_parts(file, url, page))
}

/// The link from page `from` to page `to`: the relative path between their
/// directories, as `link_text` writes it. It fails where either page's path
/// leaves the output directory (`from` tried first), or where no relative
/// path exists between the two directories.
pub fn relative_link(file: &str, url: &str, from: usize, to: usize) -> (r: Result<String, PageError>)
    requires
        valid_file_path(file@),
        from < usize::MAX,
        to < usize::MAX,
    ensures
        page_escapes(file@, url@, from as nat) ==> (r matches Err(e) && e.code == PageErrorCode::ParentDir
            && e.message@ == escape_message(page_parts(file@, url@, from as nat))),
        !page_escapes(file@, url@, from as nat) && page_escapes(file@, url@, to as nat) ==> (r matches Err(e)
            && e.code == PageErrorCode::ParentDir && e.message@ == escape_message(page_parts(file@, url@, to as nat))),
        !page_escapes(file@, url@, from as nat) && !page_escapes(file@, url@, to as nat) ==>
            match relative_parts(page_dir(file@, url@, to as nat), page_dir(file@, url@, from as nat)) {
                None => (r matches Err(e) && e.code == PageErrorCode::NoRelativePath),
                Some(rel) => (r matches Ok(s) && s@ == link_text(rel)),
            },
        r matches Err(e) ==> e.relative_path@ == file@,
{
    let mut from_parts = match page_path(file, url, from) {
        Ok(p) => p,
        Err(e) => return Err(e),
    };
    let mut to_parts = match page_path(file, url, to) {
        Ok(p) => p,
        Err(e) => return Err(e),
    };
    let ghost fv = parts_view(from_parts@);
    let ghost tv = parts_view(to_parts@);
    from_parts.pop();
    to_parts.pop();
    assert(parts_view(from_parts@) =~= fv.drop_last());
    assert(parts_view(to_parts@) =~= tv.drop_last());
    proof {
        assert forall|i: int| 0 <= i < fv.len() - 1 implies part_wf(fv.drop_last(), i) && !(#[trigger] fv.drop_last()[i] is Current) by {
            assert(fv.drop_last()[i] == fv[i]);
            assert(part_wf(fv, i));
        }
        assert forall|i: int| 0 <= i < tv.len() - 1 implies part_wf(tv.drop_last(), i) && !(#[trigger] tv.drop_last()[i] is Current) by {
            assert(tv.drop_last()[i] == tv[i]);
            assert(part_wf(tv, i));
        }
    }
    match diff_path_parts(&to_parts, &from_parts) {
        None => Err(PageError {
            relative_path: String::from_str(file),
            message: String::from_str("No relative path between the pages' directories"),
            code: PageErrorCode::NoRelativePath,
        }),
        Some(rel) => Ok(link_string(rel)),
    }
}

/// Writes a relative path as a link, as `link_text` states.
fn link_string(rel: Vec<PathPart>) -> (r: String)
    ensures
        r@ == link_text(parts_view(rel@)),
{
    let ghost v = parts_view(rel@);
    let mut rel = rel;
    if rel.len() > 0 && matches!(rel[0], PathPart::Current) {
        rel.remove(0);
        assert(parts_view(rel@) =~= v.drop_first());
    }
    proof {
        reveal_strlit("./");
        reveal_strlit("/");
    }
    if rel.len() == 0 {
        return String::from_str("./");
    }
    let mut s = render_path(&rel);
    s.append("/");
    s
}


proof fn lemma_diff_walk_same(a: Seq<PartView>)
    ensures
        diff_walk(a, a, Seq::empty()) == Some(Seq::<PartView>::empty()),
    decreases a.len(),
{
    if a.len() > 0 {
        lemma_diff_walk_same(a.drop_first());
    }
}

/// The link from a page to itself is `./`, the same directory.
pub proof fn lemma_link_to_same_page(file: Seq<char>, url: Seq<char>, page: nat)
    ensures
        relative_parts(page_dir(file, url, page), page_dir(file, url, page)) == Some(Seq::<PartView>::empty()),
        link_text(Seq::<PartView>::empty()) == seq!['.', '/'],
{
    lemma_diff_walk_same(page_dir(file, url, page));
}


pub open spec fn all_names(ps: Seq<PartView>) -> bool {
    forall|i: int| 0 <= i < ps.len() ==> (#[trigger] ps[i]) is Normal
}

/// Lexical cleaning that goes on from `acc` over the components `t`.
pub open spec fn clean_from(acc: Seq<PartView>, t: Seq<PartView>) -> Seq<PartView>
    decreases t.len(),
{
    if t.len() == 0 {
        acc
    } else {
        clean_step(clean_from(acc, t.drop_last()), t.last())
    }
}

proof fn lemma_clean_fold_from(s: Seq<PartView>)
    ensures
        clean_fold(s) == clean_from(Seq::empty(), s),
    decreases s.len(),
{
    if s.len() > 0 {
        lemma_clean_fold_from(s.drop_last());
    }
}

proof fn lemma_clean_from_concat(acc: Seq<PartView>, s: Seq<PartView>, t: Seq<PartView>)
    ensures
        clean_from(acc, s + t) == clean_from(clean_from(acc, s), t),
    decreases t.len(),
{
    if t.len() == 0 {
        assert(s + t =~= s);
    } else {
        assert((s + t).drop_last() =~= s + t.drop_last());
        assert((s + t).last() == t.last());
        lemma_clean_from_concat(acc, s, t.drop_last());
    }
}

proof fn lemma_clean_from_names(acc: Seq<PartView>, n: Seq<PartView>)
    requires
        all_names(n),
    ensures
        clean_from(acc, n) == acc + n,
    decreases n.len(),
{
    if n.len() == 0 {
        assert(acc + n =~= acc);
    } else {
        assert(all_names(n.drop_last())) by {
            assert forall|i: int| 0 <= i < n.drop_last().len() implies (#[trigger] n.drop_last()[i]) is Normal by {
                assert(n.drop_last()[i] == n[i]);
            }
        }
        lemma_clean_from_names(acc, n.drop_last());
        assert(n[n.len() - 1] is Normal);
        assert((acc + n.drop_last()).push(n.last()) =~= acc + n);
    }
}

proof fn lemma_clean_from_parents(c: Seq<PartView>, m: Seq<PartView>, j: nat)
    requires
        all_names(m),
        j <= m.len(),
    ensures
        clean_from(c + m, parent_run(j)) == c + m.subrange(0, m.len() - j),
    decreases j,
{
    if j == 0 {
        assert(parent_run(0) =~= Seq::<PartView>::empty());
        assert(m.subrange(0, m.len() as int) =~= m);
    } else {
        assert(parent_run(j).drop_last() =~= parent_run((j - 1) as nat));
        assert(parent_run(j).last() == PartView::Parent);
        lemma_clean_from_parents(c, m, (j - 1) as nat);
        let acc = c + m.subrange(0, m.len() - (j - 1));
        assert(acc.last() == m[m.len() - j]);
        assert(m[m.len() - j] is Normal);
        assert(acc.drop_last() =~= c + m.subrange(0, m.len() - j));
    }
}

proof fn lemma_walk_base_rest(b: Seq<PartView>, comps: Seq<PartView>)
    ensures
        diff_walk(Seq::empty(), b, comps) == Some(comps + parent_run(b.len())),
    decreases b.len(),
{
    if b.len() == 0 {
        assert(comps + parent_run(0) =~= comps);
    } else {
        lemma_walk_base_rest(b.drop_first(), comps.push(PartView::Parent));
        assert(comps.push(PartView::Parent) + parent_run((b.len() - 1) as nat) =~= comps + parent_run(b.len()));
    }
}

/// The length of the common front of `a` and `b`.
pub open spec fn common_len(a: Seq<PartView>, b: Seq<PartView>) -> nat
    decreases a.len(),
{
    if a.len() > 0 && b.len() > 0 && a[0] == b[0] {
        1 + common_len(a.drop_first(), b.drop_first())
    } else {
        0
    }
}

/// Between directories made of names only, the path from `base` to `path`
/// climbs out of what `base` has beyond their common front, then goes down
/// what `path` has beyond it.
proof fn lemma_diff_names(path: Seq<PartView>, base: Seq<PartView>)
    requires
        all_names(path),
        all_names(base),
    ensures
        common_len(path, base) <= path.len(),
        common_len(path, base) <= base.len(),
        path.subrange(0, common_len(path, base) as int) == base.subrange(0, common_len(path, base) as int),
        diff_walk(path, base, Seq::empty()) == Some(parent_run((base.len() - common_len(path, base)) as nat)
            + path.subrange(common_len(path, base) as int, path.len() as int)),
    decreases path.len(),
{
    let k = common_len(path, base);
    if path.len() > 0 && base.len() > 0 && path[0] == base[0] {
        assert(all_names(path.drop_first())) by {
            assert forall|i: int| 0 <= i < path.drop_first().len() implies (#[trigger] path.drop_first()[i]) is Normal by {
                assert(path.drop_first()[i] == path[i + 1]);
            }
        }
        assert(all_names(base.drop_first())) by {
            assert forall|i: int| 0 <= i < base.drop_first().len() implies (#[trigger] base.drop_first()[i]) is Normal by {
                assert(base.drop_first()[i] == base[i + 1]);
            }
        }
        lemma_diff_names(path.drop_first(), base.drop_first());
        let k1 = common_len(path.drop_first(), base.drop_first());
        assert(path.subrange(0, k as int) =~= seq![path[0]] + path.drop_first().subrange(0, k1 as int));
        assert(base.subrange(0, k as int) =~= seq![base[0]] + base.drop_first().subrange(0, k1 as int));
        assert(path.drop_first().subrange(k1 as int, path.drop_first().len() as int) =~= path.subrange(k as int, path.len() as int));
    } else if path.len() == 0 {
        lemma_walk_base_rest(base, Seq::empty());
        assert(Seq::<PartView>::empty() + parent_run(base.len()) =~= parent_run(base.len()) + path.subrange(0, 0));
        if base.len() == 0 {
            assert(diff_walk(path, base, Seq::empty()) == Some(Seq::<PartView>::empty()));
        }
    } else if base.len() == 0 {
        assert(Seq::<PartView>::empty() + path =~= parent_run(0) + path.subrange(0, path.len() as int));
    } else {
        assert(base[0] is Normal);
        assert(Seq::<PartView>::empty() + parent_run(base.len()) + path =~= parent_run(base.len()) + path.subrange(0, path.len() as int));
    }
}

/// Following the link from one directory to another and then the link back,
/// for directories made of names only, cleans back to the first directory.
pub proof fn lemma_links_round_trip(a: Seq<PartView>, b: Seq<PartView>)
    requires
        all_names(a),
        all_names(b),
    ensures
        relative_parts(b, a) is Some,
        relative_parts(a, b) is Some,
        clean_fold(a + relative_parts(b, a)->0 + relative_parts(a, b)->0) == a,
{
    assert(!is_absolute(a) && !is_absolute(b)) by {
        if a.len() > 0 {
            assert(a[0] is Normal);
        }
        if b.len() > 0 {
            assert(b[0] is Normal);
        }
    }
    lemma_diff_names(b, a);
    lemma_diff_names(a, b);
    let k = common_len(b, a);
    lemma_common_len_sym(a, b);
    assert(common_len(a, b) == k);
    let x = parent_run((a.len() - k) as nat) + b.subrange(k as int, b.len() as int);
    let y = parent_run((b.len() - k) as nat) + a.subrange(k as int, a.len() as int);
    let front = a.subrange(0, k as int);
    let a_rest = a.subrange(k as int, a.len() as int);
    let b_rest = b.subrange(k as int, b.len() as int);
    assert(all_names(a_rest)) by {
        assert forall|i: int| 0 <= i < a_rest.len() implies (#[trigger] a_rest[i]) is Normal by {
            assert(a_rest[i] == a[i + k]);
        }
    }
    assert(all_names(b_rest)) by {
        assert forall|i: int| 0 <= i < b_rest.len() implies (#[trigger] b_rest[i]) is Normal by {
            assert(b_rest[i] == b[i + k]);
        }
    }
    assert(a =~= front + a_rest);
    assert(b =~= front + b_rest);
    lemma_clean_fold_from(a + x + y);
    lemma_clean_from_concat(Seq::empty(), a + x, y);
    lemma_clean_from_concat(Seq::empty(), a, x);
    lemma_clean_from_names(Seq::empty(), a);
    assert(Seq::<PartView>::empty() + a =~= a);
    // over x: climb out of a_rest, then go down b_rest
    lemma_clean_from_concat(a, parent_run((a.len() - k) as nat), b_rest);
    lemma_clean_from_parents(front, a_rest, a_rest.len());
    assert(a_rest.subrange(0, 0) =~= Seq::<PartView>::empty());
    assert(front + Seq::<PartView>::empty() =~= front);
    lemma_clean_from_names(front, b_rest);
    // over y: climb out of b_rest, then go down a_rest
    lemma_clean_from_concat(b, parent_run((b.len() - k) as nat), a_rest);
    lemma_clean_from_parents(front, b_rest, b_rest.len());
    assert(b_rest.subrange(0, 0) =~= Seq::<PartView>::empty());
    lemma_clean_from_names(front, a_rest);
}

/// For two pages whose directories are made of names only, the link from the
/// first to the second followed by the link back leads to the first page's
/// directory again.
pub proof fn lemma_page_links_round_trip(file: Seq<char>, url: Seq<char>, from: nat, to: nat)
    requires
        all_names(page_dir(file, url, from)),
        all_names(page_dir(file, url, to)),
    ensures
        relative_parts(page_dir(file, url, to), page_dir(file, url, from)) is Some,
        relative_parts(page_dir(file, url, from), page_dir(file, url, to)) is Some,
        clean_fold(page_dir(file, url, from)
            + relative_parts(page_dir(file, url, to), page_dir(file, url, from))->0
            + relative_parts(page_dir(file, url, from), page_dir(file, url, to))->0) == page_dir(file, url, from),
{
    lemma_links_round_trip(page_dir(file, url, from), page_dir(file, url, to));
}

proof fn lemma_common_len_sym(a: Seq<PartView>, b: Seq<PartView>)
    ensures
        common_len(a, b) == common_len(b, a),
    decreases a.len(),
{
    if a.len() > 0 && b.len() > 0 && a[0] == b[0] {
        lemma_common_len_sym(a.drop_first(), b.drop_first());
    }
}

} // verus!
