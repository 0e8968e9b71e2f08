//! Paths and document keys. Paths are `/`-separated text;
//! a path that starts with `/` is absolute.

use vstd::prelude::*;

use crate::text::{chars_of, split_chars, split_on, string_of};

verus! {

/// One component of a path, as the path is read left to right.
pub enum Comp {
    /// The root `/` of an absolute path.
    Root,
    /// A leading `.` of a relative path.
    Cur,
    /// `..`.
    Parent,
    /// Any other name.
    Normal(Seq<char>),
}

/// The components of the `/`-separated pieces, the first piece being the
/// start of a relative path when `first` holds: empty pieces and `.` pieces
/// are skipped, except a leading `.` of a relative path.
pub open spec fn pieces_comps(pieces: Seq<Seq<char>>, first: bool) -> Seq<Comp>
    decreases pieces.len(),
{
    if pieces.len() == 0 {
        Seq::empty()
    } else {
        let p = pieces[0];
        let rest = pieces_comps(pieces.drop_first(), false);
        if p.len() == 0 {
            rest
        } else if p == seq!['.'] {
            if first {
                seq![Comp::Cur] + rest
            } else {
                rest
            }
        } else if p == seq!['.', '.'] {
            seq![Comp::Parent] + rest
        } else {
            seq![Comp::Normal(p)] + rest
        }
    }
}

/// Whether a path is absolute.
pub open spec fn is_absolute_spec(p: Seq<char>) -> bool {
    p.len() > 0 && p[0] == '/'
}

/// The components of a path, like `std::path::Path::components` on Unix.
pub open spec fn comps_spec(p: Seq<char>) -> Seq<Comp> {
    if is_absolute_spec(p) {
        seq![Comp::Root] + pieces_comps(split_on(p, '/'), false)
    } else {
        pieces_comps(split_on(p, '/'), true)
    }
}

/// Lexical cleaning, component by component: `.` dropped, `..` folded onto
/// the preceding name, dropped at the root, and kept when there is nothing
/// to fold (like Go's `filepath.Clean`).
pub open spec fn clean_comps(cs: Seq<Comp>) -> Seq<Comp>
    decreases cs.len(),
{
    if cs.len() == 0 {
        Seq::empty()
    } else {
        let out = clean_comps(cs.drop_last());
        match cs.last() {
            Comp::Cur => out,
            Comp::Parent => if out.len() > 0 && out.last() is Normal {
                out.drop_last()
            } else if out.len() > 0 && out.last() is Root {
                out
            } else {
                out.push(Comp::Parent)
            },
            other => out.push(other),
        }
    }
}

/// The text of one component when a path is rebuilt from components.
pub open spec fn comp_text(c: Comp) -> Seq<char> {
    match c {
        Comp::Root => seq!['/'],
        Comp::Cur => seq!['.'],
        Comp::Parent => seq!['.', '.'],
        Comp::Normal(s) => s,
    }
}

/// A path rebuilt from components, each after a `/` unless it follows the
/// root or starts the path.
pub open spec fn join_comps(cs: Seq<Comp>) -> Seq<char>
    decreases cs.len(),
{
    if cs.len() == 0 {
        Seq::empty()
    } else {
        let prefix = join_comps(cs.drop_last());
        if prefix.len() == 0 || prefix.last() == '/' {
            prefix + comp_text(cs.last())
        } else {
            prefix + seq!['/'] + comp_text(cs.last())
        }
    }
}

/// A lexically normalized path; `.` when nothing is left.
pub open spec fn lexical_clean_spec(p: Seq<char>) -> Seq<char> {
    let j = join_comps(clean_comps(comps_spec(p)));
    if j.len() == 0 {
        seq!['.']
    } else {
        j
    }
}

} // verus!

verus! {

/// One component of a path.
pub enum PathComp {
    /// The root `/`.
    Root,
    /// A leading `.`.
    Cur,
    /// `..`.
    Parent,
    /// A name.
    Normal(Vec<char>),
}

impl View for PathComp {
    type V = Comp;

    open spec fn view(&self) -> Comp {
        match self {
            PathComp::Root => Comp::Root,
            PathComp::Cur => Comp::Cur,
            PathComp::Parent => Comp::Parent,
            PathComp::Normal(s) => Comp::Normal(s@),
        }
    }
}

/// The views of a list of components.
pub open spec fn comp_views(cs: Seq<PathComp>) -> Seq<Comp> {
    cs.map_values(|c: PathComp| c@)
}

fn copy_comp(c: &PathComp) -> (r: PathComp)
    ensures
        r@ == (*c)@,
{
    match c {
        PathComp::Root => PathComp::Root,
        PathComp::Cur => PathComp::Cur,
        PathComp::Parent => PathComp::Parent,
        PathComp::Normal(s) => {
            let t = crate::text::slice_vec(s, 0, s.len());
            assert(t@ =~= s@);
            PathComp::Normal(t)
        },
    }
}

/// The components of a path.
pub fn path_comps(p: &Vec<char>) -> (r: Vec<PathComp>)
    ensures
        comp_views(r@) == comps_spec(p@),
{
    let pieces = split_chars(p, '/');
    let ghost pv = split_on(p@, '/');
    let absolute = p.len() > 0 && p[0] == '/';
    let mut out: Vec<PathComp> = Vec::new();
    if absolute {
        out.push(PathComp::Root);
    }
    let mut k: usize = 0;
    assert(pv.skip(0) == pv);
    assert(comp_views(out@) + pieces_comps(pv, !absolute) == comps_spec(p@));
    while k < pieces.len()
        invariant
            k <= pieces.len(),
            pieces@.len() == pv.len(),
            forall|j: int| 0 <= j < pieces@.len() ==> #[trigger] pieces@[j]@ == pv[j],
            comp_views(out@) + pieces_comps(pv.skip(k as int), k == 0 && !absolute) == comps_spec(p@),
        decreases pieces.len() - k,
    {
        let ghost u = pv.skip(k as int);
        assert(u[0] == pieces@[k as int]@);
        assert(u.drop_first() == pv.skip(k + 1));
        let piece = &pieces[k];
        let ghost before = comp_views(out@);
        let first = k == 0 && !absolute;
        if piece.len() == 0 {
        } else if piece.len() == 1 && piece[0] == '.' {
            assert(piece@ =~= seq!['.']);
            if first {
                out.push(PathComp::Cur);
                assert(comp_views(out@) =~= before + seq![Comp::Cur]);
            }
        } else if piece.len() == 2 && piece[0] == '.' && piece[1] == '.' {
            assert(piece@ =~= seq!['.', '.']);
            out.push(PathComp::Parent);
            assert(comp_views(out@) =~= before + seq![Comp::Parent]);
        } else {
            assert(piece@ != seq!['.']);
            assert(piece@ != seq!['.', '.']);
            let copy = crate::text::slice_vec(piece, 0, piece.len());
            assert(copy@ =~= piece@);
            out.push(PathComp::Normal(copy));
            assert(comp_views(out@) =~= before + seq![Comp::Normal(piece@)]);
        }
        proof {
            let rest = pieces_comps(pv.skip(k + 1), false);
            assert(before + (seq![Comp::Cur] + rest) == (before + seq![Comp::Cur]) + rest);
            assert(before + (seq![Comp::Parent] + rest) == (before + seq![Comp::Parent]) + rest);
            assert(before + (seq![Comp::Normal(piece@)] + rest) == (before + seq![Comp::Normal(piece@)]) + rest);
        }
        k = k + 1;
    }
    assert(pv.skip(k as int) == Seq::<Seq<char>>::empty());
    assert(comp_views(out@) + Seq::<Comp>::empty() == comp_views(out@));
    out
}

/// Lexical cleaning of components.
pub fn clean(cs: &Vec<PathComp>) -> (r: Vec<PathComp>)
    ensures
        comp_views(r@) == clean_comps(comp_views(cs@)),
{
    let ghost cv = comp_views(cs@);
    let mut out: Vec<PathComp> = Vec::new();
    let mut k: usize = 0;
    assert(cv.take(0) == Seq::<Comp>::empty());
    while k < cs.len()
        invariant
            k <= cs.len(),
            cv == comp_views(cs@),
            comp_views(out@) == clean_comps(cv.take(k as int)),
        decreases cs.len() - k,
    {
        assert(cv.take(k + 1).drop_last() == cv.take(k as int));
        assert(cv.take(k + 1).last() == cs@[k as int]@);
        let ghost before = comp_views(out@);
        match &cs[k] {
            PathComp::Cur => {},
            PathComp::Parent => {
                let n = out.len();
                if n > 0 && (match &out[n - 1] {
                    PathComp::Normal(_) => true,
                    _ => false,
                }) {
                    out.pop();
                    assert(comp_views(out@) =~= before.drop_last());
                } else if n > 0 && (match &out[n - 1] {
                    PathComp::Root => true,
                    _ => false,
                }) {
                } else {
                    out.push(PathComp::Parent);
                    assert(comp_views(out@) =~= before.push(Comp::Parent));
                }
            },
            other => {
                out.push(copy_comp(other));
                assert(comp_views(out@) =~= before.push(cs@[k as int]@));
            },
        }
        k = k + 1;
    }
    assert(cv.take(k as int) == cv);
    out
}

/// A path rebuilt from components.
pub fn join(cs: &Vec<PathComp>) -> (r: Vec<char>)
    ensures
        r@ == join_comps(comp_views(cs@)),
{
    let ghost cv = comp_views(cs@);
    let mut out: Vec<char> = Vec::new();
    let mut k: usize = 0;
    assert(cv.take(0) == Seq::<Comp>::empty());
    while k < cs.len()
        invariant
            k <= cs.len(),
            cv == comp_views(cs@),
            out@ == join_comps(cv.take(k as int)),
        decreases cs.len() - k,
    {
        assert(cv.take(k + 1).drop_last() == cv.take(k as int));
        assert(cv.take(k + 1).last() == cs@[k as int]@);
        if !(out.len() == 0 || out[out.len() - 1] == '/') {
            out.push('/');
        }
        let ghost mid = out@;
        let text: Vec<char> = match &cs[k] {
            PathComp::Root => {
                let mut t = Vec::new();
                t.push('/');
                t
            },
            PathComp::Cur => {
                let mut t = Vec::new();
                t.push('.');
                t
            },
            PathComp::Parent => {
                let mut t = Vec::new();
                t.push('.');
                t.push('.');
                t
            },
            PathComp::Normal(s) => {
                let t = crate::text::slice_vec(s, 0, s.len());
                assert(t@ =~= s@);
                t
            },
        };
        assert(text@ =~= comp_text(cs@[k as int]@));
        let mut m: usize = 0;
        while m < text.len()
            invariant
                m <= text.len(),
                out@ == mid + text@.take(m as int),
            decreases text.len() - m,
        {
            out.push(text[m]);
            m = m + 1;
        }
        assert(text@.take(m as int) == text@);
        k = k + 1;
    }
    assert(cv.take(k as int) == cv);
    out
}

/// Lexically normalizes a path: `.` dropped, `..` folded onto the preceding
/// name (or kept at the front when there is nothing to fold), like Go's
/// `filepath.Clean`. No filesystem access, so symlinks are not followed.
pub fn lexical_clean(path: &str) -> (r: String)
    ensures
        r@ == lexical_clean_spec(path@),
{
    let p = chars_of(path);
    let cs = path_comps(&p);
    let cleaned = clean(&cs);
    let j = join(&cleaned);
    if j.len() == 0 {
        let mut d = Vec::new();
        d.push('.');
        string_of(d.as_slice())
    } else {
        string_of(j.as_slice())
    }
}

} // verus!

verus! {

/// `target` resolved against `base`: an absolute target stands alone;
/// otherwise it is appended to `base` after a `/`.
pub open spec fn join_path_spec(base: Seq<char>, target: Seq<char>) -> Seq<char> {
    if is_absolute_spec(target) || base.len() == 0 {
        target
    } else if base.last() == '/' {
        base + target
    } else {
        base + seq!['/'] + target
    }
}

/// The path an `@file:` target names, resolved against the directory of the
/// referencing file and cleaned.
pub open spec fn include_target_spec(target: Seq<char>, base_dir: Seq<char>) -> Seq<char> {
    lexical_clean_spec(join_path_spec(base_dir, target))
}

pub fn join_path(base: &str, target: &str) -> (r: String)
    ensures
        r@ == join_path_spec(base@, target@),
{
    let t = chars_of(target);
    let b = chars_of(base);
    if (t.len() > 0 && t[0] == '/') || b.len() == 0 {
        crate::text::owned(target)
    } else if b[b.len() - 1] == '/' {
        crate::text::concat2(base, target)
    } else {
        proof {
            reveal_strlit("/");
        }
        assert("/"@ =~= seq!['/']);
        crate::text::concat3(base, "/", target)
    }
}

/// Resolves `target` against the directory of the referencing file, cleaned:
/// the computation the include resolver and `inspect` share.
pub fn include_target(target: &str, base_dir: &str) -> (r: String)
    ensures
        r@ == include_target_spec(target@, base_dir@),
{
    let j = join_path(base_dir, target);
    lexical_clean(j.as_str())
}

/// The directory holding a path: the path without its last component, or
/// `.` when there is none.
pub open spec fn parent_spec(p: Seq<char>) -> Seq<char> {
    let cs = comps_spec(p);
    if cs.len() == 0 || (cs.len() == 1 && cs[0] is Root) {
        seq!['.']
    } else {
        join_comps(cs.drop_last())
    }
}

/// The directory holding `path`.
pub fn parent(path: &str) -> (r: String)
    ensures
        r@ == parent_spec(path@),
{
    let p = chars_of(path);
    let mut cs = path_comps(&p);
    let n = cs.len();
    if n == 0 || (n == 1 && (match &cs[0] {
        PathComp::Root => true,
        _ => false,
    })) {
        let mut d = Vec::new();
        d.push('.');
        return string_of(d.as_slice());
    }
    let ghost before = comp_views(cs@);
    cs.pop();
    assert(comp_views(cs@) =~= before.drop_last());
    let j = join(&cs);
    string_of(j.as_slice())
}

/// The last component of a path when it is a name.
pub open spec fn file_name_spec(p: Seq<char>) -> Option<Seq<char>> {
    let cs = comps_spec(p);
    if cs.len() > 0 && cs.last() is Normal {
        Some(cs.last()->Normal_0)
    } else {
        None
    }
}

/// The index of the last `c` in `s`, if any.
pub open spec fn last_index(s: Seq<char>, c: char) -> Option<int>
    decreases s.len(),
{
    if s.len() == 0 {
        None
    } else if s.last() == c {
        Some(s.len() - 1)
    } else {
        last_index(s.drop_last(), c)
    }
}

/// A file name's extension: the text after its last `.`, unless that `.`
/// starts the name (`.env` has none), like `Path::extension`.
pub open spec fn extension_spec(p: Seq<char>) -> Option<Seq<char>> {
    match file_name_spec(p) {
        Some(name) => match last_index(name, '.') {
            Some(i) => if i > 0 && name != seq!['.', '.'] {
                Some(name.skip(i + 1))
            } else {
                None
            },
            None => None,
        },
        None => None,
    }
}

/// The extension of `path`, if any.
pub fn extension(path: &str) -> (r: Option<Vec<char>>)
    ensures
        r matches Some(e) ==> extension_spec(path@) == Some(e@),
        r is None ==> extension_spec(path@) is None,
{
    let p = chars_of(path);
    let cs = path_comps(&p);
    let n = cs.len();
    if n == 0 {
        return None;
    }
    let name = match &cs[n - 1] {
        PathComp::Normal(s) => s,
        _ => {
            return None;
        },
    };
    assert(file_name_spec(path@) == Some(name@));
    let mut i = name.len();
    assert(name@.take(i as int) == name@);
    while i > 0 && name[i - 1] != '.'
        invariant
            i <= name.len(),
            last_index(name@, '.') == last_index(name@.take(i as int), '.'),
        decreases i,
    {
        assert(name@.take(i as int).drop_last() == name@.take(i - 1));
        i = i - 1;
    }
    if i == 0 {
        assert(name@.take(0) == Seq::<char>::empty());
        return None;
    }
    assert(last_index(name@.take(i as int), '.') == Some(i - 1));
    let dotdot = name.len() == 2 && name[0] == '.' && name[1] == '.';
    assert(dotdot <==> name@ == seq!['.', '.']) by {
        if name@ == seq!['.', '.'] {
            assert(name@[0] == '.' && name@[1] == '.');
        }
        if dotdot {
            assert(name@ =~= seq!['.', '.']);
        }
    }
    if i - 1 > 0 && !dotdot {
        let e = crate::text::slice_vec(name, i, name.len());
        assert(e@ =~= name@.skip(i as int));
        Some(e)
    } else {
        None
    }
}

} // verus!

verus! {

/// A classified path component for joining document keys.
#[derive(Debug, Clone, PartialEq)]
pub enum KeyComponent {
    /// A drive prefix such as `C:`.
    Prefix(String),
    /// The root separator.
    RootDir,
    /// A `.` component.
    CurDir,
    /// A name, `..` included.
    Normal(String),
}

/// The view of a [`KeyComponent`].
pub enum KeyComp {
    /// A drive prefix.
    Prefix(Seq<char>),
    /// The root separator.
    RootDir,
    /// A `.` component.
    CurDir,
    /// A name.
    Normal(Seq<char>),
}

impl View for KeyComponent {
    type V = KeyComp;

    open spec fn view(&self) -> KeyComp {
        match self {
            KeyComponent::Prefix(p) => KeyComp::Prefix(p@),
            KeyComponent::RootDir => KeyComp::RootDir,
            KeyComponent::CurDir => KeyComp::CurDir,
            KeyComponent::Normal(s) => KeyComp::Normal(s@),
        }
    }
}

/// The views of a list of key components.
pub open spec fn key_views(cs: Seq<KeyComponent>) -> Seq<KeyComp> {
    cs.map_values(|c: KeyComponent| c@)
}

/// Joins key components left to right, given the key so far and whether a
/// prefix was seen: a prefix is written as is, the root adds a `/` unless
/// the key already ends in one, `.` adds nothing, and a name follows a `/`
/// unless it starts the key or follows one.
pub open spec fn join_key_from(cs: Seq<KeyComp>, key: Seq<char>, has_prefix: bool) -> (Seq<char>, bool)
    decreases cs.len(),
{
    if cs.len() == 0 {
        (key, has_prefix)
    } else {
        match cs[0] {
            KeyComp::Prefix(p) => join_key_from(cs.drop_first(), key + p, true),
            KeyComp::RootDir => join_key_from(
                cs.drop_first(),
                if key.len() > 0 && key.last() == '/' {
                    key
                } else {
                    key.push('/')
                },
                has_prefix,
            ),
            KeyComp::CurDir => join_key_from(cs.drop_first(), key, has_prefix),
            KeyComp::Normal(s) => join_key_from(
                cs.drop_first(),
                if key.len() > 0 && key.last() != '/' {
                    key.push('/') + s
                } else {
                    key + s
                },
                has_prefix,
            ),
        }
    }
}

/// A document key from its components: an absolute path without a drive
/// prefix starts with `/`; nothing at all is `.`.
pub open spec fn join_key_spec(cs: Seq<KeyComp>, is_absolute: bool) -> Seq<char> {
    let (k, has_prefix) = join_key_from(cs, Seq::empty(), false);
    let k2 = if is_absolute && !has_prefix && !(k.len() > 0 && k[0] == '/') {
        seq!['/'] + k
    } else {
        k
    };
    if k2.len() == 0 {
        seq!['.']
    } else {
        k2
    }
}

fn push_all(out: &mut Vec<char>, s: &Vec<char>)
    ensures
        final(out)@ == old(out)@ + s@,
{
    let ghost base = out@;
    let mut m: usize = 0;
    while m < s.len()
        invariant
            m <= s.len(),
            out@ == base + s@.take(m as int),
        decreases s.len() - m,
    {
        out.push(s[m]);
        m = m + 1;
    }
    assert(s@.take(m as int) == s@);
}

/// Joins classified components into a document key.
pub fn join_key_components(components: Vec<KeyComponent>, is_absolute: bool) -> (r: String)
    ensures
        r@ == join_key_spec(key_views(components@), is_absolute),
{
    let ghost cv = key_views(components@);
    let mut key: Vec<char> = Vec::new();
    let mut has_prefix = false;
    let mut k: usize = 0;
    assert(cv.skip(0) == cv);
    while k < components.len()
        invariant
            k <= components.len(),
            cv == key_views(components@),
            join_key_from(cv, Seq::empty(), false) == join_key_from(cv.skip(k as int), key@, has_prefix),
        decreases components.len() - k,
    {
        let ghost u = cv.skip(k as int);
        assert(u[0] == components@[k as int]@);
        assert(u.drop_first() == cv.skip(k + 1));
        match &components[k] {
            KeyComponent::Prefix(p) => {
                has_prefix = true;
                push_all(&mut key, &chars_of(p.as_str()));
            },
            KeyComponent::RootDir => {
                if !(key.len() > 0 && key[key.len() - 1] == '/') {
                    key.push('/');
                }
            },
            KeyComponent::CurDir => {},
            KeyComponent::Normal(s) => {
                if key.len() > 0 && key[key.len() - 1] != '/' {
                    key.push('/');
                }
                push_all(&mut key, &chars_of(s.as_str()));
            },
        }
        k = k + 1;
    }
    assert(cv.skip(k as int) == Seq::<KeyComp>::empty());
    let mut out: Vec<char> = Vec::new();
    if is_absolute && !has_prefix && !(key.len() > 0 && key[0] == '/') {
        out.push('/');
    }
    push_all(&mut out, &key);
    if out.len() == 0 {
        out.push('.');
    }
    string_of(out.as_slice())
}

/// `Some(is root)` for the first component, `None` for no components.
pub open spec fn first_is_root(cs: Seq<Comp>) -> Option<bool> {
    if cs.len() == 0 {
        None
    } else {
        Some(cs[0] is Root)
    }
}

/// The number of leading components two lists share.
pub open spec fn common_prefix(a: Seq<Comp>, b: Seq<Comp>) -> nat
    decreases a.len(),
{
    if a.len() > 0 && b.len() > 0 && a[0] == b[0] {
        1 + common_prefix(a.drop_first(), b.drop_first())
    } else {
        0
    }
}

/// One `..` for each name.
pub open spec fn ups(cs: Seq<Comp>) -> Seq<Comp>
    decreases cs.len(),
{
    if cs.len() == 0 {
        Seq::empty()
    } else {
        ups(cs.drop_last()) + if cs.last() is Normal {
            seq![Comp::Parent]
        } else {
            Seq::<Comp>::empty()
        }
    }
}

/// A lexical relative path from `base` to `path` (like Go's `filepath.Rel`):
/// `None` when one is rooted and the other not.
pub open spec fn relative_spec(base: Seq<Comp>, path: Seq<Comp>) -> Option<Seq<Comp>> {
    if first_is_root(base) != first_is_root(path) {
        None
    } else {
        let c = common_prefix(base, path) as int;
        Some(ups(base.skip(c)) + path.skip(c))
    }
}

/// A path component as a key component: `..` is a name there.
pub open spec fn key_of(c: Comp) -> KeyComp {
    match c {
        Comp::Root => KeyComp::RootDir,
        Comp::Cur => KeyComp::CurDir,
        Comp::Parent => KeyComp::Normal(seq!['.', '.']),
        Comp::Normal(s) => KeyComp::Normal(s),
    }
}

/// A document key: the path relative to the config directory,
/// `/`-separated, or the absolute path when no relative form exists.
pub open spec fn document_key_spec(dir: Seq<char>, path: Seq<char>) -> Seq<char> {
    let p2 = match relative_spec(comps_spec(dir), comps_spec(path)) {
        Some(rel) => join_comps(rel),
        None => path,
    };
    join_key_spec(comps_spec(p2).map_values(|c: Comp| key_of(c)), is_absolute_spec(p2))
}

fn comp_eq(a: &PathComp, b: &PathComp) -> (r: bool)
    ensures
        r == ((*a)@ == (*b)@),
{
    match (a, b) {
        (PathComp::Root, PathComp::Root) => true,
        (PathComp::Cur, PathComp::Cur) => true,
        (PathComp::Parent, PathComp::Parent) => true,
        (PathComp::Normal(x), PathComp::Normal(y)) => crate::text::chars_eq(x, y),
        _ => false,
    }
}

fn relative_to(base: &Vec<PathComp>, path: &Vec<PathComp>) -> (r: Option<Vec<PathComp>>)
    ensures
        r matches Some(v) ==> relative_spec(comp_views(base@), comp_views(path@)) == Some(comp_views(v@)),
        r is None ==> relative_spec(comp_views(base@), comp_views(path@)) is None,
{
    let ghost bv = comp_views(base@);
    let ghost pv = comp_views(path@);
    let br: Option<bool> = if base.len() == 0 {
        None
    } else {
        Some(match &base[0] {
            PathComp::Root => true,
            _ => false,
        })
    };
    let pr: Option<bool> = if path.len() == 0 {
        None
    } else {
        Some(match &path[0] {
            PathComp::Root => true,
            _ => false,
        })
    };
    let same = match (br, pr) {
        (None, None) => true,
        (Some(x), Some(y)) => x == y,
        _ => false,
    };
    if !same {
        return None;
    }
    let mut c: usize = 0;
    assert(bv.skip(0) == bv && pv.skip(0) == pv);
    while c < base.len() && c < path.len() && comp_eq(&base[c], &path[c])
        invariant
            c <= base.len(),
            c <= path.len(),
            bv == comp_views(base@),
            pv == comp_views(path@),
            common_prefix(bv, pv) == c + common_prefix(bv.skip(c as int), pv.skip(c as int)),
        decreases base.len() - c,
    {
        assert(bv.skip(c as int).drop_first() == bv.skip(c + 1));
        assert(pv.skip(c as int).drop_first() == pv.skip(c + 1));
        c = c + 1;
    }
    let mut out: Vec<PathComp> = Vec::new();
    let mut k = c;
    assert(bv.skip(c as int).take(0) == Seq::<Comp>::empty());
    while k < base.len()
        invariant
            c <= k <= base.len(),
            bv == comp_views(base@),
            comp_views(out@) == ups(bv.skip(c as int).take(k - c)),
        decreases base.len() - k,
    {
        assert(bv.skip(c as int).take(k + 1 - c).drop_last() == bv.skip(c as int).take(k - c));
        assert(bv.skip(c as int).take(k + 1 - c).last() == base@[k as int]@);
        let ghost before = comp_views(out@);
        match &base[k] {
            PathComp::Normal(_) => {
                out.push(PathComp::Parent);
                assert(comp_views(out@) =~= before + seq![Comp::Parent]);
            },
            _ => {
                assert(before + Seq::<Comp>::empty() == before);
            },
        }
        k = k + 1;
    }
    assert(bv.skip(c as int).take(k - c) == bv.skip(c as int));
    let mut m = c;
    let ghost ups_v = comp_views(out@);
    assert(pv.skip(c as int).take(0) == Seq::<Comp>::empty());
    while m < path.len()
        invariant
            c <= m <= path.len(),
            pv == comp_views(path@),
            comp_views(out@) == ups_v + pv.skip(c as int).take(m - c),
        decreases path.len() - m,
    {
        let ghost before = comp_views(out@);
        out.push(copy_comp(&path[m]));
        assert(pv.skip(c as int).take(m + 1 - c) == pv.skip(c as int).take(m - c).push(path@[m as int]@));
        assert(comp_views(out@) =~= before.push(path@[m as int]@));
        m = m + 1;
    }
    assert(pv.skip(c as int).take(m - c) == pv.skip(c as int));
    Some(out)
}

fn key_component(c: &PathComp) -> (r: KeyComponent)
    ensures
        r@ == key_of((*c)@),
{
    match c {
        PathComp::Root => KeyComponent::RootDir,
        PathComp::Cur => KeyComponent::CurDir,
        PathComp::Parent => {
            let mut d = Vec::new();
            d.push('.');
            d.push('.');
            let s = string_of(d.as_slice());
            assert(s@ =~= seq!['.', '.']);
            KeyComponent::Normal(s)
        },
        PathComp::Normal(s) => KeyComponent::Normal(string_of(s.as_slice())),
    }
}

/// A document key: the path relative to the config directory,
/// slash-separated, or the absolute path when no relative form exists.
pub fn document_key(dir: &str, path: &str) -> (r: String)
    ensures
        r@ == document_key_spec(dir@, path@),
{
    let d = path_comps(&chars_of(dir));
    let p = path_comps(&chars_of(path));
    let p2: Vec<char> = match relative_to(&d, &p) {
        Some(rel) => join(&rel),
        None => chars_of(path),
    };
    let cs = path_comps(&p2);
    let mut keys: Vec<KeyComponent> = Vec::new();
    let mut k: usize = 0;
    while k < cs.len()
        invariant
            k <= cs.len(),
            key_views(keys@) == comp_views(cs@).take(k as int).map_values(|c: Comp| key_of(c)),
        decreases cs.len() - k,
    {
        let ghost before = key_views(keys@);
        keys.push(key_component(&cs[k]));
        assert(key_views(keys@) =~= before.push(key_of(cs@[k as int]@)));
        assert(comp_views(cs@).take(k + 1).map_values(|c: Comp| key_of(c)) =~= comp_views(cs@).take(k as int).map_values(|c: Comp| key_of(c)).push(key_of(cs@[k as int]@)));
        k = k + 1;
    }
    assert(comp_views(cs@).take(k as int) == comp_views(cs@));
    let absolute = p2.len() > 0 && p2[0] == '/';
    join_key_components(keys, absolute)
}

} // verus!
