//! Unix path handling on strings: components, file name, extension, joining, prefix
//! stripping and the component-wise order of paths.
//!
//! Paths are held as `String`s. Their meaning follows the standard library's `Path` on
//! Unix: a path is read as a sequence of components, where repeated separators and `.`
//! (except a leading one) are ignored.

use vstd::prelude::*;
use crate::text::{append_str, char_len, empty_string, push_char, to_owned_string};

verus! {

/// One component of a path.
pub enum Comp {
    RootDir,
    CurDir,
    ParentDir,
    Normal(Seq<char>),
}

/// One component of a path, as a value.
#[derive(Debug)]
pub enum PathComponent {
    RootDir,
    CurDir,
    ParentDir,
    Normal(String),
}

impl View for PathComponent {
    type V = Comp;

    open spec fn view(&self) -> Comp {
        match self {
            PathComponent::RootDir => Comp::RootDir,
            PathComponent::CurDir => Comp::CurDir,
            PathComponent::ParentDir => Comp::ParentDir,
            PathComponent::Normal(s) => Comp::Normal(s@),
        }
    }
}

/// A copy of `c`.
pub fn clone_component(c: &PathComponent) -> (r: PathComponent)
    ensures
        r@ == c@,
{
    match c {
        PathComponent::RootDir => PathComponent::RootDir,
        PathComponent::CurDir => PathComponent::CurDir,
        PathComponent::ParentDir => PathComponent::ParentDir,
        PathComponent::Normal(s) => PathComponent::Normal(s.clone()),
    }
}

/// The pieces of `s` between `/` separators (empty pieces included), left to right.
pub open spec fn split_pieces(s: Seq<char>) -> Seq<Seq<char>>
    decreases s.len(),
{
    if s.len() == 0 {
        seq![Seq::<char>::empty()]
    } else {
        let p = split_pieces(s.drop_last());
        if s.last() == '/' {
            p.push(Seq::<char>::empty())
        } else {
            p.update(p.len() - 1, p.last().push(s.last()))
        }
    }
}

/// Splitting on `/` always yields at least one piece.
pub proof fn lemma_split_pieces_nonempty(s: Seq<char>)
    ensures
        split_pieces(s).len() >= 1,
    decreases s.len(),
{
    if s.len() > 0 {
        lemma_split_pieces_nonempty(s.drop_last());
    }
}

/// The components contributed by the piece at position `idx`: empty pieces and `.` are
/// dropped, except a `.` at the very start of a relative path.
pub open spec fn piece_comps(p: Seq<char>, idx: int, rooted: bool) -> Seq<Comp> {
    if p.len() == 0 {
        Seq::empty()
    } else if p == seq!['.'] {
        if idx == 0 && !rooted {
            seq![Comp::CurDir]
        } else {
            Seq::empty()
        }
    } else if p == seq!['.', '.'] {
        seq![Comp::ParentDir]
    } else {
        seq![Comp::Normal(p)]
    }
}

/// Components of a list of pieces.
pub open spec fn pieces_comps(ps: Seq<Seq<char>>, rooted: bool) -> Seq<Comp>
    decreases ps.len(),
{
    if ps.len() == 0 {
        Seq::empty()
    } else {
        pieces_comps(ps.drop_last(), rooted) + piece_comps(ps.last(), ps.len() - 1, rooted)
    }
}

/// The path starts at the root.
pub open spec fn is_rooted(s: Seq<char>) -> bool {
    s.len() > 0 && s[0] == '/'
}

/// `Path::components` on Unix.
pub open spec fn components(s: Seq<char>) -> Seq<Comp> {
    (if is_rooted(s) { seq![Comp::RootDir] } else { Seq::empty() }) + pieces_comps(
        split_pieces(s),
        is_rooted(s),
    )
}

/// The pieces of `s` between separators.
fn pieces_of(s: &str) -> (r: Vec<String>)
    ensures
        r@.len() == split_pieces(s@).len(),
        forall|k: int| 0 <= k < r@.len() ==> #[trigger] r@[k]@ == split_pieces(s@)[k],
{
    let mut done: Vec<String> = Vec::new();
    let mut cur = empty_string();
    for ch in it: s.chars()
        invariant
            it.seq() == s@,
            split_pieces(s@.take(it.index())).len() == done@.len() + 1,
            forall|k: int| 0 <= k < done@.len() ==> #[trigger] done@[k]@ == split_pieces(s@.take(it.index()))[k],
            cur@ == split_pieces(s@.take(it.index())).last(),
    {
        let ghost pre = s@.take(it.index());
        proof {
            assert(s@.take(it.index() + 1).drop_last() =~= pre);
            lemma_split_pieces_nonempty(pre);
        }
        if ch == '/' {
            let finished = cur;
            done.push(finished);
            cur = empty_string();
        } else {
            push_char(&mut cur, ch);
        }
    }
    assert(s@.take(s@.len() as int) =~= s@);
    done.push(cur);
    done
}

/// `Path::components` on Unix.
pub fn path_components(s: &str) -> (r: Vec<PathComponent>)
    ensures
        r@.map_values(|c: PathComponent| c@) == components(s@),
{
    let pieces = pieces_of(s);
    let len = char_len(s);
    let rooted = len > 0 && s.get_char(0) == '/';
    assert(rooted == is_rooted(s@));
    let mut out: Vec<PathComponent> = Vec::new();
    if rooted {
        out.push(PathComponent::RootDir);
    }
    let ghost ps = split_pieces(s@);
    let ghost head: Seq<Comp> = if is_rooted(s@) { seq![Comp::RootDir] } else { Seq::empty() };
    assert(out@.map_values(|c: PathComponent| c@) =~= head + pieces_comps(ps.take(0), rooted));
    let mut k: usize = 0;
    while k < pieces.len()
        invariant
            k <= pieces@.len(),
            pieces@.len() == ps.len(),
            forall|j: int| 0 <= j < pieces@.len() ==> #[trigger] pieces@[j]@ == ps[j],
            rooted == is_rooted(s@),
            out@.map_values(|c: PathComponent| c@) == head + pieces_comps(ps.take(k as int), rooted),
        decreases pieces@.len() - k,
    {
        let p = &pieces[k];
        let ghost before = out@.map_values(|c: PathComponent| c@);
        assert(ps.take(k + 1).drop_last() =~= ps.take(k as int));
        assert(ps.take(k + 1).last() == ps[k as int]);
        let plen = char_len(p.as_str());
        if plen == 0 {
        } else if plen == 1 && p.as_str().get_char(0) == '.' {
            assert(p@ =~= seq!['.']);
            if k == 0 && !rooted {
                out.push(PathComponent::CurDir);
            }
        } else if plen == 2 && p.as_str().get_char(0) == '.' && p.as_str().get_char(1) == '.' {
            assert(p@ =~= seq!['.', '.']);
            out.push(PathComponent::ParentDir);
        } else {
            assert(p@ != seq!['.']);
            assert(p@ != seq!['.', '.']);
            out.push(PathComponent::Normal(p.clone()));
        }
        assert(out@.map_values(|c: PathComponent| c@) =~= before + piece_comps(ps[k as int], k as int, rooted));
        k = k + 1;
    }
    assert(ps.take(ps.len() as int) =~= ps);
    out
}

/// `Path::file_name`: the last component, when it is a normal one.
pub open spec fn file_name(s: Seq<char>) -> Option<Seq<char>> {
    let cs = components(s);
    if cs.len() > 0 && cs.last() is Normal {
        Some(cs.last()->Normal_0)
    } else {
        None
    }
}

/// Index of the last occurrence of `c` in `s`, if any.
pub open spec fn last_index_of(s: Seq<char>, c: char) -> Option<int> {
    if exists|i: int| 0 <= i < s.len() && s[i] == c {
        Some(choose|i: int| 0 <= i < s.len() && s[i] == c && forall|j: int| i < j < s.len() ==> s[j] != c)
    } else {
        None
    }
}

/// Extension of a file name: the text after its last `.`, unless there is no `.` or the
/// only place it could split is a leading `.` (as in `.bashrc`).
pub open spec fn name_extension(name: Seq<char>) -> Option<Seq<char>> {
    match last_index_of(name, '.') {
        None => None,
        Some(i) => if i == 0 { None } else { Some(name.skip(i + 1)) },
    }
}

/// `Path::extension`.
pub open spec fn extension(s: Seq<char>) -> Option<Seq<char>> {
    match file_name(s) {
        None => None,
        Some(n) => name_extension(n),
    }
}

/// `Path::file_name`.
pub fn path_file_name(s: &str) -> (r: Option<String>)
    ensures
        match file_name(s@) {
            None => r is None,
            Some(n) => r matches Some(m) && m@ == n,
        },
{
    let comps = path_components(s);
    let n = comps.len();
    proof {
        assert(comps@.map_values(|c: PathComponent| c@).len() == comps@.len());
    }
    if n == 0 {
        return None;
    }
    assert(comps@.map_values(|c: PathComponent| c@)[n - 1] == comps@[n - 1]@);
    match &comps[n - 1] {
        PathComponent::Normal(name) => Some(name.clone()),
        _ => None,
    }
}

/// Finds the last `c` in `s`.
pub fn rfind_char(s: &str, c: char) -> (r: Option<usize>)
    ensures
        r matches Some(i) ==> last_index_of(s@, c) == Some(i as int) && i < s@.len(),
        r is None ==> last_index_of(s@, c) is None,
{
    let len = char_len(s);
    let mut found: Option<usize> = None;
    let mut i: usize = 0;
    for ch in it: s.chars()
        invariant
            it.seq() == s@,
            len == s@.len(),
            i == it.index(),
            i <= len,
            match found {
                None => forall|j: int| 0 <= j < i ==> s@[j] != c,
                Some(f) => f < i && s@[f as int] == c && forall|j: int| f < j < i ==> s@[j] != c,
            },
    {
        assert(it.index() < it.seq().len());
        if ch == c {
            found = Some(i);
        }
        i = i + 1;
    }
    match found {
        None => None,
        Some(f) => {
            let ghost w = choose|k: int| 0 <= k < s@.len() && s@[k] == c && forall|j: int| k < j < s@.len() ==> s@[j] != c;
            proof {
                assert(0 <= f < s@.len() && s@[f as int] == c && forall|j: int| f < j < s@.len() ==> s@[j] != c);
                if w < f {
                    assert(s@[f as int] != c);
                } else if w > f {
                    assert(s@[w] != c);
                }
            }
            Some(f)
        },
    }
}

/// `Path::extension`.
pub fn path_extension(s: &str) -> (r: Option<String>)
    ensures
        match extension(s@) {
            None => r is None,
            Some(e) => r matches Some(x) && x@ == e,
        },
{
    let name = match path_file_name(s) {
        None => return None,
        Some(n) => n,
    };
    match rfind_char(name.as_str(), '.') {
        None => None,
        Some(i) => {
            if i == 0 {
                None
            } else {
                let len = char_len(name.as_str());
                let ext = name.as_str().substring_char(i + 1, len);
                assert(ext@ =~= name@.skip(i + 1));
                Some(to_owned_string(ext))
            }
        },
    }
}

/// `PathBuf::push` / `Path::join` on Unix: an absolute `rel` replaces `base`; otherwise a
/// `/` is inserted unless `base` is empty or already ends with one.
pub open spec fn join_path(base: Seq<char>, rel: Seq<char>) -> Seq<char> {
    if is_rooted(rel) {
        rel
    } else if base.len() == 0 || base.last() == '/' {
        base + rel
    } else {
        base + seq!['/'] + rel
    }
}

/// `Path::join`.
pub fn join(base: &str, rel: &str) -> (r: String)
    ensures
        r@ == join_path(base@, rel@),
{
    let rel_len = char_len(rel);
    if rel_len > 0 && rel.get_char(0) == '/' {
        return to_owned_string(rel);
    }
    let base_len = char_len(base);
    let mut out = to_owned_string(base);
    if !(base_len == 0 || base.get_char(base_len - 1) == '/') {
        push_char(&mut out, '/');
    }
    append_str(&mut out, rel);
    out
}

/// The components of `path` that follow `base`, when `base`'s components are a prefix of
/// `path`'s (`Path::strip_prefix`).
pub open spec fn strip_prefix(path: Seq<char>, base: Seq<char>) -> Option<Seq<Comp>> {
    let p = components(path);
    let b = components(base);
    if b.len() <= p.len() && p.take(b.len() as int) == b {
        Some(p.skip(b.len() as int))
    } else {
        None
    }
}

/// Component equality.
pub fn component_eq(a: &PathComponent, b: &PathComponent) -> (r: bool)
    ensures
        r == (a@ == b@),
{
    match (a, b) {
        (PathComponent::RootDir, PathComponent::RootDir) => true,
        (PathComponent::CurDir, PathComponent::CurDir) => true,
        (PathComponent::ParentDir, PathComponent::ParentDir) => true,
        (PathComponent::Normal(x), PathComponent::Normal(y)) => str_eq(x.as_str(), y.as_str()),
        _ => false,
    }
}

/// String equality.
pub fn str_eq(a: &str, b: &str) -> (r: bool)
    ensures
        r == (a@ == b@),
{
    let ca = chars_of(a);
    let cb = chars_of(b);
    if ca.len() != cb.len() {
        return false;
    }
    let mut i: usize = 0;
    while i < ca.len()
        invariant
            ca@ == a@,
            cb@ == b@,
            ca@.len() == cb@.len(),
            i <= ca@.len(),
            forall|j: int| 0 <= j < i ==> ca@[j] == cb@[j],
        decreases ca@.len() - i,
    {
        if ca[i] != cb[i] {
            return false;
        }
        i = i + 1;
    }
    assert(a@ =~= b@);
    true
}

/// The characters of `s`.
pub fn chars_of(s: &str) -> (r: Vec<char>)
    ensures
        r@ == s@,
{
    let mut out: Vec<char> = Vec::new();
    for ch in it: s.chars()
        invariant
            it.seq() == s@,
            out@ == s@.take(it.index()),
    {
        out.push(ch);
        assert(out@ =~= s@.take(it.index() + 1));
    }
    assert(s@.take(s@.len() as int) =~= s@);
    out
}

/// `Path::strip_prefix`, returning the remaining components.
pub fn strip_path_prefix(path: &str, base: &str) -> (r: Option<Vec<PathComponent>>)
    ensures
        match strip_prefix(path@, base@) {
            None => r is None,
            Some(rest) => r matches Some(v) && v@.map_values(|c: PathComponent| c@) == rest,
        },
{
    let p = path_components(path);
    let b = path_components(base);
    let ghost pv = p@.map_values(|c: PathComponent| c@);
    let ghost bv = b@.map_values(|c: PathComponent| c@);
    assert(pv.len() == p@.len() && bv.len() == b@.len());
    if b.len() > p.len() {
        return None;
    }
    let mut i: usize = 0;
    while i < b.len()
        invariant
            b@.len() <= p@.len(),
            i <= b@.len(),
            pv == p@.map_values(|c: PathComponent| c@),
            bv == b@.map_values(|c: PathComponent| c@),
            forall|j: int| 0 <= j < i ==> pv[j] == bv[j],
            pv.len() == p@.len() && bv.len() == b@.len(),
            pv == components(path@),
            bv == components(base@),
        decreases b@.len() - i,
    {
        assert(pv[i as int] == p@[i as int]@);
        assert(bv[i as int] == b@[i as int]@);
        if !component_eq(&p[i], &b[i]) {
            assert(pv.take(bv.len() as int)[i as int] != bv[i as int]);
            assert(pv.take(bv.len() as int) != bv);
            return None;
        }
        i = i + 1;
    }
    assert(pv.take(bv.len() as int) =~= bv);
    let mut rest: Vec<PathComponent> = Vec::new();
    let mut k: usize = b.len();
    while k < p.len()
        invariant
            b@.len() <= k <= p@.len(),
            pv == p@.map_values(|c: PathComponent| c@),
            rest@.map_values(|c: PathComponent| c@) == pv.subrange(b@.len() as int, k as int),
        decreases p@.len() - k,
    {
        let c = clone_component(&p[k]);
        assert(pv[k as int] == p@[k as int]@);
        let ghost before = rest@;
        rest.push(c);
        assert(rest@ == before.push(c));
        assert(rest@.map_values(|c: PathComponent| c@) =~= before.map_values(|c: PathComponent| c@).push(c@));
        assert(rest@.map_values(|c: PathComponent| c@) =~= pv.subrange(b@.len() as int, k + 1));
        k = k + 1;
    }
    assert(pv.subrange(b@.len() as int, p@.len() as int) =~= pv.skip(bv.len() as int));
    Some(rest)
}

/// Text of a component (`Component::as_os_str`).
pub open spec fn comp_text(c: Comp) -> Seq<char> {
    match c {
        Comp::RootDir => seq!['/'],
        Comp::CurDir => seq!['.'],
        Comp::ParentDir => seq!['.', '.'],
        Comp::Normal(s) => s,
    }
}

/// Text of a component.
pub fn component_text(c: &PathComponent) -> (r: String)
    ensures
        r@ == comp_text(c@),
{
    match c {
        PathComponent::RootDir => {
            let mut t = empty_string();
            push_char(&mut t, '/');
            t
        },
        PathComponent::CurDir => {
            let mut t = empty_string();
            push_char(&mut t, '.');
            t
        },
        PathComponent::ParentDir => {
            let mut t = empty_string();
            push_char(&mut t, '.');
            push_char(&mut t, '.');
            t
        },
        PathComponent::Normal(s) => s.clone(),
    }
}

/// Splitting a concatenation on `/`: the last piece of `a` and the first piece of `b`
/// merge; the other pieces are kept.
pub proof fn lemma_split_pieces_concat(a: Seq<char>, b: Seq<char>)
    ensures
        split_pieces(a + b) == split_pieces(a).drop_last() + seq![split_pieces(a).last() + split_pieces(b)[0]]
            + split_pieces(b).drop_first(),
    decreases b.len(),
{
    lemma_split_pieces_nonempty(a);
    lemma_split_pieces_nonempty(b);
    let sa = split_pieces(a);
    if b.len() == 0 {
        assert(a + b =~= a);
        assert(split_pieces(b) =~= seq![Seq::<char>::empty()]);
        assert(sa.last() + Seq::<char>::empty() =~= sa.last());
        assert(sa.drop_last() + seq![sa.last()] =~= sa);
        assert(split_pieces(b).drop_first() =~= Seq::<Seq<char>>::empty());
        assert(sa.drop_last() + seq![sa.last() + split_pieces(b)[0]] + split_pieces(b).drop_first() =~= sa);
    } else {
        let b1 = b.drop_last();
        let c = b.last();
        lemma_split_pieces_concat(a, b1);
        lemma_split_pieces_nonempty(b1);
        assert((a + b).drop_last() =~= a + b1);
        assert((a + b).last() == c);
        let s1 = split_pieces(b1);
        let ab1 = split_pieces(a + b1);
        if c == '/' {
            assert(split_pieces(b) == s1.push(Seq::<char>::empty()));
            assert(split_pieces(a + b) == ab1.push(Seq::<char>::empty()));
            assert(split_pieces(b)[0] == s1[0]);
            assert(split_pieces(b).drop_first() =~= s1.drop_first().push(Seq::<char>::empty()));
            assert(split_pieces(a + b) =~= sa.drop_last() + seq![sa.last() + split_pieces(b)[0]] + split_pieces(b).drop_first());
        } else {
            assert(split_pieces(b) == s1.update(s1.len() - 1, s1.last().push(c)));
            assert(split_pieces(a + b) == ab1.update(ab1.len() - 1, ab1.last().push(c)));
            if s1.len() == 1 {
                assert(split_pieces(b)[0] == s1[0].push(c));
                assert(split_pieces(b).drop_first() =~= Seq::<Seq<char>>::empty());
                assert(s1.drop_first() =~= Seq::<Seq<char>>::empty());
                assert((sa.last() + s1[0]).push(c) =~= sa.last() + s1[0].push(c));
                assert(split_pieces(a + b) =~= sa.drop_last() + seq![sa.last() + split_pieces(b)[0]] + split_pieces(b).drop_first());
            } else {
                assert(split_pieces(b)[0] == s1[0]);
                assert(split_pieces(b).drop_first() =~= s1.drop_first().update(s1.len() - 2, s1.last().push(c)));
                assert(split_pieces(a + b) =~= sa.drop_last() + seq![sa.last() + split_pieces(b)[0]] + split_pieces(b).drop_first());
            }
        }
    }
}

/// A piece other than `.` yields the same components wherever it stands.
proof fn lemma_piece_comps_position(p: Seq<char>, i: int, j: int, r1: bool, r2: bool)
    requires
        (i >= 1 && j >= 1) || p != seq!['.'],
    ensures
        piece_comps(p, i, r1) == piece_comps(p, j, r2),
{
}

/// Components of appended pieces: after at least one piece, later pieces never give `.`,
/// so a list whose first piece is not `.` contributes as it would on its own.
proof fn lemma_pieces_comps_concat(ps1: Seq<Seq<char>>, ps2: Seq<Seq<char>>, rooted: bool)
    requires
        ps1.len() >= 1,
        ps2.len() > 0 ==> ps2[0] != seq!['.'],
    ensures
        pieces_comps(ps1 + ps2, rooted) == pieces_comps(ps1, rooted) + pieces_comps(ps2, false),
    decreases ps2.len(),
{
    if ps2.len() == 0 {
        assert(ps1 + ps2 =~= ps1);
        assert(pieces_comps(ps1, rooted) + pieces_comps(ps2, false) =~= pieces_comps(ps1, rooted));
    } else {
        let q = ps2.drop_last();
        assert((ps1 + ps2).drop_last() =~= ps1 + q);
        assert((ps1 + ps2).last() == ps2.last());
        if q.len() > 0 {
            assert(q[0] == ps2[0]);
        }
        lemma_pieces_comps_concat(ps1, q, rooted);
        lemma_piece_comps_position(ps2.last(), ps1.len() + ps2.len() - 1, ps2.len() - 1, rooted, false);
        assert(pieces_comps(ps1 + ps2, rooted) =~= pieces_comps(ps1, rooted) + pieces_comps(ps2, false));
    }
}

/// The first piece of a relative path whose components are all normal is not `.`.
proof fn lemma_normal_first_piece(rel: Seq<char>)
    requires
        !is_rooted(rel),
        forall|i: int| 0 <= i < components(rel).len() ==> (#[trigger] components(rel)[i]) is Normal,
    ensures
        split_pieces(rel)[0] != seq!['.'],
{
    lemma_split_pieces_nonempty(rel);
    let ps = split_pieces(rel);
    if ps[0] == seq!['.'] {
        lemma_pieces_comps_first(ps, false);
        assert(components(rel) =~= pieces_comps(ps, false));
        assert(piece_comps(ps[0], 0, false) == seq![Comp::CurDir]);
        assert(pieces_comps(ps, false).take(1) == seq![Comp::CurDir]);
        assert(pieces_comps(ps, false)[0] == pieces_comps(ps, false).take(1)[0]);
        assert(components(rel)[0] == Comp::CurDir);
        assert(components(rel)[0] is Normal);
    }
}

/// The first components of a piece list are those of its first piece.
proof fn lemma_pieces_comps_first(ps: Seq<Seq<char>>, rooted: bool)
    requires
        ps.len() >= 1,
    ensures
        pieces_comps(ps, rooted).take(piece_comps(ps[0], 0, rooted).len() as int) == piece_comps(ps[0], 0, rooted),
        pieces_comps(ps, rooted).len() >= piece_comps(ps[0], 0, rooted).len(),
    decreases ps.len(),
{
    if ps.len() == 1 {
        assert(ps.drop_last() =~= Seq::<Seq<char>>::empty());
        assert(pieces_comps(ps.drop_last(), rooted) == Seq::<Comp>::empty());
        assert(ps.last() == ps[0]);
        assert(pieces_comps(ps, rooted) =~= piece_comps(ps[0], 0, rooted));
    } else {
        lemma_pieces_comps_first(ps.drop_last(), rooted);
        assert(ps.drop_last()[0] == ps[0]);
        let a = pieces_comps(ps.drop_last(), rooted);
        let k = piece_comps(ps[0], 0, rooted).len() as int;
        assert((a + piece_comps(ps.last(), ps.len() - 1, rooted)).take(k) =~= a.take(k));
    }
}

/// Joining a relative path made of normal components onto `base` appends its components:
/// `Path::join` followed by `Path::components`.
pub proof fn lemma_components_of_join(base: Seq<char>, rel: Seq<char>)
    requires
        !is_rooted(rel),
        forall|i: int| 0 <= i < components(rel).len() ==> (#[trigger] components(rel)[i]) is Normal,
    ensures
        components(join_path(base, rel)) == components(base) + components(rel),
{
    lemma_normal_first_piece(rel);
    lemma_split_pieces_nonempty(rel);
    lemma_split_pieces_nonempty(base);
    let sr = split_pieces(rel);
    assert(components(rel) =~= pieces_comps(sr, false));
    assert(sr[0] + Seq::<char>::empty() =~= sr[0]);
    assert(Seq::<char>::empty() + sr[0] =~= sr[0]);
    assert(seq![sr[0]] + sr.drop_first() =~= sr);
    if base.len() == 0 {
        assert(split_pieces(base) =~= seq![Seq::<char>::empty()]);
        let e = split_pieces(base);
        assert(e.drop_last() =~= Seq::<Seq<char>>::empty());
        assert(pieces_comps(e.drop_last(), false) == Seq::<Comp>::empty());
        assert(e.last() == Seq::<char>::empty());
        assert(piece_comps(e.last(), 0, false) == Seq::<Comp>::empty());
        assert(pieces_comps(e, false) =~= Seq::<Comp>::empty());
        assert(components(base) =~= Seq::<Comp>::empty());
        assert(components(base) + components(rel) =~= components(rel));
    } else if base.last() == '/' {
        let j = base + rel;
        let sb = split_pieces(base);
        assert(base.drop_last() + seq![base.last()] =~= base);
        assert(sb == split_pieces(base.drop_last()).push(Seq::<char>::empty()));
        lemma_split_pieces_nonempty(base.drop_last());
        let ps1 = sb.drop_last();
        assert(sb.last() == Seq::<char>::empty());
        lemma_split_pieces_concat(base, rel);
        assert(split_pieces(j) =~= ps1 + sr);
        lemma_pieces_comps_concat(ps1, sr, is_rooted(base));
        assert(sb =~= ps1 + seq![Seq::<char>::empty()]);
        assert(pieces_comps(sb, is_rooted(base)) =~= pieces_comps(ps1, is_rooted(base)));
        assert(j[0] == base[0]);
        assert(is_rooted(j) == is_rooted(base));
        assert(components(j) =~= components(base) + components(rel));
    } else {
        let a = base + seq!['/'];
        let j = a + rel;
        assert(join_path(base, rel) == j);
        let sb = split_pieces(base);
        assert(a.drop_last() =~= base);
        assert(split_pieces(a) == sb.push(Seq::<char>::empty()));
        lemma_split_pieces_concat(a, rel);
        assert(split_pieces(a).drop_last() =~= sb);
        assert(split_pieces(j) =~= sb + sr);
        lemma_pieces_comps_concat(sb, sr, is_rooted(base));
        assert(j[0] == base[0]);
        assert(is_rooted(j) == is_rooted(base));
        assert(components(j) =~= components(base) + components(rel));
    }
}

/// A component that a path can only hold after its first one: a `..`, or a normal name
/// that is not empty, holds no `/` and is neither `.` nor `..`.
pub open spec fn is_inner_comp(c: Comp) -> bool {
    match c {
        Comp::Normal(t) => t.len() > 0 && !t.contains('/') && t != seq!['.'] && t != seq!['.', '.'],
        Comp::ParentDir => true,
        _ => false,
    }
}

proof fn lemma_split_pieces_no_slash(s: Seq<char>)
    ensures
        forall|k: int| 0 <= k < split_pieces(s).len() ==> !(#[trigger] split_pieces(s)[k]).contains('/'),
    decreases s.len(),
{
    lemma_split_pieces_nonempty(s);
    if s.len() > 0 {
        let pre = split_pieces(s.drop_last());
        lemma_split_pieces_no_slash(s.drop_last());
        lemma_split_pieces_nonempty(s.drop_last());
        if s.last() != '/' {
            assert forall|k: int| 0 <= k < split_pieces(s).len() implies !(#[trigger] split_pieces(s)[k]).contains('/') by {
                if k == pre.len() - 1 {
                    let p = pre.last().push(s.last());
                    assert(split_pieces(s)[k] == p);
                    if p.contains('/') {
                        let m = choose|m: int| 0 <= m < p.len() && p[m] == '/';
                        if m < pre.last().len() {
                            assert(pre.last()[m] == '/');
                            assert(pre[pre.len() - 1].contains('/'));
                        }
                    }
                } else {
                    assert(split_pieces(s)[k] == pre[k]);
                }
            }
        } else {
            assert forall|k: int| 0 <= k < split_pieces(s).len() implies !(#[trigger] split_pieces(s)[k]).contains('/') by {
                if k < pre.len() {
                    assert(split_pieces(s)[k] == pre[k]);
                } else {
                    assert(split_pieces(s)[k] == Seq::<char>::empty());
                }
            }
        }
    }
}

proof fn lemma_pieces_comps_shape(ps: Seq<Seq<char>>, rooted: bool)
    requires
        forall|k: int| 0 <= k < ps.len() ==> !(#[trigger] ps[k]).contains('/'),
    ensures
        forall|i: int| 0 <= i < pieces_comps(ps, rooted).len() ==> is_inner_comp(#[trigger] pieces_comps(ps, rooted)[i])
            || (pieces_comps(ps, rooted)[i] is CurDir && i == 0 && !rooted),
    decreases ps.len(),
{
    if ps.len() > 0 {
        let q = ps.drop_last();
        assert forall|k: int| 0 <= k < q.len() implies !(#[trigger] q[k]).contains('/') by {
            assert(q[k] == ps[k]);
        }
        lemma_pieces_comps_shape(q, rooted);
        let a = pieces_comps(q, rooted);
        let p = ps.last();
        assert(!ps[ps.len() - 1].contains('/'));
        let b = piece_comps(p, ps.len() - 1, rooted);
        assert(pieces_comps(ps, rooted) == a + b);
        if q.len() == 0 {
            assert(a == Seq::<Comp>::empty());
        }
        assert forall|i: int| 0 <= i < (a + b).len() implies is_inner_comp(#[trigger] (a + b)[i])
            || ((a + b)[i] is CurDir && i == 0 && !rooted) by {
            if i < a.len() {
                assert((a + b)[i] == a[i]);
            } else {
                assert((a + b)[i] == b[i - a.len()]);
            }
        }
    }
}

/// Every component after the first is a `..` or a plain name.
pub proof fn lemma_inner_components(s: Seq<char>)
    ensures
        forall|i: int| 1 <= i < components(s).len() ==> is_inner_comp(#[trigger] components(s)[i]),
{
    lemma_split_pieces_no_slash(s);
    let r = is_rooted(s);
    lemma_pieces_comps_shape(split_pieces(s), r);
    let pc = pieces_comps(split_pieces(s), r);
    let head: Seq<Comp> = if r { seq![Comp::RootDir] } else { Seq::empty() };
    assert(components(s) == head + pc);
    assert forall|i: int| 1 <= i < components(s).len() implies is_inner_comp(#[trigger] components(s)[i]) by {
        if r {
            assert(components(s)[i] == pc[i - 1]);
        } else {
            assert(components(s)[i] == pc[i]);
        }
    }
}

/// A non-empty path has at least one component.
pub proof fn lemma_nonempty_path_has_components(s: Seq<char>)
    requires
        s.len() > 0,
    ensures
        components(s).len() >= 1,
{
    if !is_rooted(s) {
        let ps = split_pieces(s);
        lemma_split_pieces_nonempty(s);
        lemma_split_pieces_concat(seq![s[0]], s.drop_first());
        assert(seq![s[0]] + s.drop_first() =~= s);
        let s0 = seq![s[0]];
        assert(s0.drop_last() =~= Seq::<char>::empty());
        assert(split_pieces(s0.drop_last()) == seq![Seq::<char>::empty()]);
        assert(split_pieces(s0) == seq![Seq::<char>::empty()].update(0, Seq::<char>::empty().push(s[0])));
        assert(ps[0].len() >= 1);
        assert(ps[0] != Seq::<char>::empty());
        lemma_pieces_comps_first(ps, false);
        assert(piece_comps(ps[0], 0, false).len() >= 1);
    }
}

/// Text without `/` is a single piece.
pub proof fn lemma_split_plain_piece(l: Seq<char>)
    requires
        !l.contains('/'),
    ensures
        split_pieces(l) == seq![l],
    decreases l.len(),
{
    if l.len() > 0 {
        let p = l.drop_last();
        assert(!p.contains('/')) by {
            if p.contains('/') {
                let m = choose|m: int| 0 <= m < p.len() && p[m] == '/';
                assert(l[m] == '/');
            }
        }
        lemma_split_plain_piece(p);
        assert(l[l.len() - 1] != '/');
        assert(p.push(l.last()) =~= l);
        assert(seq![p].update(0, p.push(l.last())) =~= seq![l]);
    } else {
        assert(l =~= Seq::<char>::empty());
    }
}

/// Every normal component of a path is a plain name: not empty, without `/`, and neither
/// `.` nor `..`.
pub proof fn lemma_normal_components_plain(s: Seq<char>)
    ensures
        forall|i: int| 0 <= i < components(s).len() && (#[trigger] components(s)[i]) is Normal ==> is_inner_comp(components(s)[i]),
{
    lemma_split_pieces_no_slash(s);
    let r = is_rooted(s);
    lemma_pieces_comps_shape(split_pieces(s), r);
    let pc = pieces_comps(split_pieces(s), r);
    let head: Seq<Comp> = if r { seq![Comp::RootDir] } else { Seq::empty() };
    assert(components(s) == head + pc);
    assert forall|i: int| 0 <= i < components(s).len() && (#[trigger] components(s)[i]) is Normal implies is_inner_comp(components(s)[i]) by {
        if r {
            if i == 0 {
                assert(components(s)[0] == Comp::RootDir);
            } else {
                assert(components(s)[i] == pc[i - 1]);
            }
        } else {
            assert(components(s)[i] == pc[i]);
        }
    }
}

/// Components of pieces that are all plain names: those names, in order.
pub proof fn lemma_pieces_comps_plain(ps: Seq<Seq<char>>, rooted: bool)
    requires
        forall|k: int| 0 <= k < ps.len() ==> is_inner_comp(Comp::Normal(#[trigger] ps[k])),
    ensures
        pieces_comps(ps, rooted) == ps.map_values(|p: Seq<char>| Comp::Normal(p)),
    decreases ps.len(),
{
    if ps.len() > 0 {
        let q = ps.drop_last();
        assert forall|k: int| 0 <= k < q.len() implies is_inner_comp(Comp::Normal(#[trigger] q[k])) by {
            assert(q[k] == ps[k]);
        }
        lemma_pieces_comps_plain(q, rooted);
        assert(is_inner_comp(Comp::Normal(ps[ps.len() - 1])));
        assert(ps.map_values(|p: Seq<char>| Comp::Normal(p)) =~= q.map_values(|p: Seq<char>| Comp::Normal(p)).push(Comp::Normal(ps.last())));
    } else {
        assert(ps.map_values(|p: Seq<char>| Comp::Normal(p)) =~= Seq::<Comp>::empty());
    }
}

} // verus!
