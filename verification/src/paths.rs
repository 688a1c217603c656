//! Paths as texts with `/` separators, with the meaning `std::path` gives them on Unix:
//! components, normalization, parent, file name, stem and extension, and ordering.
use vstd::prelude::*;
use crate::text::{
    char_views, chars_eq, chars_lt, chars_of, find_from, lemma_find_from, matches_at, split_from, lemma_seq_lt_irreflexive,
    lemma_seq_lt_total, lemma_seq_lt_trans, push_char, push_chars, seq_lt, split, split_chars,
};

verus! {

/// Whether the path starts at the root.
pub open spec fn is_rooted(s: Seq<char>) -> bool {
    s.len() > 0 && s[0] == '/'
}

/// A piece between separators that names nothing (`""` or `"."`).
pub open spec fn is_skip_part(p: Seq<char>) -> bool {
    p.len() == 0 || p == seq!['.']
}

/// The piece `".."`.
pub open spec fn is_parent_part(p: Seq<char>) -> bool {
    p == seq!['.', '.']
}

/// The names left after one more piece: `".."` drops the last name, `""` and `"."` change
/// nothing, anything else is appended.
pub open spec fn push_part(names: Seq<Seq<char>>, p: Seq<char>) -> Seq<Seq<char>> {
    if is_skip_part(p) {
        names
    } else if is_parent_part(p) {
        if names.len() > 0 {
            names.drop_last()
        } else {
            names
        }
    } else {
        names.push(p)
    }
}

pub open spec fn fold_parts(names: Seq<Seq<char>>, parts: Seq<Seq<char>>) -> Seq<Seq<char>>
    decreases parts.len(),
{
    if parts.len() == 0 {
        names
    } else {
        push_part(fold_parts(names, parts.drop_last()), parts.last())
    }
}

/// Names joined by `/`.
pub open spec fn join_names(names: Seq<Seq<char>>) -> Seq<char>
    decreases names.len(),
{
    if names.len() == 0 {
        seq![]
    } else if names.len() == 1 {
        names[0]
    } else {
        join_names(names.drop_last()) + seq!['/'] + names.last()
    }
}

pub open spec fn render_path(rooted: bool, names: Seq<Seq<char>>) -> Seq<char> {
    if rooted {
        seq!['/'] + join_names(names)
    } else {
        join_names(names)
    }
}

/// A path with `.` dropped and `..` applied to the name before it, as built by pushing the
/// path's components one by one onto an empty `PathBuf` (popping for `..`).
pub open spec fn normalize_path(s: Seq<char>) -> Seq<char> {
    render_path(is_rooted(s), fold_parts(seq![], split(s, '/')))
}

proof fn lemma_fold_parts_push(names: Seq<Seq<char>>, parts: Seq<Seq<char>>, p: Seq<char>)
    ensures
        fold_parts(names, parts.push(p)) == push_part(fold_parts(names, parts), p),
{
    assert(parts.push(p).drop_last() =~= parts);
}

/// Names joined by `/`.
pub fn join_names_exec(names: &Vec<Vec<char>>, rooted: bool) -> (r: String)
    ensures
        r@ == render_path(rooted, char_views(names@)),
{
    let mut r = String::new();
    if rooted {
        push_char(&mut r, '/');
    }
    let ghost prefix: Seq<char> = if rooted { seq!['/'] } else { seq![] };
    assert(r@ == prefix);
    let mut i: usize = 0;
    while i < names.len()
        invariant
            i <= names.len(),
            prefix == (if rooted { seq!['/'] } else { Seq::<char>::empty() }),
            r@ == prefix + join_names(char_views(names@).take(i as int)),
        decreases names.len() - i,
    {
        if i > 0 {
            push_char(&mut r, '/');
        }
        push_chars(&mut r, names[i].as_slice());
        proof {
            let v = char_views(names@);
            assert(v.take(i + 1).drop_last() =~= v.take(i as int));
            if i == 0 {
                assert(join_names(v.take(1)) == v.take(1)[0]);
            }
        }
        i += 1;
    }
    assert(char_views(names@).take(names.len() as int) =~= char_views(names@));
    r
}

/// Normalizes a path (see `normalize_path`).
pub fn normalize_path_chars(s: &[char]) -> (r: String)
    ensures
        r@ == normalize_path(s@),
{
    let parts = split_chars(s, '/');
    let mut names: Vec<Vec<char>> = Vec::new();
    let mut i: usize = 0;
    while i < parts.len()
        invariant
            i <= parts.len(),
            char_views(names@) == fold_parts(seq![], char_views(parts@).take(i as int)),
        decreases parts.len() - i,
    {
        let p = &parts[i];
        proof {
            assert(char_views(parts@).take(i + 1) =~= char_views(parts@).take(i as int).push(p@));
            lemma_fold_parts_push(seq![], char_views(parts@).take(i as int), p@);
        }
        let is_skip = p.len() == 0 || (p.len() == 1 && p[0] == '.');
        let is_parent = p.len() == 2 && p[0] == '.' && p[1] == '.';
        assert(is_skip == is_skip_part(p@)) by {
            if p.len() == 1 && p[0] == '.' {
                assert(p@ =~= seq!['.']);
            }
        }
        assert(is_parent == is_parent_part(p@)) by {
            if is_parent {
                assert(p@ =~= seq!['.', '.']);
            }
        }
        if is_skip {
        } else if is_parent {
            if names.len() > 0 {
                let ghost before = names@;
                names.pop();
                assert(char_views(names@) =~= char_views(before).drop_last());
            }
        } else {
            let ghost before = names@;
            names.push(p.clone());
            assert(char_views(names@) =~= char_views(before).push(p@));
        }
        i += 1;
    }
    assert(char_views(parts@).take(parts.len() as int) =~= char_views(parts@));
    let rooted = s.len() > 0 && s[0] == '/';
    join_names_exec(&names, rooted)
}

/// Normalizes a path (see `normalize_path`).
pub fn normalize_path_str(s: &str) -> (r: String)
    ensures
        r@ == normalize_path(s@),
{
    let c = chars_of(s);
    normalize_path_chars(&c)
}

} // verus!

verus! {

/// The span `(start, end)` of the last piece of `s[from..]` that names something (is neither
/// `""` nor `"."`): the path's last component.
pub open spec fn last_span_from(s: Seq<char>, from: int) -> Option<(int, int)>
    decreases s.len() + 1 - from,
{
    if from < 0 || from > s.len() {
        None
    } else {
        match find_from(s, seq!['/'], from) {
            Some(i) => if from <= i < s.len() {
                match last_span_from(s, i + 1) {
                    Some(sp) => Some(sp),
                    None => if !is_skip_part(s.subrange(from, i)) {
                        Some((from, i))
                    } else {
                        None
                    },
                }
            } else {
                None
            },
            None => if !is_skip_part(s.subrange(from, s.len() as int)) {
                Some((from, s.len() as int))
            } else {
                None
            },
        }
    }
}

/// The span of the path's last component.
pub open spec fn last_span(s: Seq<char>) -> Option<(int, int)> {
    last_span_from(s, 0)
}

proof fn lemma_last_span_from_bounds(s: Seq<char>, from: int)
    requires
        0 <= from,
    ensures
        match last_span_from(s, from) {
            Some((a, b)) => from <= a <= b <= s.len() && !is_skip_part(s.subrange(a, b)),
            None => true,
        },
    decreases s.len() + 1 - from,
{
    if from <= s.len() {
        lemma_find_from(s, seq!['/'], from);
        match find_from(s, seq!['/'], from) {
            Some(i) => {
                if from <= i < s.len() {
                    lemma_last_span_from_bounds(s, i + 1);
                }
            },
            None => {},
        }
    }
}

/// `Path::file_name`: the last component unless it is `..`.
pub open spec fn file_name(s: Seq<char>) -> Option<Seq<char>> {
    match last_span(s) {
        Some((a, b)) => if is_parent_part(s.subrange(a, b)) {
            None
        } else {
            Some(s.subrange(a, b))
        },
        None => None,
    }
}

/// The path up to its last component, with which `Path::parent` agrees once normalized;
/// empty where `Path::parent` gives nothing.
pub open spec fn parent_prefix(s: Seq<char>) -> Seq<char> {
    match last_span(s) {
        Some((a, b)) => s.take(a),
        None => seq![],
    }
}

/// The last `.` of a file name, where it splits off an extension (not at the start).
pub open spec fn last_dot_from(n: Seq<char>, i: int) -> Option<int>
    decreases i,
{
    if i <= 0 || i > n.len() {
        None
    } else if n[i - 1] == '.' && i - 1 > 0 {
        Some(i - 1)
    } else {
        last_dot_from(n, i - 1)
    }
}

pub open spec fn ext_dot(n: Seq<char>) -> Option<int> {
    last_dot_from(n, n.len() as int)
}

/// `Path::extension` of a file name.
pub open spec fn extension_of(n: Seq<char>) -> Option<Seq<char>> {
    match ext_dot(n) {
        Some(i) => Some(n.subrange(i + 1, n.len() as int)),
        None => None,
    }
}

/// `Path::file_stem` of a file name.
pub open spec fn stem_of(n: Seq<char>) -> Seq<char> {
    match ext_dot(n) {
        Some(i) => n.take(i),
        None => n,
    }
}

/// `Path::file_stem`.
pub open spec fn file_stem(s: Seq<char>) -> Option<Seq<char>> {
    match file_name(s) {
        Some(n) => Some(stem_of(n)),
        None => None,
    }
}

/// `Path::with_extension("")`: the path cut at the end of the stem of its file name.
pub open spec fn without_extension(s: Seq<char>) -> Seq<char> {
    match last_span(s) {
        Some((a, b)) => if is_parent_part(s.subrange(a, b)) {
            s
        } else {
            s.take(a + stem_of(s.subrange(a, b)).len())
        },
        None => s,
    }
}

/// The span of the path's last component.
pub fn last_span_exec(s: &[char]) -> (r: Option<(usize, usize)>)
    ensures
        match r {
            Some((a, b)) => a <= b <= s.len() && last_span(s@) == Some((a as int, b as int)),
            None => last_span(s@) is None,
        },
{
    let pat = ['/'];
    assert(pat@ == seq!['/']);
    let mut from: usize = 0;
    let mut best: Option<(usize, usize)> = None;
    loop
        invariant
            from <= s.len(),
            pat@ == seq!['/'],
            match last_span_from(s@, from as int) {
                Some(sp) => last_span(s@) == Some(sp),
                None => match best {
                    Some((a, b)) => last_span(s@) == Some((a as int, b as int)),
                    None => last_span(s@) is None,
                },
            },
            match best {
                Some((a, b)) => a <= b <= s.len(),
                None => true,
            },
        decreases s.len() - from,
    {
        proof {
            lemma_find_from(s@, seq!['/'], from as int);
            lemma_last_span_from_bounds(s@, from as int);
        }
        let found = find_chars_from_slash(s, &pat, from);
        let end = match found {
            Some(i) => i,
            None => s.len(),
        };
        let len = end - from;
        let skip = len == 0 || (len == 1 && s[from] == '.');
        assert(skip == is_skip_part(s@.subrange(from as int, end as int))) by {
            if len == 1 && s[from as int] == '.' {
                assert(s@.subrange(from as int, end as int) =~= seq!['.']);
            }
            if len == 1 && s@.subrange(from as int, end as int) == seq!['.'] {
                assert(s@.subrange(from as int, end as int)[0] == '.');
            }
        }
        if !skip {
            best = Some((from, end));
        }
        match found {
            Some(i) => {
                from = i + 1;
            },
            None => {
                return best;
            },
        }
    }
}

fn find_chars_from_slash(s: &[char], pat: &[char; 1], from: usize) -> (r: Option<usize>)
    requires
        pat@ == seq!['/'],
        from <= s.len(),
    ensures
        r == (match find_from(s@, seq!['/'], from as int) {
            Some(i) => Some(i as usize),
            None => None::<usize>,
        }),
        match r {
            Some(i) => from <= i < s.len(),
            None => true,
        },
{
    proof {
        lemma_find_from(s@, seq!['/'], from as int);
    }
    crate::text::find_chars_from(s, pat, from)
}

} // verus!

verus! {

fn is_parent_chars(p: &[char]) -> (r: bool)
    ensures
        r == is_parent_part(p@),
{
    let r = p.len() == 2 && p[0] == '.' && p[1] == '.';
    assert(r == is_parent_part(p@)) by {
        if r {
            assert(p@ =~= seq!['.', '.']);
        }
    }
    r
}

/// `Path::file_name`.
pub fn file_name_exec(s: &[char]) -> (r: Option<Vec<char>>)
    ensures
        match file_name(s@) {
            Some(n) => r is Some && r.unwrap()@ == n,
            None => r is None,
        },
{
    match last_span_exec(s) {
        Some((a, b)) => {
            let n = crate::text::sub_chars(s, a, b);
            if is_parent_chars(&n) {
                None
            } else {
                Some(n)
            }
        },
        None => None,
    }
}

/// The path up to its last component (see `parent_prefix`).
pub fn parent_prefix_exec(s: &[char]) -> (r: Vec<char>)
    ensures
        r@ == parent_prefix(s@),
{
    match last_span_exec(s) {
        Some((a, _b)) => {
            let r = crate::text::sub_chars(s, 0, a);
            assert(r@ =~= s@.take(a as int));
            r
        },
        None => Vec::new(),
    }
}

/// Where the extension of a file name starts (the index of its dot).
pub fn ext_dot_exec(n: &[char]) -> (r: Option<usize>)
    ensures
        match r {
            Some(i) => 0 < i < n.len() && ext_dot(n@) == Some(i as int),
            None => ext_dot(n@) is None,
        },
{
    let mut i: usize = n.len();
    while i > 0
        invariant
            i <= n.len(),
            ext_dot(n@) == last_dot_from(n@, i as int),
        decreases i,
    {
        if n[i - 1] == '.' && i - 1 > 0 {
            return Some(i - 1);
        }
        i -= 1;
    }
    None
}

/// `Path::file_stem`.
pub fn file_stem_exec(s: &[char]) -> (r: Option<Vec<char>>)
    ensures
        match file_stem(s@) {
            Some(n) => r is Some && r.unwrap()@ == n,
            None => r is None,
        },
{
    match file_name_exec(s) {
        Some(n) => match ext_dot_exec(&n) {
            Some(i) => {
                let st = crate::text::sub_chars(&n, 0, i);
                assert(st@ =~= n@.take(i as int));
                Some(st)
            },
            None => Some(n),
        },
        None => None,
    }
}

/// `Path::with_extension("")`.
pub fn without_extension_exec(s: &[char]) -> (r: Vec<char>)
    ensures
        r@ == without_extension(s@),
{
    match last_span_exec(s) {
        Some((a, b)) => {
            let n = crate::text::sub_chars(s, a, b);
            if is_parent_chars(&n) {
                crate::text::sub_chars(s, 0, s.len())
            } else {
                let end = match ext_dot_exec(&n) {
                    Some(i) => a + i,
                    None => b,
                };
                let r = crate::text::sub_chars(s, 0, end);
                assert(r@ =~= s@.take(a + stem_of(n@).len()));
                r
            }
        },
        None => {
            let r = crate::text::sub_chars(s, 0, s.len());
            assert(r@ =~= s@);
            r
        },
    }
}

} // verus!

verus! {

/// A component of a path, as `std::path::Component` gives them on Unix.
pub ghost enum Comp {
    Root,
    Cur,
    Parent,
    Normal(Seq<char>),
}

/// The components one piece between separators contributes.
pub open spec fn comp_of(p: Seq<char>, first_of_relative: bool) -> Seq<Comp> {
    if p.len() == 0 {
        seq![]
    } else if p == seq!['.'] {
        if first_of_relative {
            seq![Comp::Cur]
        } else {
            seq![]
        }
    } else if is_parent_part(p) {
        seq![Comp::Parent]
    } else {
        seq![Comp::Normal(p)]
    }
}

pub open spec fn comps_of(parts: Seq<Seq<char>>, rooted: bool) -> Seq<Comp>
    decreases parts.len(),
{
    if parts.len() == 0 {
        if rooted {
            seq![Comp::Root]
        } else {
            seq![]
        }
    } else {
        comps_of(parts.drop_last(), rooted) + comp_of(parts.last(), !rooted && parts.len() == 1)
    }
}

/// `Path::components`: the root, a leading `.`, `..` and names; other `.` and empty pieces
/// are dropped.
pub open spec fn components(s: Seq<char>) -> Seq<Comp> {
    comps_of(split(s, '/'), is_rooted(s))
}

/// The order of component kinds in `Component`'s derived `Ord`.
pub open spec fn comp_rank(c: Comp) -> int {
    match c {
        Comp::Root => 0,
        Comp::Cur => 1,
        Comp::Parent => 2,
        Comp::Normal(_) => 3,
    }
}

pub open spec fn comp_lt(a: Comp, b: Comp) -> bool {
    match (a, b) {
        (Comp::Normal(x), Comp::Normal(y)) => seq_lt(x, y),
        _ => comp_rank(a) < comp_rank(b),
    }
}

/// Lexicographic order on component sequences.
pub open spec fn comps_lt(a: Seq<Comp>, b: Seq<Comp>) -> bool
    decreases a.len(),
{
    if a.len() == 0 {
        b.len() > 0
    } else if b.len() == 0 {
        false
    } else if a[0] != b[0] {
        comp_lt(a[0], b[0])
    } else {
        comps_lt(a.drop_first(), b.drop_first())
    }
}

/// `Path`'s order: by components.
pub open spec fn path_lt(x: Seq<char>, y: Seq<char>) -> bool {
    comps_lt(components(x), components(y))
}

/// `Path`'s equality: same components.
pub open spec fn path_equiv(x: Seq<char>, y: Seq<char>) -> bool {
    components(x) == components(y)
}

proof fn lemma_comp_lt_props(a: Comp, b: Comp, c: Comp)
    ensures
        !comp_lt(a, a),
        comp_lt(a, b) && comp_lt(b, c) ==> comp_lt(a, c),
        comp_lt(a, b) || comp_lt(b, a) || a == b,
{
    if let Comp::Normal(x) = a {
        lemma_seq_lt_irreflexive(x);
        if let Comp::Normal(y) = b {
            lemma_seq_lt_total(x, y);
            if let Comp::Normal(z) = c {
                if seq_lt(x, y) && seq_lt(y, z) {
                    lemma_seq_lt_trans(x, y, z);
                }
            }
        }
    }
}

pub proof fn lemma_comps_lt_irreflexive(a: Seq<Comp>)
    ensures
        !comps_lt(a, a),
    decreases a.len(),
{
    if a.len() > 0 {
        lemma_comps_lt_irreflexive(a.drop_first());
    }
}

pub proof fn lemma_comps_lt_trans(a: Seq<Comp>, b: Seq<Comp>, c: Seq<Comp>)
    requires
        comps_lt(a, b),
        comps_lt(b, c),
    ensures
        comps_lt(a, c),
    decreases a.len(),
{
    if a.len() > 0 && b.len() > 0 && c.len() > 0 {
        lemma_comp_lt_props(a[0], b[0], c[0]);
        lemma_comp_lt_props(b[0], a[0], c[0]);
        lemma_comp_lt_props(a[0], c[0], b[0]);
        lemma_comp_lt_props(c[0], a[0], b[0]);
        if a[0] == b[0] && b[0] == c[0] {
            lemma_comps_lt_trans(a.drop_first(), b.drop_first(), c.drop_first());
        }
    }
}

pub proof fn lemma_comps_lt_total(a: Seq<Comp>, b: Seq<Comp>)
    ensures
        comps_lt(a, b) || comps_lt(b, a) || a == b,
    decreases a.len(),
{
    if a.len() > 0 && b.len() > 0 {
        lemma_comp_lt_props(a[0], b[0], b[0]);
        if a[0] == b[0] {
            lemma_comps_lt_total(a.drop_first(), b.drop_first());
            if a.drop_first() == b.drop_first() {
                assert(a =~= seq![a[0]] + a.drop_first());
                assert(b =~= seq![b[0]] + b.drop_first());
            }
        }
    } else if a.len() == 0 && b.len() == 0 {
        assert(a =~= b);
    }
}

/// A component of a path (see `Comp`).
pub enum PathComp {
    Root,
    Cur,
    Parent,
    Normal(Vec<char>),
}

impl View for PathComp {
    type V = Comp;

    open spec fn view(&self) -> Comp {
        match self {
            PathComp::Root => Comp::Root,
            PathComp::Cur => Comp::Cur,
            PathComp::Parent => Comp::Parent,
            PathComp::Normal(v) => Comp::Normal(v@),
        }
    }
}

pub open spec fn comp_views(v: Seq<PathComp>) -> Seq<Comp> {
    v.map_values(|c: PathComp| c@)
}

/// `Path::components`.
pub fn components_exec(s: &[char]) -> (r: Vec<PathComp>)
    ensures
        comp_views(r@) == components(s@),
{
    let parts = split_chars(s, '/');
    let rooted = s.len() > 0 && s[0] == '/';
    let mut r: Vec<PathComp> = Vec::new();
    if rooted {
        r.push(PathComp::Root);
    }
    assert(comp_views(r@) =~= comps_of(char_views(parts@).take(0), rooted));
    let mut i: usize = 0;
    while i < parts.len()
        invariant
            i <= parts.len(),
            rooted == is_rooted(s@),
            comp_views(r@) == comps_of(char_views(parts@).take(i as int), rooted),
        decreases parts.len() - i,
    {
        let p = &parts[i];
        let ghost before = r@;
        let ghost pv = char_views(parts@).take(i + 1);
        assert(pv.drop_last() =~= char_views(parts@).take(i as int));
        assert(pv.last() == p@);
        if p.len() == 0 {
        } else if p.len() == 1 && p[0] == '.' {
            assert(p@ =~= seq!['.']);
            if !rooted && i == 0 {
                r.push(PathComp::Cur);
            }
        } else if is_parent_chars(p) {
            assert(p@ != seq!['.']);
            r.push(PathComp::Parent);
        } else {
            assert(p@ != seq!['.']) by {
                if p@ == seq!['.'] {
                    assert(p@.len() == 1 && p@[0] == '.');
                }
            }
            r.push(PathComp::Normal(p.clone()));
        }
        assert(comp_views(r@) =~= comp_views(before) + comp_of(p@, !rooted && i + 1 == 1));
        i += 1;
    }
    assert(char_views(parts@).take(parts.len() as int) =~= char_views(parts@));
    r
}

fn comp_lt_exec(a: &PathComp, b: &PathComp) -> (r: bool)
    ensures
        r == comp_lt(a@, b@),
{
    match (a, b) {
        (PathComp::Normal(x), PathComp::Normal(y)) => chars_lt(x.as_slice(), y.as_slice()),
        _ => comp_rank_exec(a) < comp_rank_exec(b),
    }
}

fn comp_rank_exec(a: &PathComp) -> (r: u8)
    ensures
        r == comp_rank(a@),
{
    match a {
        PathComp::Root => 0,
        PathComp::Cur => 1,
        PathComp::Parent => 2,
        PathComp::Normal(_) => 3,
    }
}

fn comp_eq_exec(a: &PathComp, b: &PathComp) -> (r: bool)
    ensures
        r == (a@ == b@),
{
    match (a, b) {
        (PathComp::Root, PathComp::Root) => true,
        (PathComp::Cur, PathComp::Cur) => true,
        (PathComp::Parent, PathComp::Parent) => true,
        (PathComp::Normal(x), PathComp::Normal(y)) => chars_eq(x.as_slice(), y.as_slice()),
        _ => false,
    }
}

fn comps_lt_exec(a: &Vec<PathComp>, b: &Vec<PathComp>) -> (r: bool)
    ensures
        r == comps_lt(comp_views(a@), comp_views(b@)),
{
    let ghost av = comp_views(a@);
    let ghost bv = comp_views(b@);
    let mut i: usize = 0;
    assert(av.skip(0) =~= av);
    assert(bv.skip(0) =~= bv);
    while i < a.len() && i < b.len() && comp_eq_exec(&a[i], &b[i])
        invariant
            i <= a.len(),
            i <= b.len(),
            av == comp_views(a@),
            bv == comp_views(b@),
            comps_lt(av, bv) == comps_lt(av.skip(i as int), bv.skip(i as int)),
        decreases a.len() - i,
    {
        assert(av.skip(i as int).drop_first() =~= av.skip(i + 1));
        assert(bv.skip(i as int).drop_first() =~= bv.skip(i + 1));
        i += 1;
    }
    if i == a.len() {
        i < b.len()
    } else if i == b.len() {
        false
    } else {
        comp_lt_exec(&a[i], &b[i])
    }
}

/// `Path`'s order (see `path_lt`).
pub fn path_lt_exec(x: &str, y: &str) -> (r: bool)
    ensures
        r == path_lt(x@, y@),
{
    let xc = chars_of(x);
    let yc = chars_of(y);
    let a = components_exec(&xc);
    let b = components_exec(&yc);
    comps_lt_exec(&a, &b)
}

} // verus!

verus! {

/// `Path`'s order, with equal components as equal.
pub open spec fn path_le(x: Seq<char>, y: Seq<char>) -> bool {
    path_lt(x, y) || path_equiv(x, y)
}

pub proof fn lemma_path_order(x: Seq<char>, y: Seq<char>, z: Seq<char>)
    ensures
        !path_lt(x, x),
        path_lt(x, y) ==> !path_lt(y, x),
        path_lt(x, y) && path_lt(y, z) ==> path_lt(x, z),
        path_lt(x, y) || path_lt(y, x) || path_equiv(x, y),
        path_le(x, y) <==> !path_lt(y, x),
        path_le(x, y) && path_le(y, z) ==> path_le(x, z),
        path_le(x, y) || path_le(y, x),
{
    let (a, b, c) = (components(x), components(y), components(z));
    lemma_comps_lt_irreflexive(a);
    lemma_comps_lt_irreflexive(b);
    lemma_comps_lt_total(a, b);
    if comps_lt(a, b) && comps_lt(b, a) {
        lemma_comps_lt_trans(a, b, a);
    }
    if comps_lt(a, b) && comps_lt(b, c) {
        lemma_comps_lt_trans(a, b, c);
    }
}

/// Paths in `Path`'s order.
pub struct PathOrder;

impl crate::sort::Order<String> for PathOrder {
    open spec fn le(a: &String, b: &String) -> bool {
        path_le(a@, b@)
    }

    proof fn lemma_le_total(a: &String, b: &String) {
        lemma_path_order(a@, b@, b@);
    }

    proof fn lemma_le_trans(a: &String, b: &String, c: &String) {
        lemma_path_order(a@, b@, c@);
    }

    fn le_exec(a: &String, b: &String) -> (r: bool) {
        proof {
            lemma_path_order(a@, b@, b@);
        }
        !path_lt_exec(b.as_str(), a.as_str())
    }
}

/// Whether two paths have the same components.
pub fn path_equiv_exec(x: &str, y: &str) -> (r: bool)
    ensures
        r == path_equiv(x@, y@),
{
    proof {
        lemma_path_order(x@, y@, y@);
        lemma_path_order(y@, x@, x@);
    }
    !path_lt_exec(x, y) && !path_lt_exec(y, x)
}


/// A name of a normalized path: not empty, not `.` or `..`, without `/`.
pub open spec fn good_name(x: Seq<char>) -> bool {
    !is_skip_part(x) && !is_parent_part(x) && forall|k: int| 0 <= k < x.len() ==> x[k] != '/'
}

/// Every piece of a split lacks the separator.
proof fn lemma_split_pieces(s: Seq<char>, c: char, from: int)
    requires
        0 <= from,
    ensures
        forall|i: int, k: int|
            0 <= i < split_from(s, c, from).len() && 0 <= k < split_from(s, c, from)[i].len() ==> #[trigger] split_from(
                s,
                c,
                from,
            )[i][k] != c,
    decreases s.len() + 1 - from,
{
    if from <= s.len() {
        lemma_find_from(s, seq![c], from);
        match find_from(s, seq![c], from) {
            Some(i) => {
                if from <= i < s.len() {
                    lemma_split_pieces(s, c, i + 1);
                    let rest = split_from(s, c, i + 1);
                    let piece = s.subrange(from, i);
                    assert forall|k: int| 0 <= k < piece.len() implies piece[k] != c by {
                        assert(!matches_at(s, seq![c], from + k));
                        assert(s.subrange(from + k, from + k + 1)[0] == s[from + k]);
                        if s[from + k] == c {
                            assert(s.subrange(from + k, from + k + 1) =~= seq![c]);
                        }
                    }
                    let all = split_from(s, c, from);
                    assert(all == seq![piece] + rest);
                    assert forall|a: int, k: int| 0 <= a < all.len() && 0 <= k < all[a].len() implies #[trigger] all[a][k]
                        != c by {
                        if a > 0 {
                            assert(all[a] == rest[a - 1]);
                        }
                    }
                }
            },
            None => {
                let piece = s.subrange(from, s.len() as int);
                assert forall|k: int| 0 <= k < piece.len() implies piece[k] != c by {
                    if from + k + 1 <= s.len() {
                        assert(!matches_at(s, seq![c], from + k));
                        assert(s.subrange(from + k, from + k + 1)[0] == s[from + k]);
                        if s[from + k] == c {
                            assert(s.subrange(from + k, from + k + 1) =~= seq![c]);
                        }
                    }
                }
            },
        }
    }
}

/// Folding pieces without `/` onto good names gives good names.
proof fn lemma_fold_good(names: Seq<Seq<char>>, parts: Seq<Seq<char>>)
    requires
        forall|i: int| 0 <= i < names.len() ==> good_name(#[trigger] names[i]),
        forall|i: int, k: int| 0 <= i < parts.len() && 0 <= k < parts[i].len() ==> #[trigger] parts[i][k] != '/',
    ensures
        forall|i: int| 0 <= i < fold_parts(names, parts).len() ==> good_name(#[trigger] fold_parts(names, parts)[i]),
    decreases parts.len(),
{
    if parts.len() > 0 {
        let init = parts.drop_last();
        assert forall|i: int, k: int| 0 <= i < init.len() && 0 <= k < init[i].len() implies #[trigger] init[i][k]
            != '/' by {
            assert(init[i] == parts[i]);
        }
        lemma_fold_good(names, init);
        let f = fold_parts(names, init);
        let p = parts.last();
        assert(forall|k: int| 0 <= k < p.len() ==> p[k] != '/') by {
            assert forall|k: int| 0 <= k < p.len() implies p[k] != '/' by {
                assert(parts[parts.len() - 1][k] != '/');
            }
        }
        let r = fold_parts(names, parts);
        assert forall|i: int| 0 <= i < r.len() implies good_name(#[trigger] r[i]) by {
            if !is_skip_part(p) && !is_parent_part(p) {
                if i < f.len() {
                    assert(r[i] == f[i]);
                }
            } else if is_parent_part(p) && f.len() > 0 {
                assert(r[i] == f[i]);
            }
        }
    }
}

/// Splitting `a`, a separator and a piece without separators: the pieces of `a`, then that
/// piece.
proof fn lemma_split_append(a: Seq<char>, b: Seq<char>, c: char, from: int)
    requires
        0 <= from <= a.len(),
        forall|k: int| 0 <= k < b.len() ==> b[k] != c,
    ensures
        split_from(a + seq![c] + b, c, from) == split_from(a, c, from) + seq![b],
    decreases a.len() - from,
{
    let s = a + seq![c] + b;
    lemma_find_from(a, seq![c], from);
    match find_from(a, seq![c], from) {
        Some(i) => {
            assert(matches_at(a, seq![c], i));
            assert(a.subrange(i, i + 1)[0] == a[i]);
            assert(a[i] == c);
            assert forall|k: int| from <= k < i implies s[k] != c by {
                assert(!matches_at(a, seq![c], k));
                assert(a.subrange(k, k + 1)[0] == a[k]);
                if a[k] == c {
                    assert(a.subrange(k, k + 1) =~= seq![c]);
                }
                assert(s[k] == a[k]);
            }
            crate::text::lemma_find_char_at(s, c, from, i);
            assert(s.subrange(from, i) =~= a.subrange(from, i));
            lemma_split_append(a, b, c, i + 1);
            assert(split_from(a, c, from) == seq![a.subrange(from, i)] + split_from(a, c, i + 1));
            assert(split_from(s, c, from) == seq![s.subrange(from, i)] + split_from(s, c, i + 1));
        },
        None => {
            assert forall|k: int| from <= k < a.len() implies s[k] != c by {
                assert(!matches_at(a, seq![c], k));
                assert(a.subrange(k, k + 1)[0] == a[k]);
                if a[k] == c {
                    assert(a.subrange(k, k + 1) =~= seq![c]);
                }
                assert(s[k] == a[k]);
            }
            crate::text::lemma_find_char_at(s, c, from, a.len() as int);
            assert forall|k: int| a.len() + 1 <= k < s.len() implies s[k] != c by {
                assert(s[k] == b[k - a.len() - 1]);
            }
            crate::text::lemma_find_char_none(s, c, a.len() + 1int);
            assert(s.subrange(from, a.len() as int) =~= a.subrange(from, a.len() as int));
            assert(s.subrange(a.len() + 1int, s.len() as int) =~= b);
            assert(split_from(s, c, a.len() + 1int) == seq![b]);
        },
    }
}

/// A text without separators splits into itself.
proof fn lemma_split_single(p: Seq<char>, c: char)
    requires
        forall|k: int| 0 <= k < p.len() ==> p[k] != c,
    ensures
        split(p, c) == seq![p],
{
    crate::text::lemma_find_char_none(p, c, 0);
    assert(p.subrange(0, p.len() as int) =~= p);
}

/// Names without `/` joined by `/` split back into those names.
proof fn lemma_split_join(names: Seq<Seq<char>>)
    requires
        names.len() > 0,
        forall|i: int, k: int| 0 <= i < names.len() && 0 <= k < names[i].len() ==> #[trigger] names[i][k] != '/',
    ensures
        split(join_names(names), '/') == names,
    decreases names.len(),
{
    if names.len() == 1 {
        assert forall|k: int| 0 <= k < names[0].len() implies names[0][k] != '/' by {}
        lemma_split_single(names[0], '/');
        assert(seq![names[0]] =~= names);
    } else {
        let init = names.drop_last();
        let last = names.last();
        assert forall|i: int, k: int| 0 <= i < init.len() && 0 <= k < init[i].len() implies #[trigger] init[i][k]
            != '/' by {
            assert(init[i] == names[i]);
        }
        lemma_split_join(init);
        assert forall|k: int| 0 <= k < last.len() implies last[k] != '/' by {
            assert(names[names.len() - 1][k] != '/');
        }
        lemma_split_append(join_names(init), last, '/', 0);
        assert(init + seq![last] =~= names);
    }
}

/// Folding good names after pieces that name nothing appends the names.
proof fn lemma_fold_names(acc: Seq<Seq<char>>, pre: Seq<Seq<char>>, names: Seq<Seq<char>>)
    requires
        forall|i: int| 0 <= i < pre.len() ==> is_skip_part(#[trigger] pre[i]),
        forall|i: int| 0 <= i < names.len() ==> good_name(#[trigger] names[i]),
    ensures
        fold_parts(acc, pre + names) == acc + names,
    decreases pre.len() + names.len(),
{
    if names.len() > 0 {
        let init = names.drop_last();
        assert((pre + names).drop_last() =~= pre + init);
        assert(forall|i: int| 0 <= i < init.len() ==> good_name(#[trigger] init[i])) by {
            assert forall|i: int| 0 <= i < init.len() implies good_name(#[trigger] init[i]) by {
                assert(init[i] == names[i]);
            }
        }
        lemma_fold_names(acc, pre, init);
        assert(good_name(names[names.len() - 1]));
        assert((acc + init).push(names.last()) =~= acc + names);
    } else if pre.len() > 0 {
        let init = pre.drop_last();
        assert((pre + names).drop_last() =~= init + names);
        assert(forall|i: int| 0 <= i < init.len() ==> is_skip_part(#[trigger] init[i])) by {
            assert forall|i: int| 0 <= i < init.len() implies is_skip_part(#[trigger] init[i]) by {
                assert(init[i] == pre[i]);
            }
        }
        lemma_fold_names(acc, init, names);
        assert(is_skip_part(pre[pre.len() - 1]));
        assert(pre + names =~= pre);
        assert(init + names =~= init);
    } else {
        assert(pre + names =~= Seq::<Seq<char>>::empty());
        assert(acc + names =~= acc);
    }
}

/// The first character of names joined by `/` is that of the first name.
proof fn lemma_join_first(names: Seq<Seq<char>>)
    requires
        names.len() > 0,
        names[0].len() > 0,
    ensures
        join_names(names).len() > 0,
        join_names(names)[0] == names[0][0],
    decreases names.len(),
{
    if names.len() > 1 {
        let init = names.drop_last();
        assert(init[0] == names[0]);
        lemma_join_first(init);
    }
}

/// Normalizing a normalized path changes nothing.
pub proof fn lemma_normalize_idempotent(s: Seq<char>)
    ensures
        normalize_path(normalize_path(s)) == normalize_path(s),
{
    let parts = split(s, '/');
    lemma_split_pieces(s, '/', 0);
    let names = fold_parts(seq![], parts);
    lemma_fold_good(seq![], parts);
    let t = normalize_path(s);
    assert forall|i: int, k: int| 0 <= i < names.len() && 0 <= k < names[i].len() implies #[trigger] names[i][k] != '/' by {
        assert(good_name(names[i]));
    }
    if is_rooted(s) {
        if names.len() == 0 {
            assert(t =~= seq!['/']);
            assert(t =~= seq![] + seq!['/'] + seq![]);
            lemma_split_append(seq![], seq![], '/', 0);
            lemma_split_single(seq![], '/');
            assert(split(t, '/') =~= seq![seq![], seq![]]);
            let sp = split(t, '/');
            lemma_fold_names(seq![], sp, seq![]);
            assert(sp + seq![] =~= sp);
            assert(Seq::<Seq<char>>::empty() + Seq::<Seq<char>>::empty() =~= Seq::<Seq<char>>::empty());
        } else {
            let all = seq![Seq::<char>::empty()] + names;
            assert(forall|i: int, k: int| 0 <= i < all.len() && 0 <= k < all[i].len() ==> #[trigger] all[i][k] != '/') by {
                assert forall|i: int, k: int| 0 <= i < all.len() && 0 <= k < all[i].len() implies #[trigger] all[i][k]
                    != '/' by {
                    assert(all[i] == names[i - 1]);
                }
            }
            lemma_join_cons(names);
            lemma_split_join(all);
            assert(t == join_names(all));
            lemma_fold_names(seq![], seq![Seq::<char>::empty()], names);
            assert(seq![] + names =~= names);
        }
    } else {
        if names.len() == 0 {
            assert(t =~= Seq::<char>::empty());
            lemma_split_single(t, '/');
            let sp = seq![Seq::<char>::empty()];
            lemma_fold_names(seq![], sp, seq![]);
            assert(sp + seq![] =~= sp);
            assert(Seq::<Seq<char>>::empty() + Seq::<Seq<char>>::empty() =~= Seq::<Seq<char>>::empty());
        } else {
            assert(good_name(names[0]));
            lemma_join_first(names);
            lemma_split_join(names);
            lemma_fold_names(seq![], seq![], names);
            assert(seq![] + names =~= names);
            assert(Seq::<Seq<char>>::empty() + names =~= names);
        }
    }
}

/// A root separator before names joined by `/` is the empty name joined before them.
proof fn lemma_join_cons(names: Seq<Seq<char>>)
    requires
        names.len() > 0,
    ensures
        seq!['/'] + join_names(names) == join_names(seq![Seq::<char>::empty()] + names),
    decreases names.len(),
{
    let all = seq![Seq::<char>::empty()] + names;
    if names.len() == 1 {
        assert(all.drop_last() =~= seq![Seq::<char>::empty()]);
        assert(join_names(all.drop_last()) =~= Seq::<char>::empty());
        assert(all.last() == names[0]);
        assert(seq!['/'] + names[0] =~= Seq::<char>::empty() + seq!['/'] + names[0]);
    } else {
        let init = names.drop_last();
        lemma_join_cons(init);
        assert(all.drop_last() =~= seq![Seq::<char>::empty()] + init);
        assert(all.last() == names.last());
        assert(seq!['/'] + (join_names(init) + seq!['/'] + names.last()) =~= (seq!['/'] + join_names(init))
            + seq!['/'] + names.last());
    }
}


/// A name of a normalized path: not empty, not `.` or `..`, and without `/`.
pub open spec fn plain_name(n: Seq<char>) -> bool {
    !is_skip_part(n) && !is_parent_part(n) && !n.contains('/')
}

proof fn lemma_fold_plain(names: Seq<Seq<char>>, parts: Seq<Seq<char>>)
    requires
        forall|i: int| 0 <= i < names.len() ==> plain_name(#[trigger] names[i]),
        forall|i: int| 0 <= i < parts.len() ==> !(#[trigger] parts[i]).contains('/'),
    ensures
        forall|i: int| 0 <= i < fold_parts(names, parts).len() ==> plain_name(#[trigger] fold_parts(names, parts)[i]),
    decreases parts.len(),
{
    if parts.len() > 0 {
        let init = parts.drop_last();
        assert forall|i: int| 0 <= i < init.len() implies !(#[trigger] init[i]).contains('/') by {
            assert(init[i] == parts[i]);
        }
        lemma_fold_plain(names, init);
        let f = fold_parts(names, init);
        let p = parts.last();
        assert(!parts[parts.len() - 1].contains('/'));
        let g = push_part(f, p);
        assert forall|i: int| 0 <= i < g.len() implies plain_name(#[trigger] g[i]) by {
            if !is_skip_part(p) && is_parent_part(p) && f.len() > 0 {
                assert(g[i] == f[i]);
            } else if !is_skip_part(p) && !is_parent_part(p) && i == f.len() {
                assert(g[i] == p);
            } else {
                assert(g[i] == f[i]);
            }
        }
    }
}

/// A normalized path is its names joined by `/` (after a `/` where the path is rooted), and
/// no name is empty, `.` or `..`, or holds a `/`: normalizing leaves no `.` or `..` component.
pub proof fn lemma_normalized_names(s: Seq<char>)
    ensures
        normalize_path(s) == render_path(is_rooted(s), fold_parts(seq![], split(s, '/'))),
        forall|i: int|
            0 <= i < fold_parts(seq![], split(s, '/')).len() ==> plain_name(
                #[trigger] fold_parts(seq![], split(s, '/'))[i],
            ),
{
    crate::text::lemma_split_pieces_lack(s, '/', 0);
    lemma_fold_plain(seq![], split(s, '/'));
}

} // verus!
