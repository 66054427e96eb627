//! A model of Unix paths as the standard library reads them: a path is text,
//! its meaning is the sequence of its components.  Equality, `starts_with`,
//! ordering, `join` and `parent` are defined over that sequence exactly as
//! `std::path::Path` defines them on Unix.
use vstd::prelude::*;
use crate::text::{Order, chars_of, string_of, char_seq_order, lemma_char_seq_order_antisym, lemma_char_seq_order_trans, compare_chars, chars_eq, extend_chars};

verus! {

/// One component of a path.
pub enum Comp {
    RootDir,
    CurDir,
    ParentDir,
    Normal(Seq<char>),
}

/// Executable form of a path component.
#[derive(Debug)]
pub enum PathComponent {
    RootDir,
    CurDir,
    ParentDir,
    Normal(Vec<char>),
}

impl View for PathComponent {
    type V = Comp;

    open spec fn view(&self) -> Comp {
        match self {
            PathComponent::RootDir => Comp::RootDir,
            PathComponent::CurDir => Comp::CurDir,
            PathComponent::ParentDir => Comp::ParentDir,
            PathComponent::Normal(v) => Comp::Normal(v@),
        }
    }
}

/// The views of a vector of components.
pub open spec fn comps_view(v: Seq<PathComponent>) -> Seq<Comp> {
    v.map_values(|c: PathComponent| c@)
}

/// The text between separators, from left to right; always at least one part.
pub open spec fn split_parts(s: Seq<char>) -> Seq<Seq<char>>
    decreases s.len(),
{
    if s.len() == 0 {
        seq![Seq::empty()]
    } else if s.last() == '/' {
        split_parts(s.drop_last()).push(Seq::empty())
    } else {
        let p = split_parts(s.drop_last());
        p.update(p.len() - 1, p.last().push(s.last()))
    }
}

/// Splitting always gives at least one part.
pub proof fn lemma_split_parts_nonempty(s: Seq<char>)
    ensures
        split_parts(s).len() >= 1,
    decreases s.len(),
{
    if s.len() > 0 {
        lemma_split_parts_nonempty(s.drop_last());
    }
}

/// The component a part between separators stands for; empty parts and `.`
/// stand for none.
pub open spec fn part_component(p: Seq<char>) -> Option<Comp> {
    if p.len() == 0 || p == seq!['.'] {
        None
    } else if p == seq!['.', '.'] {
        Some(Comp::ParentDir)
    } else {
        Some(Comp::Normal(p))
    }
}

/// The components that a sequence of parts stands for.
pub open spec fn body_components(parts: Seq<Seq<char>>) -> Seq<Comp>
    decreases parts.len(),
{
    if parts.len() == 0 {
        Seq::empty()
    } else {
        let rest = body_components(parts.drop_last());
        match part_component(parts.last()) {
            Some(c) => rest.push(c),
            None => rest,
        }
    }
}

/// The path starts at the root.
pub open spec fn has_root(s: Seq<char>) -> bool {
    s.len() > 0 && s[0] == '/'
}

/// The path is `.` or starts with `./`: it then begins with a `CurDir` component.
pub open spec fn has_cur_dir(s: Seq<char>) -> bool {
    !has_root(s) && s.len() > 0 && s[0] == '.' && (s.len() == 1 || s[1] == '/')
}

/// The components of a path.
pub open spec fn components(s: Seq<char>) -> Seq<Comp> {
    let root: Seq<Comp> = if has_root(s) { seq![Comp::RootDir] } else { Seq::empty() };
    let cur: Seq<Comp> = if has_cur_dir(s) { seq![Comp::CurDir] } else { Seq::empty() };
    root + cur + body_components(split_parts(s))
}

/// `Path::starts_with`: the components of `base` are a prefix of those of `p`.
pub open spec fn path_starts_with(p: Seq<char>, base: Seq<char>) -> bool {
    components(base).is_prefix_of(components(p))
}

/// Two texts name the same path.
pub open spec fn path_equal(a: Seq<char>, b: Seq<char>) -> bool {
    components(a) == components(b)
}

/// Rank of a component kind in the standard library's component order.
pub open spec fn comp_rank(c: Comp) -> int {
    match c {
        Comp::RootDir => 0,
        Comp::CurDir => 1,
        Comp::ParentDir => 2,
        Comp::Normal(_) => 3,
    }
}

/// Order of two components: by kind, then normal components by their text.
pub open spec fn comp_order(x: Comp, y: Comp) -> int {
    if comp_rank(x) < comp_rank(y) {
        -1
    } else if comp_rank(x) > comp_rank(y) {
        1
    } else {
        match (x, y) {
            (Comp::Normal(a), Comp::Normal(b)) => char_seq_order(a, b),
            _ => 0,
        }
    }
}

/// Lexicographic order of component sequences.
pub open spec fn comps_order(a: Seq<Comp>, b: Seq<Comp>) -> int
    decreases a.len(),
{
    if a.len() == 0 {
        if b.len() == 0 {
            0
        } else {
            -1
        }
    } else if b.len() == 0 {
        1
    } else if comp_order(a[0], b[0]) != 0 {
        comp_order(a[0], b[0])
    } else {
        comps_order(a.drop_first(), b.drop_first())
    }
}

/// The order of `Path`'s `Ord`: component-wise.
pub open spec fn path_order(a: Seq<char>, b: Seq<char>) -> int {
    comps_order(components(a), components(b))
}

/// The order of components is antisymmetric and zero exactly on equal components.
pub proof fn lemma_comp_order_props(x: Comp, y: Comp)
    ensures
        comp_order(x, y) == -comp_order(y, x),
        (comp_order(x, y) == 0) == (x == y),
        -1 <= comp_order(x, y) <= 1,
{
    match (x, y) {
        (Comp::Normal(a), Comp::Normal(b)) => {
            lemma_char_seq_order_antisym(a, b);
        },
        _ => {},
    }
}

/// The order of components is transitive.
pub proof fn lemma_comp_order_trans(x: Comp, y: Comp, z: Comp)
    requires
        comp_order(x, y) <= 0,
        comp_order(y, z) <= 0,
    ensures
        comp_order(x, z) <= 0,
        comp_order(x, y) < 0 || comp_order(y, z) < 0 ==> comp_order(x, z) < 0,
{
    match (x, y, z) {
        (Comp::Normal(a), Comp::Normal(b), Comp::Normal(c)) => {
            lemma_char_seq_order_trans(a, b, c);
        },
        _ => {},
    }
}

/// `comps_order` is a total order.
pub proof fn lemma_comps_order_antisym(a: Seq<Comp>, b: Seq<Comp>)
    ensures
        comps_order(a, b) == -comps_order(b, a),
        (comps_order(a, b) == 0) == (a == b),
        -1 <= comps_order(a, b) <= 1,
    decreases a.len(),
{
    if a.len() > 0 && b.len() > 0 {
        lemma_comp_order_props(a[0], b[0]);
        lemma_comps_order_antisym(a.drop_first(), b.drop_first());
        if a[0] == b[0] && a.drop_first() == b.drop_first() {
            assert(a == seq![a[0]] + a.drop_first());
            assert(b == seq![b[0]] + b.drop_first());
        }
        if a == b {
            assert(a.drop_first() == b.drop_first());
        }
    } else if a.len() == 0 && b.len() > 0 {
        assert(a != b);
    } else if b.len() == 0 && a.len() > 0 {
        assert(a != b);
    } else {
        assert(a == b);
    }
}

/// The order of component sequences is transitive.
pub proof fn lemma_comps_order_trans(a: Seq<Comp>, b: Seq<Comp>, c: Seq<Comp>)
    requires
        comps_order(a, b) <= 0,
        comps_order(b, c) <= 0,
    ensures
        comps_order(a, c) <= 0,
        comps_order(a, b) < 0 || comps_order(b, c) < 0 ==> comps_order(a, c) < 0,
    decreases a.len(),
{
    if a.len() > 0 && b.len() > 0 && c.len() > 0 {
        lemma_comp_order_props(a[0], b[0]);
        lemma_comp_order_props(b[0], c[0]);
        lemma_comp_order_props(a[0], c[0]);
        if comp_order(a[0], b[0]) <= 0 && comp_order(b[0], c[0]) <= 0 {
            lemma_comp_order_trans(a[0], b[0], c[0]);
        }
        if comp_order(a[0], b[0]) == 0 && comp_order(b[0], c[0]) == 0 {
            lemma_comps_order_trans(a.drop_first(), b.drop_first(), c.drop_first());
        }
    }
}

/// A proper prefix comes first; a prefix never comes after.
pub proof fn lemma_comps_prefix_order(a: Seq<Comp>, b: Seq<Comp>)
    requires
        a.is_prefix_of(b),
    ensures
        comps_order(a, b) <= 0,
        a.len() < b.len() ==> comps_order(a, b) < 0,
    decreases a.len(),
{
    if a.len() > 0 {
        lemma_comp_order_props(a[0], b[0]);
        assert(a.drop_first().is_prefix_of(b.drop_first()));
        lemma_comps_prefix_order(a.drop_first(), b.drop_first());
    }
}

/// The component that a part stands for.
fn component_of_part(p: &Vec<char>) -> (r: Option<PathComponent>)
    ensures
        match r {
            Some(c) => part_component(p@) == Some(c@),
            None => part_component(p@) is None,
        },
{
    let n = p.len();
    if n == 0 {
        None
    } else if n == 1 && p[0] == '.' {
        assert(p@ == seq!['.']);
        None
    } else if n == 2 && p[0] == '.' && p[1] == '.' {
        assert(p@ == seq!['.', '.']);
        Some(PathComponent::ParentDir)
    } else {
        assert(p@ != seq!['.']);
        assert(p@ != seq!['.', '.']);
        Some(PathComponent::Normal(p.clone()))
    }
}

/// The components of a path, as `Path::components` yields them.
pub fn path_components(s: &str) -> (r: Vec<PathComponent>)
    ensures
        comps_view(r@) == components(s@),
{
    let cs = chars_of(s);
    let mut body: Vec<PathComponent> = Vec::new();
    let mut cur: Vec<char> = Vec::new();
    let mut i: usize = 0;
    proof {
        assert(cs@.take(0) == Seq::<char>::empty());
    }
    while i < cs.len()
        invariant
            i <= cs.len(),
            cs@ == s@,
            split_parts(cs@.take(i as int)).last() == cur@,
            comps_view(body@) == body_components(split_parts(cs@.take(i as int)).drop_last()),
        decreases cs.len() - i,
    {
        let c = cs[i];
        let ghost pre = cs@.take(i as int);
        proof {
            lemma_split_parts_nonempty(pre);
            assert(cs@.take(i + 1) == pre.push(c));
            assert(cs@.take(i + 1).drop_last() == pre);
        }
        if c == '/' {
            let ghost sp = split_parts(pre);
            proof {
                assert(sp.drop_last().push(sp.last()) == sp);
            }
            match component_of_part(&cur) {
                Some(comp) => {
                    body.push(comp);
                },
                None => {},
            }
            proof {
                assert(comps_view(body@) == body_components(sp));
                assert(split_parts(cs@.take(i + 1)) == sp.push(Seq::<char>::empty()));
                assert(split_parts(cs@.take(i + 1)).drop_last() == sp);
            }
            cur = Vec::new();
        } else {
            cur.push(c);
            proof {
                let sp = split_parts(pre);
                let sp2 = split_parts(cs@.take(i + 1));
                assert(sp2 == sp.update(sp.len() - 1, sp.last().push(c)));
                assert(sp2.drop_last() == sp.drop_last());
            }
        }
        i = i + 1;
    }
    proof {
        assert(cs@.take(cs.len() as int) == cs@);
    }
    let ghost sp = split_parts(cs@);
    proof {
        lemma_split_parts_nonempty(cs@);
        assert(sp.drop_last().push(sp.last()) == sp);
    }
    match component_of_part(&cur) {
        Some(comp) => {
            body.push(comp);
        },
        None => {},
    }
    assert(comps_view(body@) == body_components(sp));
    let mut r: Vec<PathComponent> = Vec::new();
    let n = cs.len();
    if n > 0 && cs[0] == '/' {
        r.push(PathComponent::RootDir);
    } else if n > 0 && cs[0] == '.' && (n == 1 || cs[1] == '/') {
        r.push(PathComponent::CurDir);
    }
    let ghost head = comps_view(r@);
    let mut j: usize = 0;
    while j < body.len()
        invariant
            j <= body.len(),
            comps_view(r@) == head + comps_view(body@).take(j as int),
        decreases body.len() - j,
    {
        let ghost old_r = r@;
        let c = clone_component(&body[j]);
        r.push(c);
        proof {
            assert(r@ == old_r.push(c));
            assert(comps_view(r@) =~= comps_view(old_r).push(c@));
            assert(comps_view(body@).take(j + 1) =~= comps_view(body@).take(j as int).push(comps_view(body@)[j as int]));
        }
        j = j + 1;
        assert(comps_view(r@) =~= head + comps_view(body@).take(j as int));
    }
    assert(comps_view(body@).take(body.len() as int) == comps_view(body@));
    r
}

/// A copy of a component.
pub fn clone_component(c: &PathComponent) -> (r: PathComponent)
    ensures
        r@ == c@,
{
    match c {
        PathComponent::RootDir => PathComponent::RootDir,
        PathComponent::CurDir => PathComponent::CurDir,
        PathComponent::ParentDir => PathComponent::ParentDir,
        PathComponent::Normal(v) => PathComponent::Normal(v.clone()),
    }
}

/// Whether two components are equal.
fn component_eq(x: &PathComponent, y: &PathComponent) -> (r: bool)
    ensures
        r == (x@ == y@),
{
    match (x, y) {
        (PathComponent::RootDir, PathComponent::RootDir) => true,
        (PathComponent::CurDir, PathComponent::CurDir) => true,
        (PathComponent::ParentDir, PathComponent::ParentDir) => true,
        (PathComponent::Normal(a), PathComponent::Normal(b)) => chars_eq(a, b),
        _ => false,
    }
}

/// Compares two components in the standard library's order.
fn compare_component(x: &PathComponent, y: &PathComponent) -> (r: Order)
    ensures
        r.as_int() == comp_order(x@, y@),
{
    match (x, y) {
        (PathComponent::Normal(a), PathComponent::Normal(b)) => compare_chars(a, b),
        _ => {
            let rx: u8 = match x {
                PathComponent::RootDir => 0,
                PathComponent::CurDir => 1,
                PathComponent::ParentDir => 2,
                PathComponent::Normal(_) => 3,
            };
            let ry: u8 = match y {
                PathComponent::RootDir => 0,
                PathComponent::CurDir => 1,
                PathComponent::ParentDir => 2,
                PathComponent::Normal(_) => 3,
            };
            if rx < ry {
                Order::Less
            } else if rx > ry {
                Order::Greater
            } else {
                Order::Equal
            }
        },
    }
}

/// `Path::starts_with`.
pub fn starts_with(p: &str, base: &str) -> (r: bool)
    ensures
        r == path_starts_with(p@, base@),
{
    let a = path_components(p);
    let b = path_components(base);
    if b.len() > a.len() {
        return false;
    }
    let mut i: usize = 0;
    while i < b.len()
        invariant
            b.len() <= a.len(),
            i <= b.len(),
            comps_view(a@) == components(p@),
            comps_view(b@) == components(base@),
            forall|k: int| 0 <= k < i ==> comps_view(a@)[k] == comps_view(b@)[k],
        decreases b.len() - i,
    {
        if !component_eq(&a[i], &b[i]) {
            proof {
                let av = comps_view(a@);
                let bv = comps_view(b@);
                assert(av[i as int] != bv[i as int]);
                if bv.is_prefix_of(av) {
                    assert(bv[i as int] == av.subrange(0, bv.len() as int)[i as int]);
                }
            }
            return false;
        }
        i = i + 1;
    }
    assert(comps_view(a@).take(b.len() as int) == comps_view(b@));
    true
}

/// Compares two paths component-wise (the order of `Path`'s `Ord`).
pub fn compare_paths(p: &str, q: &str) -> (r: Order)
    ensures
        r.as_int() == path_order(p@, q@),
{
    let a = path_components(p);
    let b = path_components(q);
    let ghost av = comps_view(a@);
    let ghost bv = comps_view(b@);
    let mut i: usize = 0;
    assert(av.skip(0) == av);
    assert(bv.skip(0) == bv);
    while i < a.len() && i < b.len()
        invariant
            i <= a.len(),
            i <= b.len(),
            av == comps_view(a@),
            bv == comps_view(b@),
            av == components(p@),
            bv == components(q@),
            comps_order(av, bv) == comps_order(av.skip(i as int), bv.skip(i as int)),
        decreases a.len() - i,
    {
        let o = compare_component(&a[i], &b[i]);
        assert(av.skip(i as int)[0] == av[i as int]);
        assert(bv.skip(i as int)[0] == bv[i as int]);
        match o {
            Order::Equal => {},
            _ => {
                proof {
                    let x = av.skip(i as int);
                    let y = bv.skip(i as int);
                    assert(x.len() > 0 && y.len() > 0);
                    assert(comp_order(x[0], y[0]) != 0);
                    assert(comps_order(x, y) == comp_order(x[0], y[0]));
                }
                return o;
            },
        }
        assert(av.skip(i as int).drop_first() == av.skip(i + 1));
        assert(bv.skip(i as int).drop_first() == bv.skip(i + 1));
        i = i + 1;
    }
    if i < b.len() {
        Order::Less
    } else if i < a.len() {
        Order::Greater
    } else {
        Order::Equal
    }
}

/// Whether two texts name the same path (`PathBuf`'s `==`).
pub fn paths_equal(p: &str, q: &str) -> (r: bool)
    ensures
        r == path_equal(p@, q@),
{
    let o = compare_paths(p, q);
    proof {
        lemma_comps_order_antisym(components(p@), components(q@));
    }
    match o {
        Order::Equal => true,
        _ => false,
    }
}

/// Whether a path is absolute (on Unix: it starts at the root).
pub fn is_absolute(p: &str) -> (r: bool)
    ensures
        r == has_root(p@),
{
    let cs = chars_of(p);
    cs.len() > 0 && cs[0] == '/'
}

/// `PathBuf::push` on Unix: an absolute `rel` replaces `base`; otherwise a
/// separator is added when `base` is non-empty and does not end with one.
pub open spec fn join_spec(base: Seq<char>, rel: Seq<char>) -> Seq<char> {
    if has_root(rel) {
        rel
    } else if base.len() > 0 && base.last() != '/' {
        base + seq!['/'] + rel
    } else {
        base + rel
    }
}

/// `Path::join` on Unix.
pub fn join(base: &str, rel: &str) -> (r: String)
    ensures
        r@ == join_spec(base@, rel@),
{
    let b = chars_of(base);
    let x = chars_of(rel);
    if x.len() > 0 && x[0] == '/' {
        return string_of(&x);
    }
    let mut v = b.clone();
    if b.len() > 0 && b[b.len() - 1] != '/' {
        v.push('/');
    }
    extend_chars(&mut v, &x);
    string_of(&v)
}

/// Number of leading characters that precede the path's body (the root
/// separator, or the leading `.` of a `CurDir`).
pub open spec fn body_start(s: Seq<char>) -> int {
    if has_root(s) || has_cur_dir(s) {
        1
    } else {
        0
    }
}

/// Removes trailing separators and trailing `.` parts from the body of a path,
/// never touching its first `lo` characters.
pub open spec fn trim_back(s: Seq<char>, lo: int) -> Seq<char>
    decreases s.len(),
{
    if s.len() <= lo || s.len() == 0 {
        s
    } else if s.last() == '/' {
        trim_back(s.drop_last(), lo)
    } else if s.last() == '.' && (s.len() - 1 == lo || s[s.len() - 2] == '/') {
        trim_back(s.drop_last(), lo)
    } else {
        s
    }
}

/// Length of the last part of `s` that lies after position `lo`: the text after
/// its last separator.
pub open spec fn last_part_len(s: Seq<char>, lo: int) -> int
    decreases s.len(),
{
    if s.len() <= lo || s.len() == 0 || s.last() == '/' {
        0
    } else {
        last_part_len(s.drop_last(), lo) + 1
    }
}

/// `Path::parent` on Unix: the path without its last component, or `None`
/// when the path is empty or is the root.
pub open spec fn parent_spec(s: Seq<char>) -> Option<Seq<char>> {
    let lo = body_start(s);
    let t = trim_back(s, lo);
    if t.len() <= lo {
        if has_cur_dir(s) {
            Some(Seq::empty())
        } else {
            None
        }
    } else {
        let u = t.take(t.len() - last_part_len(t, lo));
        Some(trim_back(u, lo))
    }
}

/// The trimmed text is a prefix of the text that keeps what precedes the
/// body.
pub proof fn lemma_trim_back_len(s: Seq<char>, lo: int)
    ensures
        trim_back(s, lo).len() <= s.len(),
        trim_back(s, lo) == s.take(trim_back(s, lo).len() as int),
        s.len() > lo ==> trim_back(s, lo).len() >= lo,
    decreases s.len(),
{
    if s.len() <= lo || s.len() == 0 {
        assert(s.take(s.len() as int) == s);
    } else if s.last() == '/' || (s.last() == '.' && (s.len() - 1 == lo || s[s.len() - 2] == '/')) {
        lemma_trim_back_len(s.drop_last(), lo);
        let t = trim_back(s.drop_last(), lo);
        assert(s.drop_last().take(t.len() as int) == s.take(t.len() as int));
    } else {
        assert(s.take(s.len() as int) == s);
    }
}

/// The last part ends the text and never reaches below the body's start.
pub proof fn lemma_last_part_len(s: Seq<char>, lo: int)
    ensures
        0 <= last_part_len(s, lo) <= s.len(),
        lo >= 0 ==> last_part_len(s, lo) <= s.len() - lo || last_part_len(s, lo) == 0,
    decreases s.len(),
{
    if !(s.len() <= lo || s.len() == 0 || s.last() == '/') {
        lemma_last_part_len(s.drop_last(), lo);
    }
}

/// Removes trailing separators and `.` parts at or after position `lo`.
fn trim_back_exec(v: &Vec<char>, lo: usize) -> (r: usize)
    ensures
        r <= v.len(),
        v@.take(r as int) == trim_back(v@, lo as int),
{
    let mut n: usize = v.len();
    proof {
        assert(v@.take(n as int) == v@);
    }
    while n > lo && n > 0
        invariant
            n <= v.len(),
            trim_back(v@.take(n as int), lo as int) == trim_back(v@, lo as int),
        decreases n,
    {
        let ghost s = v@.take(n as int);
        proof {
            assert(s.drop_last() == v@.take(n - 1));
            assert(s.last() == v@[n - 1]);
        }
        if v[n - 1] == '/' {
            n = n - 1;
        } else if v[n - 1] == '.' && (n - 1 == lo || v[n - 2] == '/') {
            proof {
                if n - 1 != lo {
                    assert(s[s.len() - 2] == v@[n - 2]);
                }
            }
            n = n - 1;
        } else {
            proof {
                if n - 1 != lo && n >= 2 {
                    assert(s[s.len() - 2] == v@[n - 2]);
                }
            }
            return n;
        }
    }
    n
}

/// `Path::parent` on Unix, over text.
pub fn parent(p: &str) -> (r: Option<String>)
    ensures
        match r {
            Some(s) => parent_spec(p@) == Some(s@),
            None => parent_spec(p@) is None,
        },
{
    let v = chars_of(p);
    let n = v.len();
    let root = n > 0 && v[0] == '/';
    let cur = !root && n > 0 && v[0] == '.' && (n == 1 || v[1] == '/');
    let lo: usize = if root || cur { 1 } else { 0 };
    assert(lo as int == body_start(p@));
    let t = trim_back_exec(&v, lo);
    proof {
        lemma_trim_back_len(v@, lo as int);
    }
    if t <= lo {
        if cur {
            return Some(String::new());
        } else {
            return None;
        }
    }
    let ghost ts = v@.take(t as int);
    let mut k: usize = t;
    while k > lo && v[k - 1] != '/'
        invariant
            lo < t <= v.len(),
            lo <= k <= t,
            last_part_len(ts, lo as int) == last_part_len(v@.take(k as int), lo as int) + (t - k),
        decreases k,
    {
        proof {
            let s = v@.take(k as int);
            assert(s.drop_last() == v@.take(k - 1));
            assert(s.last() == v@[k - 1]);
        }
        k = k - 1;
    }
    proof {
        let s = v@.take(k as int);
        if k > lo {
            assert(s.last() == v@[k - 1]);
        }
        assert(last_part_len(s, lo as int) == 0);
        assert(ts.take(k as int) == v@.take(k as int));
    }
    let mut w: Vec<char> = Vec::new();
    let mut j: usize = 0;
    while j < k
        invariant
            k <= v.len(),
            j <= k,
            w@ == v@.take(j as int),
        decreases k - j,
    {
        w.push(v[j]);
        j = j + 1;
        assert(w@ == v@.take(j as int));
    }
    let m = trim_back_exec(&w, lo);
    let mut out: Vec<char> = Vec::new();
    let mut q: usize = 0;
    while q < m
        invariant
            m <= w.len(),
            q <= m,
            out@ == w@.take(q as int),
        decreases m - q,
    {
        out.push(w[q]);
        q = q + 1;
        assert(out@ == w@.take(q as int));
    }
    Some(string_of(&out))
}


/// `Path::file_name`: the last component, if it is a normal one.
pub open spec fn file_name_spec(s: Seq<char>) -> Option<Seq<char>> {
    let c = components(s);
    if c.len() > 0 {
        match c.last() {
            Comp::Normal(n) => Some(n),
            _ => None,
        }
    } else {
        None
    }
}

/// `Path::file_name`, over text.
pub fn file_name(p: &str) -> (r: Option<String>)
    ensures
        match r {
            Some(n) => file_name_spec(p@) == Some(n@),
            None => file_name_spec(p@) is None,
        },
{
    let cs = path_components(p);
    let n = cs.len();
    if n == 0 {
        return None;
    }
    assert(comps_view(cs@)[n - 1] == cs@[n - 1]@);
    match &cs[n - 1] {
        PathComponent::Normal(v) => Some(string_of(v)),
        _ => None,
    }
}

} // verus!
