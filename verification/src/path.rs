//! Absolute paths.
use vstd::prelude::*;

verus! {

/// The texts of several strings.
pub open spec fn names(v: Seq<String>) -> Seq<Seq<char>> {
    v.map_values(|s: String| s@)
}

/// `acc` followed by the non-empty pieces that the slashes of `s[i..]` separate;
/// the piece being read started at `from`.
pub open spec fn split_from(s: Seq<char>, from: int, i: int, acc: Seq<Seq<char>>) -> Seq<Seq<char>>
    decreases s.len() - i,
{
    if i >= s.len() {
        if from < i {
            acc.push(s.subrange(from, i))
        } else {
            acc
        }
    } else if s[i] == '/' {
        split_from(
            s,
            i + 1,
            i + 1,
            if from < i {
                acc.push(s.subrange(from, i))
            } else {
                acc
            },
        )
    } else {
        split_from(s, from, i + 1, acc)
    }
}

/// The non-empty pieces of `s` between slashes.
pub open spec fn split(s: Seq<char>) -> Seq<Seq<char>> {
    split_from(s, 0, 0, Seq::empty())
}

/// The name `.`.
pub open spec fn dot() -> Seq<char> {
    seq!['.']
}

/// The name `..`.
pub open spec fn dotdot() -> Seq<char> {
    seq!['.', '.']
}

/// One step of folding `.` and `..`: what `c` does to the components so far.
pub open spec fn fold_one(acc: Seq<Seq<char>>, c: Seq<char>) -> Seq<Seq<char>> {
    if c.len() == 0 || c == dot() {
        acc
    } else if c == dotdot() {
        if acc.len() == 0 {
            acc
        } else {
            acc.drop_last()
        }
    } else {
        acc.push(c)
    }
}

/// `acc` with the components `cs[i..]` folded in.
pub open spec fn fold(acc: Seq<Seq<char>>, cs: Seq<Seq<char>>, i: int) -> Seq<Seq<char>>
    decreases cs.len() - i,
{
    if i >= cs.len() {
        acc
    } else {
        fold(fold_one(acc, cs[i]), cs, i + 1)
    }
}

/// The components with `.` and `..` resolved; `..` at the root stays there.
pub open spec fn normalized(cs: Seq<Seq<char>>) -> Seq<Seq<char>> {
    fold(Seq::empty(), cs, 0)
}

/// The components joined by slashes.
pub open spec fn joined(cs: Seq<Seq<char>>) -> Seq<char>
    decreases cs.len(),
{
    if cs.len() == 0 {
        Seq::empty()
    } else if cs.len() == 1 {
        cs[0]
    } else {
        joined(cs.drop_last()) + seq!['/'] + cs.last()
    }
}

/// Whether `a` begins with the components of `b`.
pub open spec fn has_prefix(a: Seq<Seq<char>>, b: Seq<Seq<char>>) -> bool {
    b.len() <= a.len() && a.take(b.len() as int) == b
}

/// An ordinary name: not empty, not `.` or `..`.
pub open spec fn plain(c: Seq<char>) -> bool {
    c.len() > 0 && c != dot() && c != dotdot()
}

/// An absolute path, as its components.
pub struct Path {
    components: Vec<String>,
}

impl View for Path {
    type V = Seq<Seq<char>>;

    closed spec fn view(&self) -> Seq<Seq<char>> {
        names(self.components@)
    }
}

/// Why a path could not be parsed.
#[derive(Debug, Clone, Copy, PartialEq, Eq, Structural)]
pub enum ParseError {
    Invalid,
}

/// Whether a string is `.`.
pub fn is_dot(s: &str) -> (r: bool)
    ensures
        r == (s@ == dot()),
{
    let r: bool = s.unicode_len() == 1 && s.get_char(0) == '.';
    assert(r ==> s@ =~= dot());
    r
}

/// Whether a string is `..`.
pub fn is_dotdot(s: &str) -> (r: bool)
    ensures
        r == (s@ == dotdot()),
{
    let r: bool = s.unicode_len() == 2 && s.get_char(0) == '.' && s.get_char(1) == '.';
    assert(r ==> s@ =~= dotdot());
    r
}

/// The non-empty pieces of `s` between slashes.
pub fn split_names(s: &str) -> (r: Vec<String>)
    ensures
        names(r@) == split(s@),
{
    let n: usize = s.unicode_len();
    let mut out: Vec<String> = Vec::new();
    let mut from: usize = 0;
    let mut i: usize = 0;
    assert(names(out@) =~= Seq::empty());
    while i < n
        invariant
            n == s@.len(),
            from <= i <= n,
            split(s@) == split_from(s@, from as int, i as int, names(out@)),
        decreases n - i,
    {
        if s.get_char(i) == '/' {
            if from < i {
                let ghost before = out@;
                let piece = s.substring_char(from, i).to_owned();
                out.push(piece);
                assert(names(out@) =~= names(before).push(s@.subrange(from as int, i as int)));
            }
            from = i + 1;
        }
        i = i + 1;
    }
    if from < n {
        let ghost before = out@;
        let piece = s.substring_char(from, n).to_owned();
        out.push(piece);
        assert(names(out@) =~= names(before).push(s@.subrange(from as int, n as int)));
    }
    out
}

/// Folds one more component into those resolved so far.
fn push_folded(out: &mut Vec<String>, c: &str)
    ensures
        names(final(out)@) == fold_one(names(old(out)@), c@),
{
    if c.unicode_len() == 0 || is_dot(c) {
        return;
    }
    if is_dotdot(c) {
        if out.len() > 0 {
            out.pop();
            assert(names(out@) =~= names(old(out)@).drop_last());
        }
        return;
    }
    out.push(c.to_owned());
    assert(names(out@) =~= names(old(out)@).push(c@));
}

/// A copy of `v[from..to]`.
pub fn copy_names(v: &[String], from: usize, to: usize) -> (r: Vec<String>)
    requires
        from <= to <= v@.len(),
    ensures
        r@ == v@.subrange(from as int, to as int),
        names(r@) == names(v@).subrange(from as int, to as int),
{
    let mut r: Vec<String> = Vec::new();
    let mut i: usize = from;
    while i < to
        invariant
            from <= i <= to <= v@.len(),
            r@ == v@.subrange(from as int, i as int),
        decreases to - i,
    {
        r.push(v[i].clone());
        i = i + 1;
        assert(r@ =~= v@.subrange(from as int, i as int));
    }
    assert(names(r@) =~= names(v@).subrange(from as int, to as int));
    r
}

impl Path {
    /// Splits a string at its slashes. Empty pieces count for nothing, so this
    /// never fails.
    pub fn parse(value: &str) -> (r: Result<Path, ParseError>)
        ensures
            r matches Ok(p) && p@ == split(value@),
    {
        Ok(Path { components: split_names(value) })
    }

    /// The root.
    pub fn root() -> (r: Path)
        ensures
            r@ == Seq::<Seq<char>>::empty(),
    {
        let r = Path { components: Vec::new() };
        assert(r@ =~= Seq::<Seq<char>>::empty());
        r
    }

    /// The path with the given components.
    pub fn from_components(components: Vec<String>) -> (r: Path)
        ensures
            r@ == names(components@),
    {
        Path { components }
    }

    /// A copy of the path.
    pub fn duplicate(&self) -> (r: Path)
        ensures
            r@ == self@,
    {
        let c = copy_names(self.components.as_slice(), 0, self.components.len());
        assert(names(c@) =~= self@);
        Path { components: c }
    }

    /// The path with `.` and `..` resolved. `..` at the root keeps the root.
    pub fn normalize(&self) -> (r: Path)
        ensures
            r@ == normalized(self@),
    {
        let mut stack: Vec<String> = Vec::new();
        let mut i: usize = 0;
        assert(names(stack@) =~= Seq::empty());
        while i < self.components.len()
            invariant
                i <= self.components@.len(),
                normalized(self@) == fold(names(stack@), self@, i as int),
            decreases self.components@.len() - i,
        {
            push_folded(&mut stack, self.components[i].as_str());
            i = i + 1;
        }
        Path { components: stack }
    }

    /// The last component, empty for the root.
    pub fn filename(&self) -> (r: String)
        ensures
            r@ == (if root_path(self@) {
                Seq::<char>::empty()
            } else {
                self@.last()
            }),
    {
        if self.is_root() {
            String::new()
        } else {
            self.components[self.components.len() - 1].clone()
        }
    }

    /// The components.
    pub fn components(&self) -> (r: &[String])
        ensures
            names(r@) == self@,
            r@.len() == self@.len(),
    {
        self.components.as_slice()
    }

    /// Whether this is the root.
    pub fn is_root(&self) -> (r: bool)
        ensures
            r == root_path(self@),
    {
        if self.components.len() == 0 {
            return true;
        }
        let c = self.components[0].as_str();
        let r: bool = self.components.len() == 1 && c.unicode_len() == 1 && c.get_char(0) == '/';
        proof {
            if r {
                assert(self@[0] =~= seq!['/']);
            }
        }
        r
    }

    /// The path with the pieces of `other` appended.
    pub fn join(&self, other: &str) -> (r: Path)
        ensures
            r@ == self@ + split(other@),
    {
        let mut c = copy_names(self.components.as_slice(), 0, self.components.len());
        let mut more = split_names(other);
        let ghost a = c@;
        let ghost b = more@;
        c.append(&mut more);
        assert(names(c@) =~= names(a) + names(b));
        assert(names(a) =~= self@);
        Path { components: c }
    }

    /// Whether the path begins with the components of `base`.
    pub fn starts_with(&self, base: &Path) -> (r: bool)
        ensures
            r == has_prefix(self@, base@),
    {
        if base.components.len() > self.components.len() {
            return false;
        }
        let mut i: usize = 0;
        while i < base.components.len()
            invariant
                i <= base.components@.len() <= self.components@.len(),
                forall|k: int| 0 <= k < i ==> self@[k] == base@[k],
            decreases base.components@.len() - i,
        {
            if self.components[i] != base.components[i] {
                proof {
                    if has_prefix(self@, base@) {
                        assert(self@.take(base@.len() as int)[i as int] == base@[i as int]);
                    }
                }
                return false;
            }
            i = i + 1;
        }
        assert(self@.take(base@.len() as int) =~= base@);
        true
    }

    /// The path without the prefix `base`, or the path itself when it does not have
    /// that prefix.
    pub fn strip_prefix(&self, base: &Path) -> (r: Path)
        ensures
            r@ == (if has_prefix(self@, base@) {
                self@.skip(base@.len() as int)
            } else {
                self@
            }),
    {
        if !self.starts_with(base) {
            return self.duplicate();
        }
        let c = copy_names(
            self.components.as_slice(),
            base.components.len(),
            self.components.len(),
        );
        assert(names(c@) =~= self@.skip(base@.len() as int));
        Path { components: c }
    }

    /// The path without its last component, if it has one.
    pub fn parent(&self) -> (r: Option<Path>)
        ensures
            match r {
                Some(p) => self@.len() > 0 && p@ == self@.drop_last(),
                None => self@.len() == 0,
            },
    {
        if self.components.len() == 0 {
            return None;
        }
        let c = copy_names(self.components.as_slice(), 0, self.components.len() - 1);
        assert(names(c@) =~= self@.drop_last());
        Some(Path { components: c })
    }

    /// The path without its last component, the root for the root.
    pub fn parent_or_root(&self) -> (r: Path)
        ensures
            r@ == (if self@.len() == 0 {
                self@
            } else {
                self@.drop_last()
            }),
    {
        match self.parent() {
            Some(p) => p,
            None => {
                let r = Path::root();
                assert(r@ =~= self@);
                r
            },
        }
    }

    /// Whether `other` lies directly below this path.
    pub fn is_direct_parent(&self, other: &Path) -> (r: bool)
        ensures
            r == (has_prefix(other@, self@) && other@.len() == self@.len() + 1),
    {
        if !other.starts_with(self) {
            return false;
        }
        let stripped = other.strip_prefix(self);
        assert(stripped@.len() == other@.len() - self@.len());
        assert(stripped@.len() == stripped.components@.len());
        stripped.components.len() == 1
    }

    /// How many components there are.
    pub fn component_count(&self) -> (n: usize)
        ensures
            n == self@.len(),
    {
        self.components.len()
    }

    /// The last component, none for the root.
    pub fn last_component(&self) -> (r: Option<&str>)
        ensures
            match r {
                Some(s) => self@.len() > 0 && s@ == self@.last(),
                None => self@.len() == 0,
            },
    {
        if self.components.len() == 0 {
            return None;
        }
        Some(self.components[self.components.len() - 1].as_str())
    }

    /// Whether two paths have the same components.
    pub fn same(&self, other: &Path) -> (r: bool)
        ensures
            r == (self@ == other@),
    {
        let r: bool = self.components.len() == other.components.len() && self.starts_with(other);
        assert(self@.take(self@.len() as int) =~= self@);
        r
    }

    /// The path as text: a slash, then the components joined by slashes.
    pub fn display(&self) -> (r: String)
        ensures
            r@ == seq!['/'] + joined(self@),
    {
        let mut out = String::new();
        out.append("/");
        proof {
            reveal_strlit("/");
        }
        assert(out@ =~= seq!['/']);
        let mut i: usize = 0;
        assert(self@.take(0) =~= Seq::empty());
        assert(out@ =~= seq!['/'] + joined(self@.take(0)));
        while i < self.components.len()
            invariant
                i <= self.components@.len(),
                out@ == seq!['/'] + joined(self@.take(i as int)),
            decreases self.components@.len() - i,
        {
            if i > 0 {
                out.append("/");
            }
            out.append(self.components[i].as_str());
            proof {
                reveal_strlit("/");
                assert("/"@ =~= seq!['/']);
                let t = self@.take(i + 1);
                assert(t.drop_last() =~= self@.take(i as int));
                assert(t.last() == self@[i as int]);
                if i == 0 {
                    assert(self@.take(0) =~= Seq::<Seq<char>>::empty());
                    assert(out@ =~= seq!['/'] + joined(t));
                } else {
                    assert(out@ =~= seq!['/'] + joined(t));
                }
            }
            i = i + 1;
        }
        assert(self@.take(self@.len() as int) =~= self@);
        out
    }
}

/// Whether components name the root.
pub open spec fn root_path(cs: Seq<Seq<char>>) -> bool {
    cs.len() == 0 || (cs.len() == 1 && cs[0] == seq!['/'])
}

/// The path a symbolic link leads to: its target resolved against the components
/// `prefix` before the link (or the root when the target is absolute), followed by
/// the components `rest` after it.
pub open spec fn spliced(prefix: Seq<Seq<char>>, target: Seq<char>, rest: Seq<Seq<char>>) -> Seq<
    Seq<char>,
> {
    let start = if target.len() > 0 && target[0] == '/' {
        Seq::empty()
    } else {
        prefix
    };
    fold(fold(start, split(target), 0), rest, 0)
}

/// Splices a symbolic link's target into the path being resolved.
pub fn splice_symlink(prefix: &[String], target: &str, rest: &[String]) -> (r: Vec<String>)
    ensures
        names(r@) == spliced(names(prefix@), target@, names(rest@)),
{
    let absolute: bool = target.unicode_len() > 0 && target.get_char(0) == '/';
    let mut out: Vec<String> = if absolute {
        Vec::new()
    } else {
        copy_names(prefix, 0, prefix.len())
    };
    let ghost start = names(out@);
    proof {
        if absolute {
            assert(start =~= Seq::empty());
        } else {
            assert(start =~= names(prefix@));
        }
    }
    let pieces = split_names(target);
    let mut i: usize = 0;
    while i < pieces.len()
        invariant
            i <= pieces@.len(),
            names(pieces@) == split(target@),
            fold(start, split(target@), 0) == fold(names(out@), split(target@), i as int),
        decreases pieces@.len() - i,
    {
        push_folded(&mut out, pieces[i].as_str());
        assert(split(target@)[i as int] == pieces@[i as int]@);
        i = i + 1;
    }
    let ghost mid = names(out@);
    let mut k: usize = 0;
    while k < rest.len()
        invariant
            k <= rest@.len(),
            fold(mid, names(rest@), 0) == fold(names(out@), names(rest@), k as int),
        decreases rest@.len() - k,
    {
        push_folded(&mut out, rest[k].as_str());
        assert(names(rest@)[k as int] == rest@[k as int]@);
        k = k + 1;
    }
    out
}

// ---- Laws -----------------------------------------------------------------------

/// Whether every component is an ordinary name.
pub open spec fn all_plain(cs: Seq<Seq<char>>) -> bool {
    forall|i: int| 0 <= i < cs.len() ==> plain(#[trigger] cs[i])
}

proof fn lemma_fold_plain(acc: Seq<Seq<char>>, cs: Seq<Seq<char>>, i: int)
    requires
        all_plain(acc),
        0 <= i,
    ensures
        all_plain(fold(acc, cs, i)),
    decreases cs.len() - i,
{
    if i < cs.len() {
        let n = fold_one(acc, cs[i]);
        assert(all_plain(n)) by {
            assert forall|k: int| 0 <= k < n.len() implies plain(#[trigger] n[k]) by {
                if k < acc.len() {
                    assert(plain(acc[k]));
                }
            }
        }
        lemma_fold_plain(n, cs, i + 1);
    }
}

proof fn lemma_fold_of_plain(acc: Seq<Seq<char>>, cs: Seq<Seq<char>>, i: int)
    requires
        all_plain(cs),
        0 <= i <= cs.len(),
        acc == cs.take(i),
    ensures
        fold(acc, cs, i) == cs,
    decreases cs.len() - i,
{
    if i < cs.len() {
        assert(plain(cs[i]));
        assert(fold_one(acc, cs[i]) =~= cs.take(i + 1));
        lemma_fold_of_plain(cs.take(i + 1), cs, i + 1);
    } else {
        assert(acc =~= cs);
    }
}

/// A path of ordinary names is normalized.
pub proof fn plain_is_normal(cs: Seq<Seq<char>>)
    requires
        all_plain(cs),
    ensures
        normalized(cs) == cs,
{
    assert(cs.take(0) =~= Seq::<Seq<char>>::empty());
    lemma_fold_of_plain(Seq::empty(), cs, 0);
}

/// A normalized path has ordinary names only, and normalizing it again changes
/// nothing.
pub proof fn normalize_is_idempotent(cs: Seq<Seq<char>>)
    ensures
        all_plain(normalized(cs)),
        normalized(normalized(cs)) == normalized(cs),
{
    lemma_fold_plain(Seq::empty(), cs, 0);
    plain_is_normal(normalized(cs));
}

/// A resolved symbolic link names no `.` or `..`, as long as what preceded it did
/// not.
pub proof fn splice_is_normalized(
    prefix: Seq<Seq<char>>,
    target: Seq<char>,
    rest: Seq<Seq<char>>,
)
    requires
        all_plain(prefix),
    ensures
        all_plain(spliced(prefix, target, rest)),
{
    let start = if target.len() > 0 && target[0] == '/' {
        Seq::empty()
    } else {
        prefix
    };
    lemma_fold_plain(start, split(target), 0);
    lemma_fold_plain(fold(start, split(target), 0), rest, 0);
}

/// Whether a component could have come from splitting: not empty, no slash.
pub open spec fn slash_free(c: Seq<char>) -> bool {
    c.len() > 0 && forall|i: int| 0 <= i < c.len() ==> #[trigger] c[i] != '/'
}

/// Splitting past a slash-free stretch of `s`.
proof fn lemma_skip_piece(s: Seq<char>, from: int, i: int, end: int, acc: Seq<Seq<char>>)
    requires
        0 <= from <= i <= end <= s.len(),
        forall|k: int| i <= k < end ==> #[trigger] s[k] != '/',
    ensures
        split_from(s, from, i, acc) == split_from(s, from, end, acc),
    decreases end - i,
{
    if i < end {
        assert(s[i] != '/');
        lemma_skip_piece(s, from, i + 1, end, acc);
    }
}

/// The pieces of text are slash-free.
proof fn lemma_split_slash_free(s: Seq<char>, from: int, i: int, acc: Seq<Seq<char>>)
    requires
        0 <= from <= i <= s.len(),
        forall|k: int| from <= k < i ==> #[trigger] s[k] != '/',
        forall|k: int| 0 <= k < acc.len() ==> slash_free(#[trigger] acc[k]),
    ensures
        forall|k: int|
            0 <= k < split_from(s, from, i, acc).len() ==> slash_free(
                #[trigger] split_from(s, from, i, acc)[k],
            ),
    decreases s.len() - i,
{
    let p = s.subrange(from, i);
    if from < i {
        assert(slash_free(p)) by {
            assert forall|k: int| 0 <= k < p.len() implies #[trigger] p[k] != '/' by {
                assert(p[k] == s[from + k]);
            }
        }
    }
    let acc1 = if from < i {
        acc.push(p)
    } else {
        acc
    };
    assert forall|k: int| 0 <= k < acc1.len() implies slash_free(#[trigger] acc1[k]) by {
        if k < acc.len() {
            assert(slash_free(acc[k]));
        }
    }
    if i < s.len() {
        if s[i] == '/' {
            lemma_split_slash_free(s, i + 1, i + 1, acc1);
            assert(split_from(s, from, i, acc) == split_from(s, i + 1, i + 1, acc1));
        } else {
            lemma_split_slash_free(s, from, i + 1, acc);
            assert(split_from(s, from, i, acc) == split_from(s, from, i + 1, acc));
        }
    } else {
        assert(split_from(s, from, i, acc) == acc1);
    }
}

/// Every component that parsing yields is non-empty and free of slashes.
pub proof fn parse_yields_slash_free(s: Seq<char>)
    ensures
        forall|k: int| 0 <= k < split(s).len() ==> slash_free(#[trigger] split(s)[k]),
{
    lemma_split_slash_free(s, 0, 0, Seq::empty());
}

/// The components of `joined(cs)` after a leading slash, by induction on how many
/// components are left.
proof fn lemma_split_joined(s: Seq<char>, cs: Seq<Seq<char>>, n: int)
    requires
        0 <= n <= cs.len(),
        s == seq!['/'] + joined(cs),
        forall|k: int| 0 <= k < cs.len() ==> slash_free(#[trigger] cs[k]),
    ensures
        n > 0 ==> split(s) == split_from(
            s,
            1 + joined(cs.take(n)).len() - cs[n - 1].len(),
            1 + joined(cs.take(n)).len() as int,
            cs.take(n - 1),
        ),
        n == 0 ==> split(s) == split_from(s, 1, 1, Seq::empty()),
    decreases n,
{
    if n == 0 {
        assert(s[0] == '/');
    } else {
        lemma_split_joined(s, cs, n - 1);
        let a = cs.take(n - 1);
        let b = cs.take(n);
        assert(b.drop_last() =~= a);
        assert(b.last() == cs[n - 1]);
        lemma_joined_prefix(cs, n);
        let c = cs[n - 1];
        assert(slash_free(c));
        let end = 1 + joined(b).len() as int;
        let from = end - c.len();
        assert forall|k: int| from <= k < end implies #[trigger] s[k] != '/' by {
            assert(s[k] == joined(cs)[k - 1]);
            assert(joined(cs).take(joined(b).len() as int)[k - 1] == joined(b)[k - 1]);
            assert(joined(b)[k - 1] == c[k - from]) by {
                if n > 1 {
                    assert(joined(b) == joined(a) + seq!['/'] + c);
                } else {
                    assert(joined(b) == c);
                }
            }
        }
        if n == 1 {
            assert(joined(b) == c);
            assert(a =~= Seq::<Seq<char>>::empty());
            lemma_skip_piece(s, 1, 1, end, Seq::empty());
        } else {
            let prev_end = 1 + joined(a).len() as int;
            assert(joined(b) == joined(a) + seq!['/'] + c);
            assert(s[prev_end] == '/') by {
                assert(s[prev_end] == joined(cs)[prev_end - 1]);
                assert(joined(cs).take(joined(b).len() as int)[prev_end - 1] == joined(
                    b,
                )[prev_end - 1]);
            }
            let pc = cs[n - 2];
            let pf = prev_end - pc.len();
            assert(slash_free(pc));
            assert(s.subrange(pf, prev_end) =~= pc) by {
                lemma_joined_prefix(cs, n - 1);
                assert forall|k: int| 0 <= k < pc.len() implies s.subrange(pf, prev_end)[k]
                    == pc[k] by {
                    assert(s[pf + k] == joined(cs)[pf + k - 1]);
                    assert(joined(cs).take(joined(a).len() as int)[pf + k - 1] == joined(a)[pf + k
                        - 1]);
                    assert(a.last() == pc);
                    if n - 1 > 1 {
                        assert(joined(a) == joined(a.drop_last()) + seq!['/'] + pc);
                    } else {
                        assert(joined(a) == pc);
                    }
                }
            }
            assert(cs.take(n - 2).push(pc) =~= a);
            assert(split(s) == split_from(s, prev_end + 1, prev_end + 1, a));
            lemma_skip_piece(s, prev_end + 1, prev_end + 1, end, a);
        }
    }
}

proof fn lemma_joined_prefix(cs: Seq<Seq<char>>, n: int)
    requires
        0 <= n <= cs.len(),
    ensures
        joined(cs.take(n)).len() <= joined(cs).len(),
        joined(cs).take(joined(cs.take(n)).len() as int) == joined(cs.take(n)),
        n > 0 ==> joined(cs.take(n)).len() >= cs[n - 1].len(),
        n < cs.len() && n > 0 ==> joined(cs.take(n)).len() < joined(cs).len(),
    decreases cs.len() - n,
{
    if n == cs.len() {
        assert(cs.take(n) =~= cs);
        assert(joined(cs).take(joined(cs).len() as int) =~= joined(cs));
    } else {
        let p = cs.drop_last();
        lemma_joined_prefix_drop(p, n);
        assert(p.take(n) =~= cs.take(n));
        if cs.len() > 1 {
            assert(joined(cs) == joined(p) + seq!['/'] + cs.last());
            assert(joined(cs).take(joined(cs.take(n)).len() as int) =~= joined(p).take(
                joined(cs.take(n)).len() as int,
            ));
        } else {
            assert(cs.take(0) =~= Seq::<Seq<char>>::empty());
            assert(joined(cs).take(0) =~= Seq::<char>::empty());
        }
    }
}

proof fn lemma_joined_prefix_drop(p: Seq<Seq<char>>, n: int)
    requires
        0 <= n <= p.len(),
    ensures
        joined(p.take(n)).len() <= joined(p).len(),
        joined(p).take(joined(p.take(n)).len() as int) == joined(p.take(n)),
        n > 0 ==> joined(p.take(n)).len() >= p[n - 1].len(),
    decreases p.len() - n,
{
    if n == p.len() {
        assert(p.take(n) =~= p);
        assert(joined(p).take(joined(p).len() as int) =~= joined(p));
    } else {
        let q = p.drop_last();
        lemma_joined_prefix_drop(q, n);
        assert(q.take(n) =~= p.take(n));
        if p.len() > 1 {
            assert(joined(p) == joined(q) + seq!['/'] + p.last());
            assert(joined(p).take(joined(p.take(n)).len() as int) =~= joined(q).take(
                joined(p.take(n)).len() as int,
            ));
        } else {
            assert(p.take(0) =~= Seq::<Seq<char>>::empty());
            assert(joined(p).take(0) =~= Seq::<char>::empty());
        }
    }
}

/// Parsing the text of a path gives the path back.
pub proof fn parse_of_display(cs: Seq<Seq<char>>)
    requires
        forall|k: int| 0 <= k < cs.len() ==> slash_free(#[trigger] cs[k]),
    ensures
        split(seq!['/'] + joined(cs)) == cs,
{
    let s = seq!['/'] + joined(cs);
    let n = cs.len() as int;
    lemma_split_joined(s, cs, n);
    assert(cs.take(n) =~= cs);
    if n == 0 {
        assert(s.len() == 1);
        assert(split(s) =~= cs);
    } else {
        let c = cs[n - 1];
        lemma_joined_prefix(cs, n);
        let from = 1 + joined(cs).len() - c.len();
        assert(s.len() == 1 + joined(cs).len());
        assert(slash_free(c));
        assert(s.subrange(from, s.len() as int) =~= c) by {
            if n > 1 {
                assert(joined(cs) == joined(cs.drop_last()) + seq!['/'] + cs.last());
            }
        }
        assert(cs.take(n - 1).push(c) =~= cs);
    }
}

/// Stripping a path off what was joined to it leaves what was joined.
pub proof fn strip_prefix_of_join(base: Seq<Seq<char>>, other: Seq<char>)
    ensures
        has_prefix(base + split(other), base),
        (base + split(other)).skip(base.len() as int) == split(other),
{
    assert((base + split(other)).take(base.len() as int) =~= base);
    assert((base + split(other)).skip(base.len() as int) =~= split(other));
}

proof fn lemma_fold_tail(acc: Seq<Seq<char>>, a: Seq<Seq<char>>, b: Seq<Seq<char>>, j: int)
    requires
        0 <= j,
    ensures
        fold(acc, a + b, a.len() + j) == fold(acc, b, j),
    decreases b.len() - j,
{
    if j < b.len() {
        assert((a + b)[a.len() + j] == b[j]);
        lemma_fold_tail(fold_one(acc, b[j]), a, b, j + 1);
    }
}

proof fn lemma_fold_on(acc: Seq<Seq<char>>, a: Seq<Seq<char>>, b: Seq<Seq<char>>, i: int)
    requires
        0 <= i <= a.len(),
    ensures
        fold(acc, a + b, i) == fold(fold(acc, a, i), b, 0),
    decreases a.len() - i,
{
    if i < a.len() {
        assert((a + b)[i] == a[i]);
        lemma_fold_on(fold_one(acc, a[i]), a, b, i + 1);
    } else {
        lemma_fold_tail(acc, a, b, 0);
    }
}

/// Folding in one list after another is folding in both as one.
pub(crate) proof fn lemma_fold_joined(acc: Seq<Seq<char>>, a: Seq<Seq<char>>, b: Seq<Seq<char>>)
    ensures
        fold(acc, a + b, 0) == fold(fold(acc, a, 0), b, 0),
{
    lemma_fold_on(acc, a, b, 0);
}

/// A name at the end of a path is the last step of its normal form: `.` stays, `..` goes up
/// and stays at the root, and every other name goes down.
pub proof fn normal_form_of_one_more(cs: Seq<Seq<char>>, c: Seq<char>)
    ensures
        c.len() == 0 || c == seq!['.'] ==> normalized(cs.push(c)) == normalized(cs),
        c == seq!['.', '.'] && normalized(cs).len() > 0 ==> normalized(cs.push(c)) == normalized(
            cs,
        ).drop_last(),
        c == seq!['.', '.'] && normalized(cs).len() == 0 ==> normalized(cs.push(c)).len() == 0,
        c.len() > 0 && c != seq!['.'] && c != seq!['.', '.'] ==> normalized(cs.push(c))
            == normalized(cs).push(c),
        normalized(Seq::<Seq<char>>::empty()).len() == 0,
{
    let e = Seq::<Seq<char>>::empty();
    lemma_fold_joined(e, cs, seq![c]);
    assert(cs + seq![c] =~= cs.push(c));
    let n = normalized(cs);
    assert(fold(n, seq![c], 0) == fold_one(n, c)) by {
        reveal_with_fuel(fold, 2);
    }
    assert(seq!['.'] != seq!['.', '.']) by {
        assert(seq!['.'].len() != seq!['.', '.'].len());
    }
}

/// The path that a symbolic link leads to is the normal form of the names before the link,
/// unless its target is absolute, the names of the target, and the names after the link.
pub proof fn link_leads_to_normal_form(
    prefix: Seq<Seq<char>>,
    target: Seq<char>,
    rest: Seq<Seq<char>>,
)
    requires
        all_plain(prefix),
    ensures
        target.len() > 0 && target[0] == '/' ==> spliced(prefix, target, rest) == normalized(
            split(target) + rest,
        ),
        !(target.len() > 0 && target[0] == '/') ==> spliced(prefix, target, rest) == normalized(
            prefix + split(target) + rest,
        ),
{
    let e = Seq::<Seq<char>>::empty();
    let t = split(target);
    lemma_fold_joined(e, t, rest);
    lemma_fold_joined(e, prefix + t, rest);
    lemma_fold_joined(e, prefix, t);
    plain_is_normal(prefix);
}

proof fn lemma_split_acc(s: Seq<char>, from: int, i: int, acc: Seq<Seq<char>>)
    requires
        0 <= from <= i <= s.len(),
    ensures
        split_from(s, from, i, acc) == acc + split_from(s, from, i, Seq::empty()),
    decreases s.len() - i,
{
    let e = Seq::<Seq<char>>::empty();
    let p = s.subrange(from, i);
    if i < s.len() {
        if s[i] == '/' {
            let a1 = if from < i {
                acc.push(p)
            } else {
                acc
            };
            let e1 = if from < i {
                e.push(p)
            } else {
                e
            };
            lemma_split_acc(s, i + 1, i + 1, a1);
            lemma_split_acc(s, i + 1, i + 1, e1);
            assert(acc + (e1 + split_from(s, i + 1, i + 1, e)) =~= a1 + split_from(
                s,
                i + 1,
                i + 1,
                e,
            ));
        } else {
            lemma_split_acc(s, from, i + 1, acc);
        }
    } else {
        assert(acc + e.push(p) =~= acc.push(p));
        assert(acc + e =~= acc);
    }
}

proof fn lemma_split_shifted(front: Seq<char>, s: Seq<char>, from: int, i: int, acc: Seq<Seq<char>>)
    requires
        0 <= from <= i <= s.len(),
    ensures
        split_from(front + s, front.len() + from, front.len() + i, acc) == split_from(
            s,
            from,
            i,
            acc,
        ),
    decreases s.len() - i,
{
    let w = front + s;
    let f = front.len();
    assert(w.subrange(f + from, f + i) =~= s.subrange(from, i));
    if i < s.len() {
        assert(w[f + i] == s[i]);
        if s[i] == '/' {
            let a1 = if from < i {
                acc.push(s.subrange(from, i))
            } else {
                acc
            };
            lemma_split_shifted(front, s, i + 1, i + 1, a1);
        } else {
            lemma_split_shifted(front, s, from, i + 1, acc);
        }
    }
}

proof fn lemma_split_before(a: Seq<char>, b: Seq<char>, from: int, i: int, acc: Seq<Seq<char>>)
    requires
        0 <= from <= i <= a.len(),
    ensures
        split_from(a + seq!['/'] + b, from, i, acc) == split_from(a, from, i, acc) + split(b),
    decreases a.len() - i,
{
    let w = a + seq!['/'] + b;
    assert(w.subrange(from, i) =~= a.subrange(from, i));
    let a1 = if from < i {
        acc.push(a.subrange(from, i))
    } else {
        acc
    };
    if i < a.len() {
        assert(w[i] == a[i]);
        if a[i] == '/' {
            lemma_split_before(a, b, i + 1, i + 1, a1);
        } else {
            lemma_split_before(a, b, from, i + 1, acc);
        }
    } else {
        assert(w[i] == '/');
        lemma_split_shifted(a + seq!['/'], b, 0, 0, a1);
        lemma_split_acc(b, 0, 0, a1);
    }
}

/// Splitting takes text apart at its slashes: what stands before one and what stands behind it
/// are split each for itself, and text without a slash is one name, unless it is empty.
pub proof fn split_at_slashes(a: Seq<char>, b: Seq<char>)
    ensures
        split(a + seq!['/'] + b) == split(a) + split(b),
        slash_free(a) ==> split(a) == seq![a],
        split(Seq::<char>::empty()).len() == 0,
{
    let e = Seq::<Seq<char>>::empty();
    lemma_split_before(a, b, 0, 0, e);
    if slash_free(a) {
        lemma_skip_piece(a, 0, 0, a.len() as int, e);
        assert(a.subrange(0, a.len() as int) =~= a);
        assert(e.push(a) =~= seq![a]);
    }
}

} // verus!
