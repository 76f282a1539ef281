//! Paths as text: containment of one path in another, the path of an entry
//! of a directory, and a path as seen from a directory above it. Paths are
//! written with `/` and compared by whole components; nothing here looks at
//! a file system.
//!
//! A relative path starts from the current directory, which is written `.`
//! or left out: `./a/b` and `a/b` are one path, and `.` lies above both.
//! Whether an absolute path lies in the current directory cannot be told
//! from the text, and is taken not to.

use crate::text::chars_of;
use vstd::prelude::*;

verus! {

/// Whether `text` ends with the separator.
pub open spec fn ends_with_separator(text: Seq<char>) -> bool {
    text.len() > 0 && text.last() == '/'
}

/// Whether `path` starts with `./`.
pub open spec fn starts_here(path: Seq<char>) -> bool {
    path.len() >= 2 && path[0] == '.' && path[1] == '/'
}

/// `path` without the current directory at its start: leading `./` are
/// dropped, and `.` alone becomes the empty path.
pub open spec fn normal(path: Seq<char>) -> Seq<char>
    decreases path.len(),
{
    if starts_here(path) {
        normal(path.subrange(2, path.len() as int))
    } else if path == seq!['.'] {
        Seq::empty()
    } else {
        path
    }
}

/// Whether `path` is relative: it does not start with the separator.
pub open spec fn is_relative(path: Seq<char>) -> bool {
    path.len() == 0 || path[0] != '/'
}

/// Whether `name` is the name of an entry of a directory: one component,
/// not empty, without a separator, and not `.`.
pub open spec fn is_component(name: Seq<char>) -> bool {
    &&& name.len() > 0
    &&& name != seq!['.']
    &&& forall|i: int| 0 <= i < name.len() ==> name[i] != '/'
}

/// Containment for paths that do not name the current directory at their
/// start: the empty path, which stands for the current directory, lies
/// above every relative path; any other `root` lies above `target` when it
/// is a prefix of `target` that ends where a component of `target` ends.
pub open spec fn lies_in(root: Seq<char>, target: Seq<char>) -> bool {
    if root.len() == 0 {
        is_relative(target)
    } else {
        &&& root.len() <= target.len()
        &&& target.subrange(0, root.len() as int) == root
        &&& (root.len() == target.len() || target[root.len() as int] == '/' || ends_with_separator(
            root,
        ))
    }
}

/// Whether `target` is `root` or lies below it.
pub open spec fn in_dir_spec(root: Seq<char>, target: Seq<char>) -> bool {
    lies_in(normal(root), normal(target))
}

/// The path of the entry `name` of the directory `dir`.
pub open spec fn join_spec(dir: Seq<char>, name: Seq<char>) -> Seq<char> {
    if dir.len() == 0 || ends_with_separator(dir) {
        dir + name
    } else {
        dir + seq!['/'] + name
    }
}

/// What follows `root` in `target`, without the separator that stood
/// between the two; nothing when `root` is the longer one.
pub open spec fn rest_after(root: Seq<char>, target: Seq<char>) -> Seq<char> {
    if root.len() > target.len() {
        Seq::empty()
    } else {
        let rest = target.subrange(root.len() as int, target.len() as int);
        if rest.len() > 0 && rest[0] == '/' {
            rest.drop_first()
        } else {
            rest
        }
    }
}

/// `target` as seen from `root`, for a `target` in `root`.
pub open spec fn relative_spec(root: Seq<char>, target: Seq<char>) -> Seq<char> {
    rest_after(normal(root), normal(target))
}

/// `path` without the current directory at its start.
pub fn normalize<'a>(path: &'a str) -> (res: &'a str)
    ensures
        res@ == normal(path@),
{
    let v = chars_of(path);
    let n: usize = v.len();
    let mut i: usize = 0;
    assert(path@.subrange(0, n as int) =~= path@);
    while n - i >= 2 && v[i] == '.' && v[i + 1] == '/'
        invariant
            i <= n,
            n == v@.len(),
            v@ == path@,
            normal(path@) == normal(path@.subrange(i as int, n as int)),
        decreases n - i,
    {
        proof {
            let rest = path@.subrange(i as int, n as int);
            assert(starts_here(rest));
            assert(rest.subrange(2, rest.len() as int) =~= path@.subrange(i + 2, n as int));
        }
        i = i + 2;
    }
    proof {
        let rest = path@.subrange(i as int, n as int);
        assert(!starts_here(rest));
        if n - i == 1 && v[i as int] == '.' {
            assert(rest =~= seq!['.']);
        } else if n - i == 1 {
            assert(rest[0] != '.');
        }
        assert(path@.subrange(n as int, n as int) =~= Seq::<char>::empty());
    }
    if n - i == 1 && v[i] == '.' {
        path.substring_char(n, n)
    } else {
        path.substring_char(i, n)
    }
}

/// Whether `name` is the name of an entry of a directory.
pub fn component(name: &str) -> (res: bool)
    ensures
        res == is_component(name@),
{
    let v = chars_of(name);
    let n: usize = v.len();
    if n == 0 {
        return false;
    }
    if n == 1 && v[0] == '.' {
        assert(name@ =~= seq!['.']);
        return false;
    }
    let mut i: usize = 0;
    while i < n
        invariant
            i <= n,
            n == v@.len(),
            v@ == name@,
            forall|k: int| 0 <= k < i ==> v@[k] != '/',
        decreases n - i,
    {
        if v[i] == '/' {
            return false;
        }
        i = i + 1;
    }
    proof {
        if n == 1 {
            assert(name@[0] != '.');
        }
    }
    true
}

/// Whether `target` is `root` or lies below `root`.
pub fn in_dir(root: &str, target: &str) -> (res: bool)
    ensures
        res == in_dir_spec(root@, target@),
{
    let r = chars_of(normalize(root));
    let t = chars_of(normalize(target));
    let n: usize = r.len();
    if n == 0 {
        return t.len() == 0 || t[0] != '/';
    }
    if n > t.len() {
        return false;
    }
    let mut i: usize = 0;
    while i < n
        invariant
            i <= n,
            n == r@.len(),
            0 < n <= t@.len(),
            r@ == normal(root@),
            t@ == normal(target@),
            forall|k: int| 0 <= k < i ==> r@[k] == t@[k],
        decreases n - i,
    {
        if r[i] != t[i] {
            proof {
                assert(t@.subrange(0, n as int)[i as int] == t@[i as int]);
            }
            return false;
        }
        i = i + 1;
    }
    assert(t@.subrange(0, n as int) =~= r@);
    n == t.len() || t[n] == '/' || r[n - 1] == '/'
}

/// The path of the entry `name` of the directory `dir`.
pub fn join(dir: &str, name: &str) -> (res: String)
    ensures
        res@ == join_spec(dir@, name@),
{
    let n: usize = dir.unicode_len();
    let mut res = dir.to_owned();
    if n > 0 && dir.get_char(n - 1) != '/' {
        res.append("/");
        proof {
            reveal_strlit("/");
            assert("/"@ =~= seq!['/']);
        }
    }
    res.append(name);
    res
}

/// `target` as seen from `root`.
pub fn relative<'a>(root: &str, target: &'a str) -> (res: &'a str)
    ensures
        res@ == relative_spec(root@, target@),
{
    let from = normalize(root);
    let path = normalize(target);
    let n: usize = from.unicode_len();
    let m: usize = path.unicode_len();
    if n > m {
        proof {
            assert(path@.subrange(m as int, m as int) =~= Seq::<char>::empty());
        }
        path.substring_char(m, m)
    } else if n < m && path.get_char(n) == '/' {
        proof {
            assert(path@.subrange(n as int, m as int).drop_first() =~= path@.subrange(
                n + 1,
                m as int,
            ));
        }
        path.substring_char(n + 1, m)
    } else {
        path.substring_char(n, m)
    }
}

/// The name of an entry is not changed by dropping the current directory.
pub proof fn lemma_component_is_normal(name: Seq<char>)
    requires
        is_component(name),
    ensures
        normal(name) == name,
        is_relative(name),
{
    if name.len() >= 2 {
        assert(name[1] != '/');
    }
}

/// Dropping the current directory from the path of an entry is dropping it
/// from the path of the directory.
pub proof fn lemma_normal_join(dir: Seq<char>, name: Seq<char>)
    requires
        is_component(name),
    ensures
        normal(join_spec(dir, name)) == join_spec(normal(dir), name),
    decreases dir.len(),
{
    let joined = join_spec(dir, name);
    lemma_component_is_normal(name);
    if starts_here(dir) {
        let shorter = dir.subrange(2, dir.len() as int);
        lemma_normal_join(shorter, name);
        if shorter.len() > 0 {
            assert(shorter.last() == dir.last());
        }
        assert(joined =~= seq!['.', '/'] + join_spec(shorter, name));
        assert(starts_here(joined));
        assert(joined.subrange(2, joined.len() as int) =~= join_spec(shorter, name));
    } else if dir == seq!['.'] {
        assert(joined =~= seq!['.', '/'] + name);
        assert(starts_here(joined));
        assert(joined.subrange(2, joined.len() as int) =~= name);
        assert(join_spec(Seq::<char>::empty(), name) =~= name);
    } else if dir.len() == 0 {
        assert(joined =~= name);
    } else {
        assert(joined[0] == dir[0]);
        if dir.len() >= 2 {
            assert(joined[1] == dir[1]);
        } else {
            assert(dir[0] != '.') by {
                if dir[0] == '.' {
                    assert(dir =~= seq!['.']);
                }
            }
        }
        assert(joined.len() >= 2);
        assert(!starts_here(joined));
        assert(joined != seq!['.']);
    }
}

/// An entry of a directory lies in that directory.
pub proof fn lemma_join_in_dir(dir: Seq<char>, name: Seq<char>)
    requires
        is_component(name),
    ensures
        in_dir_spec(dir, join_spec(dir, name)),
{
    lemma_normal_join(dir, name);
    lemma_component_is_normal(name);
    let from = normal(dir);
    let joined = join_spec(from, name);
    if from.len() > 0 {
        assert(joined.subrange(0, from.len() as int) =~= from);
    } else {
        assert(joined =~= name);
    }
}

/// Seen from its directory, an entry is its name.
pub proof fn lemma_join_relative(dir: Seq<char>, name: Seq<char>)
    requires
        is_component(name),
    ensures
        relative_spec(dir, join_spec(dir, name)) == name,
{
    lemma_normal_join(dir, name);
    let from = normal(dir);
    let joined = join_spec(from, name);
    let rest = joined.subrange(from.len() as int, joined.len() as int);
    if from.len() == 0 || ends_with_separator(from) {
        assert(rest =~= name);
    } else {
        assert(rest =~= seq!['/'] + name);
        assert(rest.drop_first() =~= name);
    }
}

/// Containment is transitive: what lies in a directory lies in every
/// directory above that one.
pub proof fn lemma_in_dir_transitive(a: Seq<char>, b: Seq<char>, c: Seq<char>)
    requires
        in_dir_spec(a, b),
        in_dir_spec(b, c),
    ensures
        in_dir_spec(a, c),
{
    let a = normal(a);
    let b = normal(b);
    let c = normal(c);
    if b.len() > 0 {
        assert(c[0] == c.subrange(0, b.len() as int)[0]);
    }
    if a.len() > 0 {
        assert(c.subrange(0, a.len() as int) =~= a) by {
            assert forall|k: int| 0 <= k < a.len() implies c[k] == a[k] by {
                assert(c.subrange(0, b.len() as int)[k] == b[k]);
                assert(b.subrange(0, a.len() as int)[k] == a[k]);
            }
        }
        if a.len() < c.len() && !ends_with_separator(a) && a.len() < b.len() {
            assert(c.subrange(0, b.len() as int)[a.len() as int] == b[a.len() as int]);
        }
    }
}

/// Every path lies in itself.
pub proof fn lemma_in_dir_reflexive(a: Seq<char>)
    ensures
        in_dir_spec(a, a),
{
    let a = normal(a);
    assert(a.subrange(0, a.len() as int) =~= a);
}

/// The path reached from `root` by going down through the entries `names`,
/// one after the other.
pub open spec fn descend(root: Seq<char>, names: Seq<Seq<char>>) -> Seq<char>
    decreases names.len(),
{
    if names.len() == 0 {
        root
    } else {
        join_spec(descend(root, names.drop_last()), names.last())
    }
}

/// The relative path that goes down through `names`: the names with a
/// separator between them.
pub open spec fn spelled(names: Seq<Seq<char>>) -> Seq<char> {
    descend(Seq::empty(), names)
}

/// Whether each of `names` is the name of an entry.
pub open spec fn are_components(names: Seq<Seq<char>>) -> bool {
    forall|i: int| 0 <= i < names.len() ==> is_component(#[trigger] names[i])
}

/// A relative path through one name or more is not empty and neither
/// starts nor ends with a separator.
proof fn lemma_spelled_shape(names: Seq<Seq<char>>)
    requires
        names.len() > 0,
        are_components(names),
    ensures
        spelled(names).len() > 0,
        spelled(names)[0] != '/',
        spelled(names).last() != '/',
    decreases names.len(),
{
    let name = names.last();
    assert(is_component(names[names.len() - 1]));
    if names.len() > 1 {
        let above = names.drop_last();
        assert forall|i: int| 0 <= i < above.len() implies is_component(#[trigger] above[i]) by {
            assert(above[i] == names[i]);
        }
        lemma_spelled_shape(above);
        assert(spelled(names) =~= spelled(above) + seq!['/'] + name);
    } else {
        assert(descend(Seq::<char>::empty(), names.drop_last()) =~= Seq::<char>::empty());
        assert(spelled(names) =~= name);
    }
}

/// Going down from a directory through names leads to the entry of that
/// directory which the names spell.
proof fn lemma_descend_is_join(from: Seq<char>, names: Seq<Seq<char>>)
    requires
        names.len() > 0,
        are_components(names),
    ensures
        descend(from, names) == join_spec(from, spelled(names)),
    decreases names.len(),
{
    let name = names.last();
    assert(is_component(names[names.len() - 1]));
    let above = names.drop_last();
    if names.len() > 1 {
        assert forall|i: int| 0 <= i < above.len() implies is_component(#[trigger] above[i]) by {
            assert(above[i] == names[i]);
        }
        lemma_descend_is_join(from, above);
        lemma_spelled_shape(above);
        let s = spelled(above);
        let d = join_spec(from, s);
        assert(d.last() == s.last());
        assert(spelled(names) =~= s + seq!['/'] + name);
        assert(descend(from, names) =~= d + seq!['/'] + name);
        assert(join_spec(from, s + seq!['/'] + name) =~= d + seq!['/'] + name);
    } else {
        assert(descend(Seq::<char>::empty(), above) =~= Seq::<char>::empty());
        assert(descend(from, above) == from);
        assert(spelled(names) =~= name);
    }
}

/// Dropping the current directory from a path reached by going down is
/// going down from the directory without it.
proof fn lemma_normal_descend(root: Seq<char>, names: Seq<Seq<char>>)
    requires
        are_components(names),
    ensures
        normal(descend(root, names)) == descend(normal(root), names),
    decreases names.len(),
{
    if names.len() > 0 {
        let above = names.drop_last();
        assert(is_component(names[names.len() - 1]));
        assert forall|i: int| 0 <= i < above.len() implies is_component(#[trigger] above[i]) by {
            assert(above[i] == names[i]);
        }
        lemma_normal_descend(root, above);
        lemma_normal_join(descend(root, above), names.last());
    }
}

/// A path reached by going down from a directory lies in that directory,
/// and seen from there it is the names gone through, however the
/// directory itself is written.
pub proof fn lemma_seen_from_above(root: Seq<char>, names: Seq<Seq<char>>)
    requires
        are_components(names),
    ensures
        in_dir_spec(root, descend(root, names)),
        relative_spec(root, descend(root, names)) == spelled(names),
{
    let from = normal(root);
    lemma_normal_descend(root, names);
    if names.len() == 0 {
        lemma_in_dir_reflexive(root);
        assert(from.subrange(from.len() as int, from.len() as int) =~= Seq::<char>::empty());
    } else {
        lemma_descend_is_join(from, names);
        lemma_spelled_shape(names);
        let s = spelled(names);
        let joined = join_spec(from, s);
        let rest = joined.subrange(from.len() as int, joined.len() as int);
        if from.len() == 0 {
            assert(joined =~= s);
            assert(rest =~= s);
        } else {
            assert(joined.subrange(0, from.len() as int) =~= from);
            if ends_with_separator(from) {
                assert(rest =~= s);
            } else {
                assert(rest =~= seq!['/'] + s);
                assert(rest.drop_first() =~= s);
            }
        }
    }
}

} // verus!
