//! The mount table: names of devices by path prefix.
use vstd::prelude::*;
use vstd::string::*;

verus! {

pub struct MountEntry {
    pub prefix: String,
    pub target: String,
}

/// The entries in order of falling prefix length.
pub struct MountTable {
    pub entries: Vec<MountEntry>,
}

/// An entry as two texts.
pub open spec fn texts(e: MountEntry) -> (Seq<char>, Seq<char>) {
    (e.prefix@, e.target@)
}

/// The entry has a prefix, and the path starts with it.
pub open spec fn matches_path(e: (Seq<char>, Seq<char>), path: Seq<char>) -> bool {
    &&& e.0.len() > 0
    &&& e.0.len() <= path.len()
    &&& path.take(e.0.len() as int) == e.0
}

/// The entry at `i` is the first of those with the longest matching prefix.
pub open spec fn is_mount_of(t: Seq<(Seq<char>, Seq<char>)>, path: Seq<char>, i: int) -> bool {
    &&& 0 <= i < t.len()
    &&& matches_path(t[i], path)
    &&& forall|k: int|
        0 <= k < t.len() && matches_path(#[trigger] t[k], path) ==> t[k].0.len() <= t[i].0.len()
    &&& forall|k: int|
        0 <= k < i && matches_path(#[trigger] t[k], path) ==> t[k].0.len() < t[i].0.len()
}

pub open spec fn mounted(t: Seq<(Seq<char>, Seq<char>)>, path: Seq<char>) -> bool {
    exists|i: int| is_mount_of(t, path, i)
}

/// A path without slashes that follow a slash.
pub open spec fn collapsed(path: Seq<char>) -> Seq<char>
    decreases path.len(),
{
    if path.len() == 0 {
        path
    } else {
        let front = collapsed(path.drop_last());
        if path.last() == '/' && path.len() > 1 && path[path.len() - 2] == '/' {
            front
        } else {
            front.push(path.last())
        }
    }
}

/// What a path stands for: the target of the longest matching prefix, a colon, and
/// what the rest of the path stands for; without a match, the path itself.
pub open spec fn resolved(t: Seq<(Seq<char>, Seq<char>)>, path: Seq<char>) -> Seq<char>
    decreases path.len(),
{
    if mounted(t, path) {
        let i = choose|i: int| is_mount_of(t, path, i);
        t[i].1 + seq![':'] + resolved(t, path.skip(t[i].0.len() as int))
    } else {
        collapsed(path)
    }
}

proof fn lemma_mount_unique(t: Seq<(Seq<char>, Seq<char>)>, path: Seq<char>, i: int, j: int)
    requires
        is_mount_of(t, path, i),
        is_mount_of(t, path, j),
    ensures
        i == j,
{
    if i < j {
        assert(t[i].0.len() < t[j].0.len());
    } else if j < i {
        assert(t[j].0.len() < t[i].0.len());
    }
}

fn starts_with(path: &str, prefix: &str) -> (r: bool)
    ensures
        r == (prefix@.len() <= path@.len() && path@.take(prefix@.len() as int) == prefix@),
{
    let n = prefix.unicode_len();
    if n > path.unicode_len() {
        return false;
    }
    let mut i: usize = 0;
    while i < n
        invariant
            i <= n == prefix@.len(),
            n <= path@.len(),
            forall|k: int| 0 <= k < i ==> prefix@[k] == path@[k],
        decreases n - i,
    {
        if prefix.get_char(i) != path.get_char(i) {
            assert(path@.take(n as int)[i as int] != prefix@[i as int]);
            return false;
        }
        i = i + 1;
    }
    assert(path@.take(n as int) =~= prefix@);
    true
}

fn collapse_slashes(path: &str) -> (r: String)
    ensures
        r@ == collapsed(path@),
{
    let ghost p = path@;
    let n = path.unicode_len();
    let mut out = String::new();
    let mut i: usize = 0;
    assert(p.take(0) =~= Seq::empty());
    while i < n
        invariant
            i <= n == p.len(),
            p == path@,
            out@ == collapsed(p.take(i as int)),
        decreases n - i,
    {
        proof {
            let t = p.take(i + 1);
            assert(t.drop_last() =~= p.take(i as int));
        }
        let c = path.get_char(i);
        let skip = c == '/' && i > 0 && path.get_char(i - 1) == '/';
        if !skip {
            out.append(path.substring_char(i, i + 1));
            assert(p.subrange(i as int, i + 1) =~= seq![c]);
            assert(out@ =~= collapsed(p.take(i as int)).push(c));
        }
        i = i + 1;
    }
    assert(p.take(i as int) =~= p);
    out
}

impl View for MountTable {
    type V = Seq<(Seq<char>, Seq<char>)>;

    open spec fn view(&self) -> Seq<(Seq<char>, Seq<char>)> {
        self.entries@.map_values(|e: MountEntry| texts(e))
    }
}

/// The place of a new prefix: behind all that are at least as long.
pub open spec fn is_bind_place(t: Seq<(Seq<char>, Seq<char>)>, len: nat, at: int) -> bool {
    &&& 0 <= at <= t.len()
    &&& forall|k: int| 0 <= k < at ==> (#[trigger] t[k]).0.len() >= len
    &&& at < t.len() ==> t[at].0.len() < len
}

impl MountTable {
    pub fn new() -> (r: Self)
        ensures
            r@ == Seq::<(Seq<char>, Seq<char>)>::empty(),
    {
        let r = Self { entries: Vec::new() };
        assert(r@ =~= Seq::empty());
        r
    }

    /// Mounts a target, unless exactly that is mounted already. Longer prefixes
    /// stand first.
    pub fn bind(&mut self, prefix: &str, target: &str)
        ensures
            old(self)@.contains((prefix@, target@)) ==> final(self)@ == old(self)@,
            !old(self)@.contains((prefix@, target@)) ==> exists|at: int|
                is_bind_place(old(self)@, prefix@.len(), at) && final(self)@
                    == #[trigger] old(self)@.insert(at, (prefix@, target@)),
    {
        let ghost t = self@;
        let new_prefix: String = prefix.to_owned();
        let new_target: String = target.to_owned();
        let mut i: usize = 0;
        while i < self.entries.len()
            invariant
                i <= self.entries@.len(),
                *self == *old(self),
                t == self@,
                new_prefix@ == prefix@,
                new_target@ == target@,
                forall|k: int| 0 <= k < i ==> #[trigger] t[k] != (prefix@, target@),
            decreases self.entries@.len() - i,
        {
            assert(t[i as int] == texts(self.entries@[i as int]));
            if self.entries[i].prefix == new_prefix && self.entries[i].target == new_target {
                assert(t.contains((prefix@, target@)));
                return ;
            }
            i = i + 1;
        }
        let len = new_prefix.as_str().unicode_len();
        let mut at: usize = 0;
        while at < self.entries.len() && self.entries[at].prefix.as_str().unicode_len() >= len
            invariant
                at <= self.entries@.len(),
                t == self@,
                *self == *old(self),
                len == prefix@.len(),
                forall|k: int| 0 <= k < at ==> (#[trigger] t[k]).0.len() >= len,
            decreases self.entries@.len() - at,
        {
            assert(t[at as int] == texts(self.entries@[at as int]));
            at = at + 1;
        }
        proof {
            if at < t.len() {
                assert(t[at as int] == texts(self.entries@[at as int]));
            }
        }
        self.entries.insert(at, MountEntry { prefix: new_prefix, target: new_target });
        assert(self@ =~= t.insert(at as int, (prefix@, target@)));
        assert(is_bind_place(t, prefix@.len(), at as int));
    }

    /// What a path stands for.
    pub fn resolve(&self, path: &str) -> (r: Result<String, &'static str>)
        ensures
            r matches Ok(s) && s@ == resolved(self@, path@),
        decreases path@.len(),
    {
        let ghost t = self@;
        let mut best: Option<usize> = None;
        let mut best_len: usize = 0;
        let mut i: usize = 0;
        while i < self.entries.len()
            invariant
                i <= self.entries@.len(),
                t == self@,
                t.len() == self.entries@.len(),
                match best {
                    Some(b) => {
                        &&& b < i
                        &&& matches_path(t[b as int], path@)
                        &&& best_len == t[b as int].0.len()
                        &&& forall|k: int|
                            0 <= k < i && matches_path(#[trigger] t[k], path@) ==> t[k].0.len()
                                <= best_len
                        &&& forall|k: int|
                            0 <= k < b && matches_path(#[trigger] t[k], path@) ==> t[k].0.len()
                                < best_len
                    },
                    None => {
                        &&& best_len == 0
                        &&& forall|k: int|
                            0 <= k < i ==> !matches_path(#[trigger] t[k], path@)
                    },
                },
            decreases self.entries@.len() - i,
        {
            assert(t[i as int] == texts(self.entries@[i as int]));
            let prefix = self.entries[i].prefix.as_str();
            let len = prefix.unicode_len();
            if len > best_len && starts_with(path, prefix) {
                best = Some(i);
                best_len = len;
            }
            i = i + 1;
        }
        match best {
            Some(b) => {
                proof {
                    assert(is_mount_of(t, path@, b as int));
                    let c = choose|c: int| is_mount_of(t, path@, c);
                    lemma_mount_unique(t, path@, b as int, c);
                    assert(t[b as int] == texts(self.entries@[b as int]));
                    assert(path@.subrange(best_len as int, path@.len() as int) =~= path@.skip(
                        best_len as int,
                    ));
                }
                let rest = path.substring_char(best_len, path.unicode_len());
                let sub: String = match self.resolve(rest) {
                    Ok(s) => s,
                    Err(e) => {
                        return Err(e);
                    },
                };
                let mut out: String = self.entries[b].target.clone();
                proof {
                    reveal_strlit(":");
                    assert(":"@ =~= seq![':']);
                }
                out.append(":");
                out.append(sub.as_str());
                Ok(out)
            },
            None => {
                assert forall|k: int| !is_mount_of(t, path@, k) by {}
                Ok(collapse_slashes(path))
            },
        }
    }
}

/// A path under a mounted prefix is named after the target; without mounts, a path
/// keeps its name up to doubled slashes.
pub proof fn lemma_resolve_under_mount(prefix: Seq<char>, target: Seq<char>, rest: Seq<char>)
    requires
        prefix.len() > 0,
        !(prefix.len() <= rest.len() && rest.take(prefix.len() as int) == prefix),
    ensures
        resolved(seq![(prefix, target)], prefix + rest) == target + seq![':'] + collapsed(rest),
        resolved(Seq::empty(), rest) == collapsed(rest),
{
    let t = seq![(prefix, target)];
    let path = prefix + rest;
    assert(path.take(prefix.len() as int) =~= prefix);
    assert(path.skip(prefix.len() as int) =~= rest);
    assert(is_mount_of(t, path, 0));
    let c = choose|c: int| is_mount_of(t, path, c);
    lemma_mount_unique(t, path, 0, c);
    assert(!mounted(t, rest)) by {
        if mounted(t, rest) {
            let d = choose|d: int| is_mount_of(t, rest, d);
            assert(matches_path(t[d], rest));
        }
    }
    assert(!mounted(Seq::empty(), rest));
    assert(resolved(t, rest) == collapsed(rest));
    assert(resolved(t, path) == t[0].1 + seq![':'] + resolved(t, path.skip(t[0].0.len() as int)));
}

/// A path comes out without two slashes in a row, and one that has none comes out as
/// it is.
pub proof fn lemma_collapsed_has_no_double_slash(path: Seq<char>, i: int)
    ensures
        0 <= i < collapsed(path).len() - 1 ==> !(collapsed(path)[i] == '/' && collapsed(path)[i + 1]
            == '/'),
        (forall|k: int|
            0 <= k < path.len() - 1 ==> !(#[trigger] path[k] == '/' && path[k + 1] == '/'))
            ==> collapsed(path) == path,
        path.len() > 0 ==> collapsed(path).len() > 0 && collapsed(path).last() == path.last()
            && collapsed(path)[0] == path[0],
        collapsed(path).len() <= path.len(),
    decreases path.len(),
{
    if path.len() > 0 {
        let front = path.drop_last();
        lemma_collapsed_has_no_double_slash(front, i);
        if forall|k: int|
            0 <= k < path.len() - 1 ==> !(#[trigger] path[k] == '/' && path[k + 1] == '/') {
            assert forall|k: int| 0 <= k < front.len() - 1 implies !(#[trigger] front[k] == '/'
                && front[k + 1] == '/') by {
                assert(front[k] == path[k] && front[k + 1] == path[k + 1]);
            }
            if path.len() > 1 {
                assert(!(path[path.len() - 2] == '/' && path[path.len() - 1] == '/'));
            }
            assert(front.push(path.last()) =~= path);
        }
        if path.len() > 1 {
            assert(front.last() == path[path.len() - 2]);
        }
    }
}

/// What is not a slash is kept, in order.
pub proof fn lemma_collapsed_keeps_names(path: Seq<char>)
    ensures
        collapsed(path).filter(|c: char| c != '/') == path.filter(|c: char| c != '/'),
    decreases path.len(),
{
    reveal(Seq::filter);
    let f = |c: char| c != '/';
    if path.len() > 0 {
        lemma_collapsed_keeps_names(path.drop_last());
        let front = collapsed(path.drop_last());
        assert(front.push(path.last()).drop_last() =~= front);
    }
}

/// Of two mounts whose prefixes both start the path, the one with the longer prefix is
/// taken: its target comes first, and what follows the prefix is looked up in turn.
pub proof fn lemma_longest_prefix_wins(t: Seq<(Seq<char>, Seq<char>)>, path: Seq<char>, a: int, b: int)
    requires
        0 <= a < t.len(),
        0 <= b < t.len(),
        a != b,
        0 < t[b].0.len() < t[a].0.len() <= path.len(),
        forall|i: int| 0 <= i < t[a].0.len() ==> path[i] == #[trigger] t[a].0[i],
        forall|k: int| 0 <= k < t.len() && k != a ==> (#[trigger] t[k]).0.len() < t[a].0.len(),
    ensures
        resolved(t, path) == t[a].1 + seq![':'] + resolved(t, path.skip(t[a].0.len() as int)),
{
    assert(path.take(t[a].0.len() as int) =~= t[a].0);
    assert(matches_path(t[a], path));
    assert(is_mount_of(t, path, a));
    assert(mounted(t, path));
    let i = choose|i: int| is_mount_of(t, path, i);
    assert(i == a);
}

/// A new mount stands behind those whose prefix is as long or longer and before the
/// shorter ones, so that a table in order of falling length stays so.
pub proof fn lemma_mounts_stay_in_order(t: Seq<(Seq<char>, Seq<char>)>, e: (Seq<char>, Seq<char>), at: int, i: int, j: int)
    requires
        is_bind_place(t, e.0.len(), at),
        forall|a: int, b: int|
            0 <= a < b < t.len() ==> (#[trigger] t[a]).0.len() >= (#[trigger] t[b]).0.len(),
        0 <= i < j < t.len() + 1,
    ensures
        t.insert(at, e)[i].0.len() >= t.insert(at, e)[j].0.len(),
        i == at ==> t.insert(at, e)[i].0.len() > t.insert(at, e)[j].0.len(),
{
    let r = t.insert(at, e);
    let x = if i < at {
        i
    } else {
        i - 1
    };
    let y = if j < at {
        j
    } else {
        j - 1
    };
    if i != at {
        assert(r[i] == t[x]);
    }
    if j != at {
        assert(r[j] == t[y]);
    }
    if i == at {
        if at < y {
            assert(t[at].0.len() >= t[y].0.len());
        }
    } else if j == at {
        assert(t[x].0.len() >= e.0.len());
    } else {
        assert(t[x].0.len() >= t[y].0.len());
    }
}

} // verus!
