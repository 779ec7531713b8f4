//! MarFS paths: which paths of the reference tree are internal to MarFS, and
//! how a path of the reference tree maps to a path of the user tree.
use vstd::prelude::*;

use crate::text::{chars_of, join_with, split_on, split_str, string_views};

verus! {

/// The directory that holds the subspaces of a namespace in the reference
/// tree; it has no counterpart in the user tree.
pub open spec fn subspaces_dir() -> Seq<char> {
    "MDAL_subspaces"@
}

/// `parts` without the pieces that name the subspaces directory, in order.
pub open spec fn without_subspaces(parts: Seq<Seq<char>>) -> Seq<Seq<char>>
    decreases parts.len(),
{
    if parts.len() == 0 {
        Seq::<Seq<char>>::empty()
    } else {
        let kept = without_subspaces(parts.drop_last());
        if parts.last() == subspaces_dir() {
            kept
        } else {
            kept.push(parts.last())
        }
    }
}

/// The user path of `internal` below the user root `root`: the root itself
/// for an empty path; otherwise the root and the `/`-separated pieces of
/// `internal`, without the subspaces directory, joined with `/`.
pub open spec fn user_path(root: Seq<char>, internal: Seq<char>) -> Seq<char> {
    if internal.len() == 0 {
        root
    } else {
        join_with(without_subspaces(seq![root] + split_on(internal, '/')), '/')
    }
}

/// Translates a path of the reference tree, relative to its root, into the
/// path of the user tree below `user_root_path`, by dropping the subspaces
/// directories.
pub fn internal_to_user(user_root_path: &str, internal_path: &str) -> (user: String)
    ensures
        user@ == user_path(user_root_path@, internal_path@),
{
    if internal_path.is_empty() {
        return user_root_path.to_owned();
    }
    let pieces = split_str(internal_path, '/');
    let ghost parts = seq![user_root_path@] + string_views(pieces@);
    let subspaces = "MDAL_subspaces".to_owned();
    let root = user_root_path.to_owned();
    let mut out = String::new();
    let mut any = false;
    proof {
        let first = parts.take(1);
        assert(first.drop_last() =~= Seq::<Seq<char>>::empty());
        assert(first.last() == user_root_path@);
        assert(without_subspaces(Seq::<Seq<char>>::empty()) == Seq::<Seq<char>>::empty());
        assert(Seq::<Seq<char>>::empty().push(user_root_path@) =~= seq![user_root_path@]);
        assert(without_subspaces(first) =~= if user_root_path@ == subspaces_dir() {
            Seq::<Seq<char>>::empty()
        } else {
            seq![user_root_path@]
        });
    }
    if root != subspaces {
        out = root;
        any = true;
    }
    let mut i: usize = 0;
    while i < pieces.len()
        invariant
            parts == seq![user_root_path@] + string_views(pieces@),
            subspaces@ == subspaces_dir(),
            0 <= i <= pieces.len(),
            any == (without_subspaces(parts.take(i + 1)).len() > 0),
            out@ == join_with(without_subspaces(parts.take(i + 1)), '/'),
        decreases pieces.len() - i,
    {
        let piece = &pieces[i];
        let ghost kept = without_subspaces(parts.take(i + 1));
        assert(parts.take(i + 2).drop_last() =~= parts.take(i + 1));
        assert(parts.take(i + 2).last() == piece@);
        if *piece != subspaces {
            if any {
                out.append("/");
                proof {
                    reveal_strlit("/");
                }
                assert(out@ =~= join_with(kept, '/') + seq!['/']);
            }
            out.append(piece.as_str());
            any = true;
            proof {
                let grown = kept.push(piece@);
                assert(grown.drop_last() =~= kept);
                assert(out@ =~= join_with(grown, '/'));
            }
        }
        i = i + 1;
    }
    assert(parts.take(i + 1) =~= parts);
    out
}

proof fn lemma_nothing_dropped(parts: Seq<Seq<char>>)
    requires
        forall|i: int| 0 <= i < parts.len() ==> #[trigger] parts[i] != subspaces_dir(),
    ensures
        without_subspaces(parts) == parts,
    decreases parts.len(),
{
    if parts.len() > 0 {
        lemma_nothing_dropped(parts.drop_last());
        assert(parts.drop_last().push(parts.last()) =~= parts);
    }
}

proof fn lemma_join_front(first: Seq<char>, rest: Seq<Seq<char>>, sep: char)
    requires
        rest.len() >= 1,
    ensures
        join_with(seq![first] + rest, sep) == first + seq![sep] + join_with(rest, sep),
    decreases rest.len(),
{
    let all = seq![first] + rest;
    if rest.len() == 1 {
        assert(all.drop_last() =~= seq![first]);
        assert(all.last() == rest[0]);
        assert(join_with(seq![first], sep) == first);
        assert(join_with(all, sep) == first + seq![sep] + rest[0]);
    } else {
        lemma_join_front(first, rest.drop_last(), sep);
        assert(all.drop_last() =~= seq![first] + rest.drop_last());
        assert(join_with(all, sep) =~= first + seq![sep] + join_with(rest, sep));
    }
}

/// A path with no subspaces directory in it maps to the user root, a `/`,
/// and the path itself.
pub proof fn law_plain_path_kept(root: Seq<char>, internal: Seq<char>)
    requires
        internal.len() > 0,
        root != subspaces_dir(),
        forall|i: int|
            0 <= i < split_on(internal, '/').len() ==> #[trigger] split_on(internal, '/')[i]
                != subspaces_dir(),
    ensures
        user_path(root, internal) == root + seq!['/'] + internal,
{
    let pieces = split_on(internal, '/');
    let parts = seq![root] + pieces;
    assert forall|i: int| 0 <= i < parts.len() implies #[trigger] parts[i] != subspaces_dir() by {
        if i > 0 {
            assert(parts[i] == pieces[i - 1]);
        }
    }
    lemma_nothing_dropped(parts);
    crate::text::lemma_split_nonempty(internal, '/');
    lemma_join_front(root, pieces, '/');
    crate::text::lemma_join_split(internal, '/');
}

proof fn lemma_drop_concat(a: Seq<Seq<char>>, b: Seq<Seq<char>>)
    ensures
        without_subspaces(a + b) == without_subspaces(a) + without_subspaces(b),
    decreases b.len(),
{
    if b.len() == 0 {
        assert(a + b =~= a);
        assert(without_subspaces(a) + without_subspaces(b) =~= without_subspaces(a));
    } else {
        lemma_drop_concat(a, b.drop_last());
        assert((a + b).drop_last() =~= a + b.drop_last());
        assert((a + b).last() == b.last());
        let l = without_subspaces(a);
        let r = without_subspaces(b.drop_last());
        if b.last() != subspaces_dir() {
            assert((l + r).push(b.last()) =~= l + r.push(b.last()));
        }
    }
}

proof fn lemma_join_concat(x: Seq<Seq<char>>, y: Seq<Seq<char>>, sep: char)
    requires
        x.len() >= 1,
    ensures
        join_with(seq![join_with(x, sep)] + y, sep) == join_with(x + y, sep),
    decreases y.len(),
{
    let j = join_with(x, sep);
    if y.len() == 0 {
        assert(seq![j] + y =~= seq![j]);
        assert(x + y =~= x);
    } else {
        lemma_join_concat(x, y.drop_last(), sep);
        assert((seq![j] + y).drop_last() =~= seq![j] + y.drop_last());
        assert((x + y).drop_last() =~= x + y.drop_last());
        assert((seq![j] + y).last() == y.last());
        assert((x + y).last() == y.last());
    }
}

proof fn lemma_subspaces_dir_plain()
    ensures
        !subspaces_dir().contains('/'),
        subspaces_dir().len() > 0,
{
    reveal_strlit("MDAL_subspaces");
    let d = subspaces_dir();
    assert(d.len() == 14);
    assert forall|i: int| 0 <= i < d.len() implies d[i] != '/' by {}
}

/// An extra subspaces level in front of a path changes nothing: the path
/// `MDAL_subspaces/p` maps to the same user path as `p`.
pub proof fn law_subspace_level_dropped(root: Seq<char>, p: Seq<char>)
    requires
        p.len() > 0,
    ensures
        user_path(root, subspaces_dir() + seq!['/'] + p) == user_path(root, p),
{
    let d = subspaces_dir();
    lemma_subspaces_dir_plain();
    crate::text::lemma_split_concat(d, p, '/');
    crate::text::lemma_split_free(d, '/');
    let pieces = split_on(p, '/');
    assert(seq![root] + split_on(d + seq!['/'] + p, '/') =~= seq![root, d] + pieces);
    lemma_drop_concat(seq![root, d], pieces);
    lemma_drop_concat(seq![root], pieces);
    lemma_drop_concat(seq![root], seq![d]);
    assert(seq![root] + seq![d] =~= seq![root, d]);
    assert(without_subspaces(seq![d]) =~= Seq::<Seq<char>>::empty()) by {
        assert(seq![d].drop_last() =~= Seq::<Seq<char>>::empty());
        assert(without_subspaces(Seq::<Seq<char>>::empty()) == Seq::<Seq<char>>::empty());
        assert(seq![d].last() == d);
    }
    assert(without_subspaces(seq![root]) + Seq::<Seq<char>>::empty() =~= without_subspaces(seq![root]));
}

/// Translating in two steps is translating once: the user path of `b`
/// below the user path of `a` is the user path of `a/b`, when the root is
/// not itself named like the subspaces directory and neither path is empty.
pub proof fn law_translate_in_two_steps(root: Seq<char>, a: Seq<char>, b: Seq<char>)
    requires
        root != subspaces_dir(),
        a.len() > 0,
        b.len() > 0,
    ensures
        user_path(user_path(root, a), b) == user_path(root, a + seq!['/'] + b),
{
    let pa = split_on(a, '/');
    let pb = split_on(b, '/');
    lemma_drop_concat(seq![root], pa);
    assert(without_subspaces(seq![root]) =~= seq![root]) by {
        assert(seq![root].drop_last() =~= Seq::<Seq<char>>::empty());
        assert(without_subspaces(Seq::<Seq<char>>::empty()) == Seq::<Seq<char>>::empty());
        assert(seq![root].last() == root);
        assert(Seq::<Seq<char>>::empty().push(root) =~= seq![root]);
    }
    let x = without_subspaces(seq![root] + pa);
    assert(x.len() >= 1);
    let r = join_with(x, '/');
    lemma_subspaces_dir_plain();
    assert(r != subspaces_dir()) by {
        if x.len() == 1 {
            assert(x[0] == root);
        } else {
            assert(r == join_with(x.drop_last(), '/') + seq!['/'] + x.last());
            assert(r[join_with(x.drop_last(), '/').len() as int] == '/');
        }
    }
    lemma_drop_concat(seq![r], pb);
    assert(without_subspaces(seq![r]) =~= seq![r]) by {
        assert(seq![r].drop_last() =~= Seq::<Seq<char>>::empty());
        assert(without_subspaces(Seq::<Seq<char>>::empty()) == Seq::<Seq<char>>::empty());
        assert(seq![r].last() == r);
        assert(Seq::<Seq<char>>::empty().push(r) =~= seq![r]);
    }
    let y = without_subspaces(pb);
    lemma_join_concat(x, y, '/');
    crate::text::lemma_split_concat(a, b, '/');
    assert(seq![root] + split_on(a + seq!['/'] + b, '/') =~= (seq![root] + pa) + pb);
    lemma_drop_concat(seq![root] + pa, pb);
    assert(user_path(r, b) == join_with(seq![r] + y, '/'));
}

/// The root of the reference tree, where every internal path starts.
pub open spec fn reference_root() -> Seq<char> {
    "/var/marfs/mdal-root/sec-root/"@
}

/// `p` occurs in `s` starting at position `i`.
pub open spec fn occurs_at(s: Seq<char>, i: int, p: Seq<char>) -> bool {
    0 <= i && i + p.len() <= s.len() && s.subrange(i, i + p.len()) == p
}

/// The position of the first `/` in `s` at or after `j`, or the length of
/// `s` when there is none.
pub open spec fn first_slash(s: Seq<char>, j: int) -> int
    decreases s.len() - j,
{
    if j < 0 || j >= s.len() {
        s.len() as int
    } else if s[j] == '/' {
        j
    } else {
        first_slash(s, j + 1)
    }
}

/// What may follow `MDAL_` at the end of an internal path: a non-empty name
/// without `/`, or `reference` followed by anything but a line break.
pub open spec fn mdal_name(t: Seq<char>) -> bool {
    ||| (t.len() > 0 && !t.contains('/'))
    ||| (occurs_at(t, 0, "reference"@) && !t.skip("reference"@.len() as int).contains('\n'))
}

/// From position `i` on, `s` is `MDAL_` and a name as `mdal_name` says, or
/// `MDAL_subspaces/`, a non-empty name without `/`, a `/`, and again such a
/// rest.
pub open spec fn internal_from(s: Seq<char>, i: int) -> bool
    decreases s.len() - i,
{
    ||| (occurs_at(s, i, "MDAL_"@) && mdal_name(s.skip(i + "MDAL_"@.len())))
    ||| (occurs_at(s, i, "MDAL_subspaces/"@) && {
        let j = i + "MDAL_subspaces/"@.len();
        let k = first_slash(s, j);
        j < k < s.len() && internal_from(s, k + 1)
    })
}

/// The path names something internal to MarFS in the reference tree: below
/// the reference root, any number of subspace levels, then an entry whose
/// name starts with `MDAL_` (the quota file, the reference tree, the
/// subspaces directory itself).
pub open spec fn internal_path(s: Seq<char>) -> bool {
    occurs_at(s, 0, reference_root()) && internal_from(s, reference_root().len() as int)
}

/// Whether `p` occurs in `s` at position `i`.
fn occurs_at_exec(s: &Vec<char>, i: usize, p: &Vec<char>) -> (found: bool)
    ensures
        found == occurs_at(s@, i as int, p@),
{
    if i > s.len() || p.len() > s.len() - i {
        return false;
    }
    let mut k: usize = 0;
    while k < p.len()
        invariant
            i + p.len() <= s.len(),
            0 <= k <= p.len(),
            forall|t: int| 0 <= t < k ==> s@[i + t] == p@[t],
        decreases p.len() - k,
    {
        if s[i + k] != p[k] {
            assert(s@.subrange(i as int, i + p.len())[k as int] != p@[k as int]);
            return false;
        }
        k = k + 1;
    }
    assert(s@.subrange(i as int, i + p.len()) =~= p@);
    true
}

/// Whether `c` occurs in `s` at or after position `j`.
fn occurs_from(s: &Vec<char>, j: usize, c: char) -> (found: bool)
    requires
        j <= s.len(),
    ensures
        found == s@.skip(j as int).contains(c),
{
    let mut k: usize = j;
    while k < s.len()
        invariant
            j <= k <= s.len(),
            forall|t: int| j <= t < k ==> s@[t] != c,
        decreases s.len() - k,
    {
        if s[k] == c {
            assert(s@.skip(j as int)[k - j] == c);
            return true;
        }
        k = k + 1;
    }
    proof {
        if s@.skip(j as int).contains(c) {
            let t = choose|t: int| 0 <= t < s@.skip(j as int).len() && s@.skip(j as int)[t] == c;
            assert(s@[j + t] == c);
        }
    }
    false
}

/// The position of the first `/` at or after `j`, or the length of `s`.
fn first_slash_exec(s: &Vec<char>, j: usize) -> (k: usize)
    requires
        j <= s.len(),
    ensures
        k == first_slash(s@, j as int),
        j <= k <= s.len(),
{
    let mut k: usize = j;
    while k < s.len() && s[k] != '/'
        invariant
            j <= k <= s.len(),
            first_slash(s@, j as int) == first_slash(s@, k as int),
        decreases s.len() - k,
    {
        k = k + 1;
    }
    k
}

/// Whether the rest of `s` from `j` on is a name that may follow `MDAL_`.
fn mdal_name_exec(s: &Vec<char>, j: usize, reference: &Vec<char>) -> (ok: bool)
    requires
        j <= s.len(),
        reference@ == "reference"@,
    ensures
        ok == mdal_name(s@.skip(j as int)),
{
    let t = Ghost(s@.skip(j as int));
    if j < s.len() && !occurs_from(s, j, '/') {
        return true;
    }
    if !occurs_at_exec(s, j, reference) {
        assert(!occurs_at(t@, 0, "reference"@)) by {
            if occurs_at(t@, 0, "reference"@) {
                assert(s@.subrange(j as int, j + reference@.len()) =~= t@.subrange(
                    0,
                    reference@.len() as int,
                ));
            }
        }
        return false;
    }
    assert(occurs_at(t@, 0, "reference"@)) by {
        assert(s@.subrange(j as int, j + reference@.len()) =~= t@.subrange(
            0,
            reference@.len() as int,
        ));
    }
    let rest = j + reference.len();
    let bad = occurs_from(s, rest, '\n');
    assert(t@.skip(reference@.len() as int) =~= s@.skip(rest as int));
    !bad
}

/// Whether `path` is internal to MarFS: the quota file `MDAL_datasize`,
/// anything in the reference tree `MDAL_reference`, the subspaces directory
/// itself, and the like, at the top of the reference tree or in any
/// subspace. These are the paths that the pattern
/// `^/var/marfs/mdal-root/sec-root/(MDAL_subspaces/[^/]+/)*MDAL_([^/]+|reference.*)$`
/// matches (`.` stopping at a line break), as `internal_path` spells out.
pub fn is_internal(path: &str) -> (internal: bool)
    ensures
        internal == internal_path(path@),
{
    let s = chars_of(path);
    let root = chars_of("/var/marfs/mdal-root/sec-root/");
    if !occurs_at_exec(&s, 0, &root) {
        return false;
    }
    let mdal = chars_of("MDAL_");
    let subspace = chars_of("MDAL_subspaces/");
    let reference = chars_of("reference");
    let mut i: usize = root.len();
    while i <= s.len()
        invariant
            s@ == path@,
            mdal@ == "MDAL_"@,
            subspace@ == "MDAL_subspaces/"@,
            reference@ == "reference"@,
            i <= s.len(),
            internal_path(path@) == internal_from(s@, i as int),
        decreases s.len() - i,
    {
        if occurs_at_exec(&s, i, &mdal) && mdal_name_exec(&s, i + mdal.len(), &reference) {
            return true;
        }
        if !occurs_at_exec(&s, i, &subspace) {
            return false;
        }
        let j = i + subspace.len();
        let k = first_slash_exec(&s, j);
        if k == j || k == s.len() {
            return false;
        }
        i = k + 1;
    }
    false
}

} // verus!
