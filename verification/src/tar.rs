//! What goes into the archive of a task's input files, and the hash of its contents.
//!
//! Paths in the archive are relative to the container's root and normalized: components
//! joined by single slashes, with no leading or trailing slash and no `.` components.
use crate::cache::{combine, combine_hashes, hash_str, CryptoHash};
use crate::order::{lemma_lt_irreflexive, lemma_lt_total, lemma_lt_transitive, lemma_lt_asymmetric, seq_lt, str_lt};
use crate::failure::Failure;
use crate::format::{code_rendering, code_str};
use crate::strmap::StringMap;
use crate::toastfile::views;
use vstd::prelude::*;
use vstd::relations::{sorted_by, total_ordering};

verus! {

/// Whether a file with the given permission bits is executable by anyone.
pub fn is_executable_mode(mode: u32) -> (b: bool)
    ensures
        b == (mode & 0o1 != 0 || mode & 0o10 != 0 || mode & 0o100 != 0),
{
    mode & 0o1 != 0 || mode & 0o10 != 0 || mode & 0o100 != 0
}

/// The permission bits of a file in the archive: everyone may read and write it, and run
/// it if it is executable.
pub fn file_mode(executable: bool) -> (mode: u32)
    ensures
        mode == (if executable { 0o777u32 } else { 0o666u32 }),
{
    if executable {
        0o777
    } else {
        0o666
    }
}

/// A normalized absolute path relative to the root: the path without its leading slash.
pub fn strip_root_rcr(path_acr: &str) -> (path_rcr: String)
    requires
        path_acr@.len() > 0,
        path_acr@[0] == '/',
    ensures
        path_rcr@ == path_acr@.skip(1),
{
    let n = path_acr.unicode_len();
    String::from_str(path_acr.substring_char(1, n))
}

/// Whether the relative path `path` lies within `prefix` (component by component, as
/// `Path::starts_with` has it): `prefix` is empty, or equal to `path`, or a leading part of
/// it up to a slash.
pub open spec fn within(path: Seq<char>, prefix: Seq<char>) -> bool {
    ||| prefix.len() == 0
    ||| path == prefix
    ||| (path.len() > prefix.len() && path.subrange(0, prefix.len() as int) == prefix && path[prefix.len() as int] == '/')
}

fn path_within(path: &str, prefix: &str) -> (b: bool)
    ensures
        b == within(path@, prefix@),
{
    let n = path.unicode_len();
    let m = prefix.unicode_len();
    if m == 0 {
        return true;
    }
    if n < m {
        return false;
    }
    let head = path.substring_char(0, m);
    if !crate::order::str_eq(head, prefix) {
        proof {
            if n == m {
                assert(path@ =~= path@.subrange(0, m as int));
            }
        }
        return false;
    }
    if n == m {
        assert(path@ =~= path@.subrange(0, m as int));
        return true;
    }
    path.get_char(m) == '/'
}

/// `path` lies within one of `excluded`.
pub open spec fn excluded_by(excluded: Seq<Seq<char>>, path: Seq<char>) -> bool {
    exists|i: int| 0 <= i < excluded.len() && within(path, #[trigger] excluded[i])
}

/// Checks whether a path is excluded: whether it lies within one of the excluded paths.
pub fn path_excluded(excluded_input_paths_rcr: &Vec<String>, path_rcr: &str) -> (b: bool)
    ensures
        b == excluded_by(views(excluded_input_paths_rcr@), path_rcr@),
{
    let ghost ex = views(excluded_input_paths_rcr@);
    let mut i: usize = 0;
    while i < excluded_input_paths_rcr.len()
        invariant
            i <= excluded_input_paths_rcr.len(),
            ex == views(excluded_input_paths_rcr@),
            forall|j: int| 0 <= j < i ==> !within(path_rcr@, #[trigger] ex[j]),
        decreases excluded_input_paths_rcr.len() - i,
    {
        if path_within(path_rcr, excluded_input_paths_rcr[i].as_str()) {
            assert(within(path_rcr@, ex[i as int]));
            return true;
        }
        i = i + 1;
    }
    false
}

/// Checks whether a path can be added to the archive, and marks it as visited: it can be
/// when it was not visited before and is not excluded.
pub fn can_add_path(visited_paths_rcr: &mut StringMap<()>, excluded_input_paths_rcr: &Vec<String>, path_rcr: &str) -> (b: bool)
    ensures
        final(visited_paths_rcr)@.dom() == old(visited_paths_rcr)@.dom().insert(path_rcr@),
        b == (!old(visited_paths_rcr)@.dom().contains(path_rcr@) && !excluded_by(views(excluded_input_paths_rcr@), path_rcr@)),
{
    if visited_paths_rcr.contains_key(path_rcr) {
        visited_paths_rcr.insert(String::from_str(path_rcr), ());
        assert(visited_paths_rcr@.dom() =~= old(visited_paths_rcr)@.dom().insert(path_rcr@));
        return false;
    }
    visited_paths_rcr.insert(String::from_str(path_rcr), ());
    !path_excluded(excluded_input_paths_rcr, path_rcr)
}

/// The position of the last slash in `p`, or -1 if there is none.
pub open spec fn last_slash(p: Seq<char>) -> int
    decreases p.len(),
{
    if p.len() == 0 {
        -1
    } else if p.last() == '/' {
        p.len() - 1
    } else {
        last_slash(p.drop_last())
    }
}

/// The last slash is a slash, and none follows it.
pub proof fn lemma_last_slash(p: Seq<char>)
    ensures
        -1 <= last_slash(p) < p.len(),
        last_slash(p) >= 0 ==> p[last_slash(p)] == '/',
        forall|k: int| last_slash(p) < k < p.len() ==> p[k] != '/',
    decreases p.len(),
{
    if p.len() > 0 && p.last() != '/' {
        lemma_last_slash(p.drop_last());
        assert forall|k: int| last_slash(p) < k < p.len() implies p[k] != '/' by {
            if k < p.len() - 1 {
                assert(p.drop_last()[k] == p[k]);
            }
        }
    }
}

/// The parent of a normalized relative path: everything before its last slash, or the
/// empty path if it has a single component.
pub open spec fn parent(p: Seq<char>) -> Seq<char> {
    if last_slash(p) < 0 {
        Seq::empty()
    } else {
        p.subrange(0, last_slash(p))
    }
}

/// `q`, then its parent, and so on up to the empty path.
pub open spec fn lineage(q: Seq<char>) -> Seq<Seq<char>>
    decreases q.len(),
{
    if q.len() == 0 {
        seq![q]
    } else {
        proof { lemma_last_slash(q); }
        seq![q] + lineage(parent(q))
    }
}

/// The directories above a normalized relative path, nearest first, down to the empty
/// path (the root); a path with no parent has none.
pub open spec fn ancestor_dirs(p: Seq<char>) -> Seq<Seq<char>> {
    if p.len() == 0 {
        Seq::empty()
    } else {
        lineage(parent(p))
    }
}

fn parent_of(p: &str) -> (r: String)
    ensures
        r@ == parent(p@),
        p@.len() > 0 ==> r@.len() < p@.len(),
{
    proof { lemma_last_slash(p@); }
    let n = p.unicode_len();
    let mut i: usize = n;
    while i > 0
        invariant
            i <= n,
            n == p@.len(),
            forall|k: int| i <= k < n ==> p@[k] != '/',
        decreases i,
    {
        if p.get_char(i - 1) == '/' {
            assert(last_slash(p@) == i - 1) by {
                lemma_last_slash(p@);
                if last_slash(p@) > i - 1 {
                    assert(p@[last_slash(p@)] == '/');
                }
            }
            return String::from_str(p.substring_char(0, i - 1));
        }
        i = i - 1;
    }
    assert(last_slash(p@) < 0) by {
        lemma_last_slash(p@);
        if last_slash(p@) >= 0 {
            assert(p@[last_slash(p@)] == '/');
        }
    }
    String::new()
}

/// The directories above a path, nearest first, down to the root (the empty path).
pub fn ancestors(path_rcr: &str) -> (dirs: Vec<String>)
    ensures
        views(dirs@) == ancestor_dirs(path_rcr@),
{
    let mut dirs: Vec<String> = Vec::new();
    if path_rcr.unicode_len() == 0 {
        assert(views(dirs@) =~= Seq::<Seq<char>>::empty());
        return dirs;
    }
    let mut q = parent_of(path_rcr);
    loop
        invariant
            views(dirs@) + lineage(q@) == ancestor_dirs(path_rcr@),
        decreases q@.len(),
    {
        let ghost before = views(dirs@);
        let ghost q0 = q@;
        let done = q.as_str().unicode_len() == 0;
        let next = parent_of(q.as_str());
        dirs.push(q);
        assert(views(dirs@) =~= before.push(q0));
        if done {
            assert(lineage(q0) =~= seq![q0]);
            assert(views(dirs@) =~= before + lineage(q0));
            return dirs;
        }
        assert(lineage(q0) =~= seq![q0] + lineage(next@));
        assert(views(dirs@) + lineage(next@) =~= before + lineage(q0));
        q = next;
    }
}

/// The directories among `ds` that are added to the archive, in order: each one that is not
/// visited yet (counting those before it in `ds` as visited) and not excluded.
pub open spec fn fresh_dirs(ds: Seq<Seq<char>>, visited: Set<Seq<char>>, ex: Seq<Seq<char>>) -> Seq<Seq<char>>
    decreases ds.len(),
{
    if ds.len() == 0 {
        Seq::empty()
    } else {
        let d = ds[0];
        let rest = fresh_dirs(ds.drop_first(), visited.insert(d), ex);
        if !visited.contains(d) && !excluded_by(ex, d) {
            seq![d] + rest
        } else {
            rest
        }
    }
}

/// Decides whether a path found while writing the archive is added: it is skipped (`None`)
/// when it was visited before or is excluded. Otherwise the result lists the directories
/// above it to add first, nearest first: each one not visited yet and not excluded. The path
/// and all the directories above it are marked as visited either way.
pub fn admission(visited_paths_rcr: &mut StringMap<()>, excluded_input_paths_rcr: &Vec<String>, path_rcr: &str) -> (r: Option<Vec<String>>)
    ensures
        ({
            let v0 = old(visited_paths_rcr)@.dom();
            let ex = views(excluded_input_paths_rcr@);
            &&& r is Some <==> (!v0.contains(path_rcr@) && !excluded_by(ex, path_rcr@))
            &&& r is None ==> final(visited_paths_rcr)@.dom() == v0.insert(path_rcr@)
            &&& r matches Some(dirs) ==> {
                &&& views(dirs@) == fresh_dirs(ancestor_dirs(path_rcr@), v0.insert(path_rcr@), ex)
                &&& final(visited_paths_rcr)@.dom() == v0.insert(path_rcr@).union(ancestor_dirs(path_rcr@).to_set())
            }
        }),
{
    let ghost ex = views(excluded_input_paths_rcr@);
    if !can_add_path(visited_paths_rcr, excluded_input_paths_rcr, path_rcr) {
        return None;
    }
    let ds = ancestors(path_rcr);
    let ghost dv = views(ds@);
    let ghost v1 = visited_paths_rcr@.dom();
    let mut dirs: Vec<String> = Vec::new();
    let mut i: usize = 0;
    assert(dv.skip(0) =~= dv);
    assert(dv.take(0).to_set() =~= Set::<Seq<char>>::empty());
    assert(v1.union(dv.take(0).to_set()) =~= v1);
    assert(views(dirs@) =~= Seq::<Seq<char>>::empty());
    while i < ds.len()
        invariant
            i <= ds.len(),
            dv == views(ds@),
            ex == views(excluded_input_paths_rcr@),
            visited_paths_rcr@.dom() == v1.union(dv.take(i as int).to_set()),
            views(dirs@) + fresh_dirs(dv.skip(i as int), visited_paths_rcr@.dom(), ex) == fresh_dirs(dv, v1, ex),
        decreases ds.len() - i,
    {
        let ghost vnow = visited_paths_rcr@.dom();
        let ghost before = views(dirs@);
        let d = &ds[i];
        proof {
            assert(dv.skip(i as int)[0] == d@);
            assert(dv.skip(i as int).drop_first() =~= dv.skip(i + 1));
        }
        if can_add_path(visited_paths_rcr, excluded_input_paths_rcr, d.as_str()) {
            dirs.push(d.clone());
            assert(views(dirs@) =~= before.push(d@));
            assert(before + (seq![d@] + fresh_dirs(dv.skip(i + 1), vnow.insert(d@), ex)) =~= views(dirs@) + fresh_dirs(dv.skip(i + 1), vnow.insert(d@), ex));
        }
        proof {
            assert(dv.take(i + 1) =~= dv.take(i as int).push(d@));
            assert(dv.take(i + 1).to_set() =~= dv.take(i as int).to_set().insert(d@)) by {
                assert forall|y: Seq<char>| dv.take(i + 1).to_set().contains(y) <==> dv.take(i as int).to_set().insert(d@).contains(y) by {
                    let t0 = dv.take(i as int);
                    let t1 = dv.take(i + 1);
                    if t1.contains(y) {
                        let j = choose|j: int| 0 <= j < t1.len() && t1[j] == y;
                        if j < i {
                            assert(t0[j] == y);
                        }
                    }
                    if t0.contains(y) {
                        let j = choose|j: int| 0 <= j < t0.len() && t0[j] == y;
                        assert(t1[j] == y);
                    }
                    if y == d@ {
                        assert(t1[i as int] == y);
                    }
                }
            }
            assert(visited_paths_rcr@.dom() =~= v1.union(dv.take(i + 1).to_set()));
        }
        i = i + 1;
    }
    proof {
        assert(dv.skip(ds.len() as int) =~= Seq::<Seq<char>>::empty());
        assert(dv.take(ds.len() as int) =~= dv);
        assert(views(dirs@) =~= fresh_dirs(dv, v1, ex));
    }
    Some(dirs)
}

/// What kind of file system object a path of the archive is, with what its hash needs: a
/// file with the hash of its contents and whether it is executable, a symbolic link with
/// its target, a directory, or something else.
#[derive(Debug, PartialEq, Eq)]
pub enum EntryKind {
    File(String, bool),
    Symlink(String),
    Directory,
    Other,
}

/// The hash that stands for an entry of the archive, by its kind; an object that is not a
/// file, a directory or a symbolic link is refused, naming its path `path_cd` on the host.
pub fn entry_hash(path_rcr: &str, path_cd: &str, kind: &EntryKind) -> (r: Result<String, Failure>)
    ensures
        match *kind {
            EntryKind::File(contents, executable) => r matches Ok(h) && h@ == file_entry(path_rcr@, contents@, executable),
            EntryKind::Symlink(target) => r matches Ok(h) && h@ == combine_hashes(hash_str(path_rcr@), hash_str(target@)),
            EntryKind::Directory => r matches Ok(h) && h@ == hash_str(path_rcr@),
            EntryKind::Other => r matches Err(Failure::User(m, None)) && exists|c: Seq<char>| #[trigger] code_rendering(c, path_cd@)
                && m@ == c + " is not a file, directory, or symbolic link."@,
        },
{
    match kind {
        EntryKind::File(contents, executable) => Ok(file_hash(path_rcr, contents.as_str(), *executable)),
        EntryKind::Symlink(target) => Ok(symlink_hash(path_rcr, target.as_str())),
        EntryKind::Directory => Ok(directory_hash(path_rcr)),
        EntryKind::Other => {
            proof { reveal_strlit(" is not a file, directory, or symbolic link."); }
            let c = code_str(path_cd);
            let mut m = c.clone();
            m.append(" is not a file, directory, or symbolic link.");
            assert(code_rendering(c@, path_cd@));
            Err(Failure::User(m, None))
        },
    }
}

/// The entry of a file in the hash of the archive: its path, the hash of its contents, and
/// whether it is executable, combined.
pub open spec fn file_entry(path: Seq<char>, contents_hash: Seq<char>, executable: bool) -> Seq<char> {
    combine_hashes(
        hash_str(combine_hashes(hash_str(hash_str(path)), hash_str(contents_hash))),
        hash_str(if executable { "+x"@ } else { "-x"@ }),
    )
}

/// The hash that stands for a file: its path, the hash of its contents, and whether it is
/// executable, combined.
pub fn file_hash(path_rcr: &str, contents_hash: &str, executable: bool) -> (h: String)
    ensures
        h@ == file_entry(path_rcr@, contents_hash@, executable),
{
    let inner = combine(&path_rcr.crypto_hash(), contents_hash);
    proof {
        reveal_strlit("+x");
        reveal_strlit("-x");
    }
    if executable {
        combine(&inner, "+x")
    } else {
        combine(&inner, "-x")
    }
}

/// The hash that stands for a symbolic link: its path and its target, combined.
pub fn symlink_hash(path_rcr: &str, target: &str) -> (h: String)
    ensures
        h@ == combine_hashes(hash_str(path_rcr@), hash_str(target@)),
{
    combine(path_rcr, target)
}

/// The hash that stands for a directory: the hash of its path.
pub fn directory_hash(path_rcr: &str) -> (h: String)
    ensures
        h@ == hash_str(path_rcr@),
{
    path_rcr.crypto_hash()
}

/// The order in which the entry hashes are taken: lexicographic.
pub open spec fn text_le() -> spec_fn(Seq<char>, Seq<char>) -> bool {
    |a: Seq<char>, b: Seq<char>| a == b || seq_lt(a, b)
}

/// The lexicographic order is a total order.
pub proof fn lemma_text_le_total()
    ensures
        total_ordering(text_le()),
{
    let le = text_le();
    assert forall|a: Seq<char>, b: Seq<char>| #[trigger] le(a, b) && #[trigger] le(b, a) implies a == b by {
        if a != b {
            lemma_lt_asymmetric(a, b);
        }
    }
    assert forall|a: Seq<char>, b: Seq<char>, c: Seq<char>| #[trigger] le(a, b) && #[trigger] le(b, c) implies le(a, c) by {
        if a != b && b != c {
            lemma_lt_transitive(a, b, c);
        }
    }
    assert forall|a: Seq<char>, b: Seq<char>| #[trigger] le(a, b) || #[trigger] le(b, a) by {
        lemma_lt_total(a, b);
    }
}

/// The combination of `hashes`, one after another, starting from the empty string.
pub open spec fn fold_combine(hashes: Seq<Seq<char>>) -> Seq<char>
    decreases hashes.len(),
{
    if hashes.len() == 0 {
        Seq::empty()
    } else {
        combine_hashes(hash_str(fold_combine(hashes.drop_last())), hash_str(hashes.last()))
    }
}

/// The hash of an archive's contents: the entry hashes in lexicographic order, combined one
/// after another, starting from the empty string.
pub open spec fn contents_hash(hashes: Seq<Seq<char>>) -> Seq<char> {
    fold_combine(hashes.sort_by(text_le()))
}

/// Sorts the strings in lexicographic order.
fn sort_strings(v: Vec<String>) -> (r: Vec<String>)
    ensures
        views(r@).to_multiset() == views(v@).to_multiset(),
        sorted_by(views(r@), text_le()),
{
    let mut r: Vec<String> = Vec::new();
    let mut i: usize = 0;
    let ghost vv = views(v@);
    broadcast use vstd::multiset::group_multiset_axioms;
    assert(views(r@) =~= Seq::<Seq<char>>::empty());
    assert(vv.subrange(0, 0) =~= Seq::<Seq<char>>::empty());
    while i < v.len()
        invariant
            i <= v.len(),
            vv == views(v@),
            views(r@).to_multiset() == vv.subrange(0, i as int).to_multiset(),
            sorted_by(views(r@), text_le()),
        decreases v.len() - i,
    {
        let x = v[i].clone();
        let ghost rv = views(r@);
        let mut j: usize = 0;
        while j < r.len() && str_lt(r[j].as_str(), x.as_str())
            invariant
                j <= r.len(),
                rv == views(r@),
                forall|k: int| 0 <= k < j ==> seq_lt(#[trigger] rv[k], x@),
            decreases r.len() - j,
        {
            j = j + 1;
        }
        proof {
            let le = text_le();
            let t = rv.insert(j as int, x@);
            if j < r.len() {
                lemma_lt_total(rv[j as int], x@);
            }
            assert forall|p: int, q: int| 0 <= p < q < t.len() implies #[trigger] le(t[p], t[q]) by {
                if p < j && q == j {
                } else if p < j && q > j {
                    assert(le(rv[j as int], rv[q - 1]));
                    assert(le(x@, rv[j as int]));
                    if rv[j as int] != rv[q - 1] {
                        if x@ != rv[j as int] {
                            lemma_lt_transitive(x@, rv[j as int], rv[q - 1]);
                        }
                    }
                    assert(le(x@, rv[q - 1]));
                    if x@ != rv[q - 1] {
                        lemma_lt_transitive(rv[p], x@, rv[q - 1]);
                    }
                } else if p == j {
                    if q - 1 > j {
                        assert(le(rv[j as int], rv[q - 1]));
                        if rv[j as int] != rv[q - 1] && x@ != rv[j as int] {
                            lemma_lt_transitive(x@, rv[j as int], rv[q - 1]);
                        }
                    }
                } else if p < j && q < j {
                    assert(le(rv[p], rv[q]));
                } else {
                    assert(le(rv[p - 1], rv[q - 1]));
                }
            }
            vstd::seq_lib::to_multiset_insert(rv, j as int, x@);
            vstd::seq_lib::to_multiset_build(vv.subrange(0, i as int), vv[i as int]);
        }
        r.insert(j, x);
        assert(views(r@) =~= rv.insert(j as int, v@[i as int]@));
        assert(vv.subrange(0, i + 1) =~= vv.subrange(0, i as int).push(vv[i as int]));
        i = i + 1;
    }
    assert(vv.subrange(0, v.len() as int) =~= vv);
    r
}

/// Combines the hashes of an archive's entries into the hash of its contents. The hashes
/// are sorted first, so the order in which the entries were found does not matter.
pub fn combine_contents(hashes: Vec<String>) -> (h: String)
    ensures
        h@ == contents_hash(views(hashes@)),
{
    let sorted = sort_strings(hashes);
    proof {
        lemma_text_le_total();
        views(hashes@).lemma_sort_by_ensures(text_le());
        vstd::seq_lib::lemma_sorted_unique(views(sorted@), views(hashes@).sort_by(text_le()), text_le());
    }
    let ghost s = views(sorted@);
    let mut acc = String::new();
    let mut i: usize = 0;
    while i < sorted.len()
        invariant
            i <= sorted.len(),
            s == views(sorted@),
            acc@ == fold_combine(s.subrange(0, i as int)),
        decreases sorted.len() - i,
    {
        let next = combine(&acc, &sorted[i]);
        assert(s.subrange(0, i + 1).drop_last() =~= s.subrange(0, i as int));
        acc = next;
        i = i + 1;
    }
    assert(s.subrange(0, sorted.len() as int) =~= s);
    acc
}

/// The hash of an archive's contents does not depend on the order in which its entries
/// were found.
pub proof fn lemma_contents_hash_order(a: Seq<Seq<char>>, b: Seq<Seq<char>>)
    requires
        a.to_multiset() == b.to_multiset(),
    ensures
        contents_hash(a) == contents_hash(b),
{
    lemma_text_le_total();
    a.lemma_sort_by_ensures(text_le());
    b.lemma_sort_by_ensures(text_le());
    vstd::seq_lib::lemma_sorted_unique(a.sort_by(text_le()), b.sort_by(text_le()), text_le());
}

} // verus!
