//! The command line's decisions: which files are Rust sources, which Cargo
//! packages are formatted, and what a batch run writes and how it exits.
use vstd::prelude::*;

use crate::text::{chars_of, push_all, push_word, string_of};

verus! {

// ---------------------------------------------------------------------------
// Rust files.
// ---------------------------------------------------------------------------

/// The index of the last `c` in `s`, if any.
pub open spec fn last_index(s: Seq<char>, c: char) -> Option<int>
    decreases s.len(),
{
    if s.len() == 0 {
        None
    } else if s.last() == c {
        Some(s.len() - 1)
    } else {
        last_index(s.drop_last(), c)
    }
}

pub proof fn lemma_last_index(s: Seq<char>, c: char)
    ensures
        last_index(s, c) matches Some(k) ==> 0 <= k < s.len() && s[k] == c,
    decreases s.len(),
{
    if s.len() > 0 && s.last() != c {
        lemma_last_index(s.drop_last(), c);
    }
}

fn last_index_exec(s: &[char], c: char) -> (r: Option<usize>)
    ensures
        match r {
            Some(k) => last_index(s@, c) == Some(k as int),
            None => last_index(s@, c) is None,
        },
{
    let mut n = s.len();
    assert(s@.subrange(0, n as int) =~= s@);
    while n > 0
        invariant
            n <= s@.len(),
            last_index(s@.subrange(0, n as int), c) == last_index(s@, c),
        decreases n,
    {
        assert(s@.subrange(0, n as int).drop_last() =~= s@.subrange(0, n - 1));
        if s[n - 1] == c {
            return Some(n - 1);
        }
        n = n - 1;
    }
    None
}

/// The extension of a file name: the text after its last `.`, where a name
/// that has no `.` after its first character has none.
pub open spec fn extension(name: Seq<char>) -> Option<Seq<char>> {
    match last_index(name, '.') {
        Some(k) => if k > 0 {
            Some(name.subrange(k + 1, name.len() as int))
        } else {
            None
        },
        None => None,
    }
}

/// Whether a file with this name is a Rust source: its extension is `rs`.
pub fn is_rust_file_name(name: &str) -> (b: bool)
    ensures
        b == (extension(name@) == Some(['r', 's']@)),
{
    let text = chars_of(name);
    proof {
        lemma_last_index(text@, '.');
    }
    match last_index_exec(text.as_slice(), '.') {
        Some(k) => {
            if k == 0 {
                return false;
            }
            let n = text.len();
            let b = n - k == 3 && text[k + 1] == 'r' && text[k + 2] == 's';
            proof {
                if b {
                    assert(text@.subrange(k + 1, n as int) =~= ['r', 's']@);
                } else if text@.subrange(k + 1, n as int) == ['r', 's']@ {
                    assert(text@.subrange(k + 1, n as int).len() == 2);
                    assert(text@.subrange(k + 1, n as int)[0] == text@[k + 1]);
                    assert(text@.subrange(k + 1, n as int)[1] == text@[k + 2]);
                }
            }
            b
        },
        None => false,
    }
}

// ---------------------------------------------------------------------------
// Checking and batches.
// ---------------------------------------------------------------------------

/// The exit status of a check of one text: success when formatting leaves it
/// as it is, 1 when it would change.
pub fn check_status(source: &str, formatted: &str) -> (code: u8)
    ensures
        code == (if source@ == formatted@ { 0u8 } else { 1u8 }),
{
    let a = string_of(chars_of(source).as_slice());
    let b = string_of(chars_of(formatted).as_slice());
    if a == b {
        0
    } else {
        1
    }
}

/// What a run over files does: the files to write (or, when checking, to
/// list) by index, the error messages to print, and the exit status.
pub struct BatchPlan {
    pub changed: Vec<usize>,
    pub errors: Vec<String>,
    pub write: bool,
    pub status: u8,
}

/// The indices `i` from `k` on whose result is a text other than the source.
pub open spec fn changed_from(sources: Seq<String>, results: Seq<Result<String, String>>, k: int) -> Seq<int>
    decreases results.len() - k,
{
    if k < 0 || k >= results.len() || k >= sources.len() {
        seq![]
    } else {
        let rest = changed_from(sources, results, k + 1);
        match results[k] {
            Ok(f) => if f@ != sources[k]@ {
                seq![k].add(rest)
            } else {
                rest
            },
            Err(_) => rest,
        }
    }
}

/// The error messages of the results from `k` on, in order.
pub open spec fn errors_from(results: Seq<Result<String, String>>, k: int) -> Seq<Seq<char>>
    decreases results.len() - k,
{
    if k < 0 || k >= results.len() {
        seq![]
    } else {
        match results[k] {
            Ok(_) => errors_from(results, k + 1),
            Err(m) => seq![m@].add(errors_from(results, k + 1)),
        }
    }
}

/// The plan for a run over files: any error (one reading a file included)
/// prints the errors, writes nothing and exits with 2; a check lists the
/// files that would change and exits with 1 when there are any; otherwise
/// the changed files are written and the run succeeds.
pub open spec fn batch_plan(
    sources: Seq<String>,
    results: Seq<Result<String, String>>,
    read_failed: bool,
    check: bool,
) -> (Seq<int>, Seq<Seq<char>>, bool, u8) {
    let changed = changed_from(sources, results, 0);
    let errors = errors_from(results, 0);
    let failed = read_failed || errors.len() > 0;
    let status: u8 = if failed {
        2
    } else if check && changed.len() > 0 {
        1
    } else {
        0
    };
    (changed, errors, !failed && !check, status)
}

/// Plans a run over files from their sources and formatting results.
pub fn plan_batch(sources: &Vec<String>, results: &Vec<Result<String, String>>, read_failed: bool, check: bool) -> (r:
    BatchPlan)
    requires
        sources@.len() == results@.len(),
    ensures
        (r.changed@.map_values(|i: usize| i as int), r.errors@.map_values(|m: String| m@), r.write, r.status)
            == batch_plan(sources@, results@, read_failed, check),
{
    let n = results.len();
    let mut changed: Vec<usize> = Vec::new();
    let mut errors: Vec<String> = Vec::new();
    let mut k = n;
    while k > 0
        invariant
            n == results@.len(),
            n == sources@.len(),
            k <= n,
            changed@.map_values(|i: usize| i as int) == changed_from(sources@, results@, k as int),
            errors@.map_values(|m: String| m@) == errors_from(results@, k as int),
        decreases k,
    {
        let i = k - 1;
        match &results[i] {
            Ok(f) => {
                if *f != sources[i] {
                    let mut next: Vec<usize> = Vec::new();
                    next.push(i);
                    let ghost before = changed@;
                    let mut j: usize = 0;
                    while j < changed.len()
                        invariant
                            j <= changed@.len(),
                            changed@ == before,
                            next@ == seq![i].add(before.take(j as int)),
                        decreases changed@.len() - j,
                    {
                        next.push(changed[j]);
                        assert(seq![i].add(before.take(j + 1)) =~= seq![i].add(before.take(j as int)).push(before[j as int]));
                        j = j + 1;
                    }
                    assert(before.take(before.len() as int) =~= before);
                    assert(next@.map_values(|x: usize| x as int) =~= seq![i as int].add(before.map_values(|x: usize| x as int)));
                    changed = next;
                }
            },
            Err(m) => {
                let mut next: Vec<String> = Vec::new();
                next.push(m.clone());
                let ghost before = errors@;
                let mut j: usize = 0;
                while j < errors.len()
                    invariant
                        j <= errors@.len(),
                        errors@ == before,
                        next@.len() == j + 1,
                        next@[0]@ == m@,
                        forall|x: int| 0 < x <= j ==> #[trigger] next@[x]@ == before[x - 1]@,
                    decreases errors@.len() - j,
                {
                    next.push(errors[j].clone());
                    j = j + 1;
                }
                assert(next@.map_values(|s: String| s@) =~= seq![m@].add(before.map_values(|s: String| s@)));
                errors = next;
            },
        }
        k = i;
    }
    let failed = read_failed || errors.len() > 0;
    let status: u8 = if failed {
        2
    } else if check && changed.len() > 0 {
        1
    } else {
        0
    };
    BatchPlan { changed, errors, write: !failed && !check, status }
}

// ---------------------------------------------------------------------------
// Cargo packages.
// ---------------------------------------------------------------------------

/// A package as `cargo metadata` lists it: its id, its name and manifest
/// path when given as strings, and whether it has no source (a local package).
pub struct Package {
    pub id: String,
    pub name: Option<String>,
    pub manifest_path: Option<String>,
    pub local: bool,
}

pub open spec fn opt_view(o: Option<String>) -> Option<Seq<char>> {
    match o {
        Some(s) => Some(s@),
        None => None,
    }
}

/// Whether `x` is one of `xs`.
pub open spec fn listed(xs: Seq<String>, x: Seq<char>) -> bool {
    exists|i: int| 0 <= i < xs.len() && #[trigger] xs[i]@ == x
}

/// The ids of the workspace members named `name`, from package `k` on, after `acc`.
pub open spec fn named(packages: Seq<Package>, members: Seq<String>, name: Seq<char>, k: int, acc: Seq<Seq<char>>) -> Seq<Seq<char>>
    decreases packages.len() - k,
{
    if k < 0 || k >= packages.len() {
        acc
    } else if listed(members, packages[k].id@) && opt_view(packages[k].name) == Some(name) {
        named(packages, members, name, k + 1, acc.push(packages[k].id@))
    } else {
        named(packages, members, name, k + 1, acc)
    }
}

/// "package `{spec}` is not a member of this workspace"
pub open spec fn not_member_message(spec: Seq<char>) -> Seq<char> {
    ['p', 'a', 'c', 'k', 'a', 'g', 'e', ' ', '`']@ + spec + ['`', ' ', 'i', 's', ' ', 'n', 'o', 't', ' ', 'a', ' ', 'm', 'e', 'm', 'b', 'e', 'r', ' ', 'o', 'f', ' ', 't', 'h', 'i', 's', ' ', 'w', 'o', 'r', 'k', 's', 'p', 'a', 'c', 'e']@
}

/// "package specification `{spec}` is ambiguous"
pub open spec fn ambiguous_message(spec: Seq<char>) -> Seq<char> {
    ['p', 'a', 'c', 'k', 'a', 'g', 'e', ' ', 's', 'p', 'e', 'c', 'i', 'f', 'i', 'c', 'a', 't', 'i', 'o', 'n', ' ', '`']@ + spec + ['`', ' ', 'i', 's', ' ', 'a', 'm', 'b', 'i', 'g', 'u', 'o', 'u', 's']@
}

/// The packages that the specifications from `k` on select, after `acc`:
/// each must name exactly one workspace member.
pub open spec fn by_specs(packages: Seq<Package>, members: Seq<String>, specs: Seq<String>, k: int, acc: Seq<Seq<char>>) -> Result<
    Seq<Seq<char>>,
    Seq<char>,
>
    decreases specs.len() - k,
{
    if k < 0 || k >= specs.len() {
        Ok(acc)
    } else {
        let found = named(packages, members, specs[k]@, 0, seq![]);
        if found.len() == 0 {
            Err(not_member_message(specs[k]@))
        } else if found.len() > 1 {
            Err(ambiguous_message(specs[k]@))
        } else {
            by_specs(packages, members, specs, k + 1, acc.push(found[0]))
        }
    }
}

/// The ids of the local packages from `k` on, after `acc`.
pub open spec fn local_ids(packages: Seq<Package>, k: int, acc: Seq<Seq<char>>) -> Seq<Seq<char>>
    decreases packages.len() - k,
{
    if k < 0 || k >= packages.len() {
        acc
    } else if packages[k].local {
        local_ids(packages, k + 1, acc.push(packages[k].id@))
    } else {
        local_ids(packages, k + 1, acc)
    }
}

/// Whether package `p` is a workspace member with a manifest directory `dir`
/// that holds the current directory (`inside`, what was found of `dir`).
pub open spec fn encloses(p: Package, members: Seq<String>, dir: Option<Seq<char>>, inside: bool) -> bool {
    listed(members, p.id@) && dir is Some && inside
}

/// The byte length of a package's manifest path (0 when it has none).
pub open spec fn manifest_len(p: Package) -> nat {
    match opt_view(p.manifest_path) {
        Some(m) => crate::text::sat(crate::text::byte_len(m) as int),
        None => 0,
    }
}

/// The index of the member package whose directory holds the current
/// directory and whose manifest path is longest (the last of equals),
/// scanning from `k` with `best` the choice so far; `dirs[k]` is the
/// directory of package `k` and `inside[k]` whether it holds the current
/// directory.
pub open spec fn enclosing(
    packages: Seq<Package>,
    members: Seq<String>,
    dirs: Seq<Option<Seq<char>>>,
    inside: Seq<bool>,
    k: int,
    best: Option<int>,
) -> Option<int>
    decreases packages.len() - k,
{
    if k < 0 || k >= packages.len() {
        best
    } else {
        let take = encloses(packages[k], members, dirs[k], inside[k]) && match best {
            None => true,
            Some(b) => manifest_len(packages[k]) >= manifest_len(packages[b]),
        };
        enclosing(packages, members, dirs, inside, k + 1, if take { Some(k) } else { best })
    }
}

/// The ids of the selected packages: the named ones; with `all`, the local
/// ones; else the member whose directory holds the current directory, or the
/// workspace's default members when none does.
pub open spec fn selected(
    packages: Seq<Package>,
    members: Seq<String>,
    default_members: Seq<String>,
    specs: Seq<String>,
    all: bool,
    dirs: Seq<Option<Seq<char>>>,
    inside: Seq<bool>,
) -> Result<Seq<Seq<char>>, Seq<char>> {
    if specs.len() > 0 {
        by_specs(packages, members, specs, 0, seq![])
    } else if all {
        Ok(local_ids(packages, 0, seq![]))
    } else {
        match enclosing(packages, members, dirs, inside, 0, None) {
            Some(i) => Ok(seq![packages[i].id@]),
            None => Ok(default_members.map_values(|m: String| m@)),
        }
    }
}

/// "cargo metadata returned an invalid manifest path"
pub open spec fn invalid_manifest_message() -> Seq<char> {
    ['c', 'a', 'r', 'g', 'o', ' ', 'm', 'e', 't', 'a', 'd', 'a', 't', 'a', ' ', 'r', 'e', 't', 'u', 'r', 'n', 'e', 'd', ' ', 'a', 'n', ' ', 'i', 'n', 'v', 'a', 'l', 'i', 'd', ' ', 'm', 'a', 'n', 'i', 'f', 'e', 's', 't', ' ', 'p', 'a', 't', 'h']@
}

/// The directories of the selected packages from `k` on, in package order,
/// after `acc`.
pub open spec fn roots_from(
    packages: Seq<Package>,
    chosen: Seq<Seq<char>>,
    dirs: Seq<Option<Seq<char>>>,
    k: int,
    acc: Seq<Seq<char>>,
) -> Result<
    Seq<Seq<char>>,
    Seq<char>,
>
    decreases packages.len() - k,
{
    if k < 0 || k >= packages.len() {
        Ok(acc)
    } else if chosen.contains(packages[k].id@) {
        match dirs[k] {
            Some(dir) => roots_from(packages, chosen, dirs, k + 1, acc.push(dir)),
            None => Err(invalid_manifest_message()),
        }
    } else {
        roots_from(packages, chosen, dirs, k + 1, acc)
    }
}

/// The directories to format for a Cargo selection, given the directory of
/// each package's manifest (`dirs`) and whether it holds the current
/// directory (`inside`).
pub open spec fn package_roots(
    packages: Seq<Package>,
    members: Seq<String>,
    default_members: Seq<String>,
    specs: Seq<String>,
    all: bool,
    dirs: Seq<Option<Seq<char>>>,
    inside: Seq<bool>,
) -> Result<Seq<Seq<char>>, Seq<char>> {
    match selected(packages, members, default_members, specs, all, dirs, inside) {
        Err(e) => Err(e),
        Ok(chosen) => roots_from(packages, chosen, dirs, 0, seq![]),
    }
}

/// The texts of optional strings.
pub open spec fn opt_views(v: Seq<Option<String>>) -> Seq<Option<Seq<char>>> {
    v.map_values(|o: Option<String>| opt_view(o))
}

pub open spec fn views(v: Seq<String>) -> Seq<Seq<char>> {
    v.map_values(|s: String| s@)
}

proof fn lemma_views_push(v: Seq<String>, x: String)
    ensures
        views(v.push(x)) == views(v).push(x@),
{
    assert(views(v.push(x)) =~= views(v).push(x@));
}

fn listed_exec(xs: &Vec<String>, x: &String) -> (b: bool)
    ensures
        b == listed(xs@, x@),
        b == views(xs@).contains(x@),
{
    let mut i: usize = 0;
    while i < xs.len()
        invariant
            i <= xs@.len(),
            forall|j: int| 0 <= j < i ==> xs@[j]@ != x@,
        decreases xs@.len() - i,
    {
        if xs[i] == *x {
            assert(xs@[i as int]@ == x@);
            assert(views(xs@)[i as int] == x@);
            return true;
        }
        i = i + 1;
    }
    assert forall|j: int| 0 <= j < views(xs@).len() implies views(xs@)[j] != x@ by {
        assert(views(xs@)[j] == xs@[j]@);
    }
    false
}

fn named_exec(packages: &Vec<Package>, members: &Vec<String>, name: &String) -> (r: Vec<String>)
    ensures
        views(r@) == named(packages@, members@, name@, 0, seq![]),
{
    let mut out: Vec<String> = Vec::new();
    let mut k: usize = 0;
    assert(views(out@) =~= Seq::<Seq<char>>::empty());
    while k < packages.len()
        invariant
            k <= packages@.len(),
            named(packages@, members@, name@, k as int, views(out@)) == named(packages@, members@, name@, 0, seq![]),
        decreases packages@.len() - k,
    {
        let p = &packages[k];
        let hit = listed_exec(members, &p.id) && match &p.name {
            Some(n) => *n == *name,
            None => false,
        };
        if hit {
            proof {
                lemma_views_push(out@, p.id);
            }
            out.push(p.id.clone());
        }
        k = k + 1;
    }
    out
}

fn message_for<const N: usize, const M: usize>(head: [char; N], spec: &String, tail: [char; M]) -> (r: String)
    ensures
        r@ == head@ + spec@ + tail@,
{
    let mut m: Vec<char> = Vec::new();
    push_word(&mut m, head);
    let s = chars_of(spec.as_str());
    push_all(&mut m, s.as_slice());
    push_word(&mut m, tail);
    string_of(m.as_slice())
}

fn invalid_manifest() -> (r: String)
    ensures
        r@ == invalid_manifest_message(),
{
    let mut m: Vec<char> = Vec::new();
    push_word(&mut m, ['c', 'a', 'r', 'g', 'o', ' ', 'm', 'e', 't', 'a', 'd', 'a', 't', 'a', ' ', 'r', 'e', 't', 'u', 'r', 'n', 'e', 'd', ' ', 'a', 'n', ' ', 'i', 'n', 'v', 'a', 'l', 'i', 'd', ' ', 'm', 'a', 'n', 'i', 'f', 'e', 's', 't', ' ', 'p', 'a', 't', 'h']);
    string_of(m.as_slice())
}

fn encloses_exec(p: &Package, members: &Vec<String>, dir: &Option<String>, inside: bool) -> (b: bool)
    ensures
        b == encloses(*p, members@, opt_view(*dir), inside),
{
    listed_exec(members, &p.id) && dir.is_some() && inside
}

fn manifest_len_exec(p: &Package) -> (n: usize)
    ensures
        n as nat == manifest_len(*p),
{
    match &p.manifest_path {
        Some(m) => {
            let mc = chars_of(m.as_str());
            crate::text::utf8_len(mc.as_slice())
        },
        None => 0,
    }
}

/// The directories to format for a Cargo selection: the packages named by
/// `specs` (each a workspace member named exactly once), or with `all` the
/// local packages, or else the member package whose directory holds the
/// current directory (the one with the longest manifest path) or the
/// workspace's default members; each given by the directory of its manifest,
/// in the order of `packages`. `dirs[k]` is the directory of the manifest of
/// package `k`, none where it has none, and `inside[k]` whether that
/// directory holds the current directory.
pub fn roots_of_selection(
    packages: &Vec<Package>,
    members: &Vec<String>,
    default_members: &Vec<String>,
    specs: &Vec<String>,
    all: bool,
    dirs: &Vec<Option<String>>,
    inside: &Vec<bool>,
) -> (r: Result<Vec<String>, String>)
    requires
        dirs@.len() == packages@.len(),
        inside@.len() == packages@.len(),
    ensures
        match (r, package_roots(packages@, members@, default_members@, specs@, all, opt_views(dirs@), inside@)) {
            (Ok(a), Ok(b)) => views(a@) == b,
            (Err(m), Err(n)) => m@ == n,
            _ => false,
        },
{
    let ghost dv = opt_views(dirs@);
    let mut chosen: Vec<String> = Vec::new();
    assert(views(chosen@) =~= Seq::<Seq<char>>::empty());
    if specs.len() > 0 {
        let mut k: usize = 0;
        while k < specs.len()
            invariant
                k <= specs@.len(),
                specs@.len() > 0,
                by_specs(packages@, members@, specs@, k as int, views(chosen@)) == by_specs(
                    packages@,
                    members@,
                    specs@,
                    0,
                    seq![],
                ),
            decreases specs@.len() - k,
        {
            let found = named_exec(packages, members, &specs[k]);
            if found.len() == 0 {
                return Err(message_for(['p', 'a', 'c', 'k', 'a', 'g', 'e', ' ', '`'], &specs[k], ['`', ' ', 'i', 's', ' ', 'n', 'o', 't', ' ', 'a', ' ', 'm', 'e', 'm', 'b', 'e', 'r', ' ', 'o', 'f', ' ', 't', 'h', 'i', 's', ' ', 'w', 'o', 'r', 'k', 's', 'p', 'a', 'c', 'e']));
            }
            if found.len() > 1 {
                return Err(message_for(['p', 'a', 'c', 'k', 'a', 'g', 'e', ' ', 's', 'p', 'e', 'c', 'i', 'f', 'i', 'c', 'a', 't', 'i', 'o', 'n', ' ', '`'], &specs[k], ['`', ' ', 'i', 's', ' ', 'a', 'm', 'b', 'i', 'g', 'u', 'o', 'u', 's']));
            }
            assert(views(found@)[0] == found@[0]@);
            proof {
                lemma_views_push(chosen@, found@[0]);
            }
            chosen.push(found[0].clone());
            k = k + 1;
        }
    } else if all {
        let mut k: usize = 0;
        while k < packages.len()
            invariant
                k <= packages@.len(),
                local_ids(packages@, k as int, views(chosen@)) == local_ids(packages@, 0, seq![]),
            decreases packages@.len() - k,
        {
            if packages[k].local {
                proof {
                    lemma_views_push(chosen@, packages@[k as int].id);
                }
                chosen.push(packages[k].id.clone());
            }
            k = k + 1;
        }
    } else {
        let mut best: Option<usize> = None;
        let mut k: usize = 0;
        while k < packages.len()
            invariant
                k <= packages@.len(),
                dirs@.len() == packages@.len(),
                inside@.len() == packages@.len(),
                dv == opt_views(dirs@),
                enclosing(packages@, members@, dv, inside@, k as int, match best {
                    Some(i) => Some(i as int),
                    None => None,
                }) == enclosing(packages@, members@, dv, inside@, 0, None),
                best matches Some(i) ==> i < packages@.len(),
            decreases packages@.len() - k,
        {
            let take = encloses_exec(&packages[k], members, &dirs[k], inside[k]) && match best {
                None => true,
                Some(b) => manifest_len_exec(&packages[k]) >= manifest_len_exec(&packages[b]),
            };
            if take {
                best = Some(k);
            }
            k = k + 1;
        }
        match best {
            Some(i) => {
                proof {
                    lemma_views_push(chosen@, packages@[i as int].id);
                }
                chosen.push(packages[i].id.clone());
            },
            None => {
                let mut j: usize = 0;
                while j < default_members.len()
                    invariant
                        j <= default_members@.len(),
                        views(chosen@) == views(default_members@.take(j as int)),
                    decreases default_members@.len() - j,
                {
                    proof {
                        lemma_views_push(chosen@, default_members@[j as int]);
                        assert(default_members@.take(j + 1) =~= default_members@.take(j as int).push(default_members@[j as int]));
                        lemma_views_push(default_members@.take(j as int), default_members@[j as int]);
                    }
                    chosen.push(default_members[j].clone());
                    j = j + 1;
                }
                assert(default_members@.take(default_members@.len() as int) =~= default_members@);
            },
        }
    }
    assert(selected(packages@, members@, default_members@, specs@, all, dv, inside@) == Ok::<Seq<Seq<char>>, Seq<char>>(views(chosen@)));
    let mut roots: Vec<String> = Vec::new();
    let mut k: usize = 0;
    assert(views(roots@) =~= Seq::<Seq<char>>::empty());
    while k < packages.len()
        invariant
            k <= packages@.len(),
            dirs@.len() == packages@.len(),
            dv == opt_views(dirs@),
            package_roots(packages@, members@, default_members@, specs@, all, dv, inside@) == roots_from(
                packages@,
                views(chosen@),
                dv,
                0,
                seq![],
            ),
            roots_from(packages@, views(chosen@), dv, k as int, views(roots@)) == roots_from(
                packages@,
                views(chosen@),
                dv,
                0,
                seq![],
            ),
        decreases packages@.len() - k,
    {
        let p = &packages[k];
        if listed_exec(&chosen, &p.id) {
            let dir = match &dirs[k] {
                Some(d) => d.clone(),
                None => {
                    return Err(invalid_manifest());
                },
            };
            proof {
                lemma_views_push(roots@, dir);
            }
            roots.push(dir);
        }
        k = k + 1;
    }
    Ok(roots)
}

/// Whether package `p` has no manifest path, or an empty one.
pub open spec fn no_manifest(p: Package) -> bool {
    match opt_view(p.manifest_path) {
        Some(m) => m.len() == 0,
        None => true,
    }
}

/// `Path::new(path).parent()`, as text: the path without its last component.
/// As its documentation says, the empty path has none. How another path
/// splits into components depends on the platform, so nothing more is stated
/// of the result.
#[verifier::external_body]
fn path_parent(path: &str) -> (r: Option<String>)
    ensures
        path@.len() == 0 ==> r is None,
{
    match std::path::Path::new(path).parent() {
        Some(dir) => Some(dir.to_string_lossy().into_owned()),
        None => None,
    }
}

/// `Path::new(path).starts_with(base)`: whether `base` begins `path` by whole
/// components. How a path splits into components depends on the platform, so
/// nothing is stated of the result.
#[verifier::external_body]
fn path_starts_with(path: &str, base: &str) -> (r: bool) {
    std::path::Path::new(path).starts_with(base)
}

/// The directories to format for a Cargo selection from the current
/// directory `current`, as `roots_of_selection` gives them for the directory
/// of each package's manifest (`Path::parent`) and whether it holds
/// `current` (`Path::starts_with`). A package without a manifest path, or
/// with an empty one, has no directory, and a package without a directory
/// does not hold `current`.
pub fn select_package_roots(
    packages: &Vec<Package>,
    members: &Vec<String>,
    default_members: &Vec<String>,
    specs: &Vec<String>,
    all: bool,
    current: &str,
) -> (r: Result<Vec<String>, String>)
    ensures
        exists|dirs: Seq<Option<Seq<char>>>, inside: Seq<bool>|
            #![trigger package_roots(packages@, members@, default_members@, specs@, all, dirs, inside)]
            {
                &&& dirs.len() == packages@.len()
                &&& inside.len() == packages@.len()
                &&& forall|k: int| 0 <= k < packages@.len() && no_manifest(#[trigger] packages@[k]) ==> dirs[k] is None
                &&& forall|k: int| 0 <= k < packages@.len() && #[trigger] dirs[k] is None ==> !inside[k]
                &&& match (r, package_roots(packages@, members@, default_members@, specs@, all, dirs, inside)) {
                    (Ok(a), Ok(b)) => views(a@) == b,
                    (Err(m), Err(n)) => m@ == n,
                    _ => false,
                }
            },
{
    let mut dirs: Vec<Option<String>> = Vec::new();
    let mut inside: Vec<bool> = Vec::new();
    let mut k: usize = 0;
    while k < packages.len()
        invariant
            k <= packages@.len(),
            dirs@.len() == k,
            inside@.len() == k,
            forall|j: int| 0 <= j < k && no_manifest(#[trigger] packages@[j]) ==> dirs@[j] is None,
            forall|j: int| 0 <= j < k && (#[trigger] dirs@[j]) is None ==> !inside@[j],
        decreases packages@.len() - k,
    {
        let dir = match &packages[k].manifest_path {
            Some(m) => path_parent(m.as_str()),
            None => None,
        };
        let holds = match &dir {
            Some(d) => path_starts_with(current, d.as_str()),
            None => false,
        };
        dirs.push(dir);
        inside.push(holds);
        k = k + 1;
    }
    let r = roots_of_selection(packages, members, default_members, specs, all, &dirs, &inside);
    proof {
        let dv = opt_views(dirs@);
        assert forall|j: int| 0 <= j < packages@.len() && (#[trigger] dv[j]) is None implies !inside@[j] by {
            assert(dirs@[j] is None);
        }
        assert forall|j: int| 0 <= j < packages@.len() && no_manifest(#[trigger] packages@[j]) implies dv[j] is None by {
            assert(dirs@[j] is None);
        }
    }
    r
}

// ---------------------------------------------------------------------------
// What `cargo metadata` reports.
// ---------------------------------------------------------------------------

/// A JSON document as `serde_json::Value` holds it; numbers are not read.
pub enum Json {
    Null,
    Bool(bool),
    Number,
    Str(Seq<char>),
    Array(Seq<Json>),
    Object(Map<Seq<char>, Json>),
}

/// What `serde_json::from_slice::<serde_json::Value>` gives for `bytes`: the
/// document it reads, or the message (`Display`) of the error it reports.
pub uninterp spec fn json_document(bytes: Seq<u8>) -> Result<Json, Seq<char>>;

/// `value[key]`: the entry of an object, `Null` for another value or a
/// missing key.
pub open spec fn json_field_of(value: Json, key: Seq<char>) -> Json {
    match value {
        Json::Object(m) => if m.dom().contains(key) {
            m[key]
        } else {
            Json::Null
        },
        _ => Json::Null,
    }
}

/// `value[index]`: the item of an array, `Null` for another value or an index
/// out of bounds.
pub open spec fn json_item_of(value: Json, index: int) -> Json {
    match value {
        Json::Array(items) => if 0 <= index < items.len() {
            items[index]
        } else {
            Json::Null
        },
        _ => Json::Null,
    }
}

/// The text of a JSON string.
pub open spec fn json_string(value: Json) -> Option<Seq<char>> {
    match value {
        Json::Str(s) => Some(s),
        _ => None,
    }
}

/// `serde_json`'s JSON value, carried inside `JsonValue`.
#[verifier::external_type_specification]
#[verifier::external_body]
pub struct ExJsonValue(serde_json::Value);

/// `serde_json`'s error type, carried through without being looked into.
#[verifier::external_type_specification]
#[verifier::external_body]
pub struct ExJsonError(serde_json::Error);

/// A `serde_json::Value` and the document it holds.
struct JsonValue {
    value: serde_json::Value,
    model: Ghost<Json>,
}

impl View for JsonValue {
    type V = Json;

    closed spec fn view(&self) -> Json {
        self.model@
    }
}

/// A `serde_json::Error` and its message.
struct JsonError {
    error: serde_json::Error,
    message: Ghost<Seq<char>>,
}

impl View for JsonError {
    type V = Seq<char>;

    closed spec fn view(&self) -> Seq<char> {
        self.message@
    }
}

/// Calls `serde_json::from_slice::<serde_json::Value>`: the document, or the
/// parser's error, as `json_document` names them.
#[verifier::external_body]
fn parse_json(bytes: &[u8]) -> (r: Result<JsonValue, JsonError>)
    ensures
        match r {
            Ok(v) => json_document(bytes@) == Ok::<Json, Seq<char>>(v@),
            Err(e) => json_document(bytes@) == Err::<Json, Seq<char>>(e@),
        },
{
    match serde_json::from_slice(bytes) {
        Ok(value) => Ok(JsonValue { value, model: Ghost(arbitrary()) }),
        Err(error) => Err(JsonError { error, message: Ghost(arbitrary()) }),
    }
}

/// The message of a `serde_json::Error`, through its `Display` impl.
#[verifier::external_body]
fn json_error_message(error: &JsonError) -> (r: String)
    ensures
        r@ == error@,
{
    error.error.to_string()
}

/// Indexes a JSON value by key (`value[key]`, cloned). `serde_json` documents
/// the entry of an object, and `Null` where the value is no object or has no
/// such key.
#[verifier::external_body]
fn json_field(value: &JsonValue, key: &str) -> (r: JsonValue)
    ensures
        r@ == json_field_of(value@, key@),
{
    JsonValue { value: value.value[key].clone(), model: Ghost(arbitrary()) }
}

/// Indexes a JSON value by position (`value[index]`, cloned). `serde_json`
/// documents the item of an array, and `Null` where the value is no array or
/// the index is out of bounds.
#[verifier::external_body]
fn json_item(value: &JsonValue, index: usize) -> (r: JsonValue)
    ensures
        r@ == json_item_of(value@, index as int),
{
    JsonValue { value: value.value[index].clone(), model: Ghost(arbitrary()) }
}

/// Calls `serde_json::Value::as_str`: the text, when the value is a string.
#[verifier::external_body]
fn json_str(value: &JsonValue) -> (r: Option<String>)
    ensures
        opt_view(r) == json_string(value@),
{
    match value.value.as_str() {
        Some(text) => Some(text.to_string()),
        None => None,
    }
}

/// Calls `serde_json::Value::as_array`: the number of items, when the value
/// is an array.
#[verifier::external_body]
fn json_array_len(value: &JsonValue) -> (r: Option<usize>)
    ensures
        r is Some <==> value@ is Array,
        r matches Some(n) ==> value@ matches Json::Array(items) && n == items.len(),
{
    match value.value.as_array() {
        Some(items) => Some(items.len()),
        None => None,
    }
}

/// Calls `serde_json::Value::is_null`.
#[verifier::external_body]
fn json_is_null(value: &JsonValue) -> (r: bool)
    ensures
        r == (value@ is Null),
{
    value.value.is_null()
}

/// What package selection reads from `cargo metadata`: the listed packages
/// and the ids of the workspace members and of the default members.
pub struct Metadata {
    pub packages: Vec<Package>,
    pub members: Vec<String>,
    pub default_members: Vec<String>,
}

/// "invalid cargo metadata: ", the start of the message for output that is no JSON.
pub open spec fn invalid_metadata_prefix() -> Seq<char> {
    ['i', 'n', 'v', 'a', 'l', 'i', 'd', ' ', 'c', 'a', 'r', 'g', 'o', ' ', 'm', 'e', 't', 'a', 'd', 'a', 't', 'a', ':', ' ']@
}

/// "cargo metadata did not return packages"
pub open spec fn no_packages_message() -> Seq<char> {
    ['c', 'a', 'r', 'g', 'o', ' ', 'm', 'e', 't', 'a', 'd', 'a', 't', 'a', ' ', 'd', 'i', 'd', ' ', 'n', 'o', 't', ' ', 'r', 'e', 't', 'u', 'r', 'n', ' ', 'p', 'a', 'c', 'k', 'a', 'g', 'e', 's']@
}

/// The texts among the first `k` items, in order.
pub open spec fn strings_upto(items: Seq<Json>, k: int) -> Seq<Seq<char>>
    decreases k,
{
    if k <= 0 {
        seq![]
    } else {
        let rest = strings_upto(items, k - 1);
        match json_string(items[k - 1]) {
            Some(s) => rest.push(s),
            None => rest,
        }
    }
}

/// The string items of a JSON array, in order; none for another value.
pub open spec fn string_items_of(value: Json) -> Seq<Seq<char>> {
    match value {
        Json::Array(items) => strings_upto(items, items.len() as int),
        _ => seq![],
    }
}

/// A package as read from its JSON object: its id when that is a string,
/// with its name and manifest path where they are strings and whether its
/// source is null.
pub open spec fn package_model(item: Json) -> Option<(Seq<char>, Option<Seq<char>>, Option<Seq<char>>, bool)> {
    match json_string(json_field_of(item, ['i', 'd']@)) {
        Some(id) => Some(
            (
                id,
                json_string(json_field_of(item, ['n', 'a', 'm', 'e']@)),
                json_string(json_field_of(item, ['m', 'a', 'n', 'i', 'f', 'e', 's', 't', '_', 'p', 'a', 't', 'h']@)),
                json_field_of(item, ['s', 'o', 'u', 'r', 'c', 'e']@) is Null,
            ),
        ),
        None => None,
    }
}

/// The packages among the first `k` items, in order.
pub open spec fn packages_upto(items: Seq<Json>, k: int) -> Seq<(Seq<char>, Option<Seq<char>>, Option<Seq<char>>, bool)>
    decreases k,
{
    if k <= 0 {
        seq![]
    } else {
        let rest = packages_upto(items, k - 1);
        match package_model(items[k - 1]) {
            Some(p) => rest.push(p),
            None => rest,
        }
    }
}

pub open spec fn package_view(p: Package) -> (Seq<char>, Option<Seq<char>>, Option<Seq<char>>, bool) {
    (p.id@, opt_view(p.name), opt_view(p.manifest_path), p.local)
}

pub open spec fn packages_view(ps: Seq<Package>) -> Seq<(Seq<char>, Option<Seq<char>>, Option<Seq<char>>, bool)> {
    ps.map_values(|p: Package| package_view(p))
}

/// The string items of a JSON array, in order; none for another value.
fn string_items(value: &JsonValue) -> (r: Vec<String>)
    ensures
        views(r@) == string_items_of(value@),
{
    let mut out: Vec<String> = Vec::new();
    assert(views(out@) =~= Seq::<Seq<char>>::empty());
    if let Some(n) = json_array_len(value) {
        let ghost items = value@->Array_0;
        let mut k: usize = 0;
        while k < n
            invariant
                value@ == Json::Array(items),
                n == items.len(),
                k <= n,
                views(out@) == strings_upto(items, k as int),
            decreases n - k,
        {
            let item = json_item(value, k);
            if let Some(text) = json_str(&item) {
                proof {
                    lemma_views_push(out@, text);
                }
                out.push(text);
            }
            k = k + 1;
        }
    }
    out
}

/// Reads the JSON that `cargo metadata` prints: each listed package that has
/// a string id, with its name and manifest path where they are strings and
/// whether its source is null (a local package), and the string ids listed
/// as workspace members and as default members. Output that is no JSON gives
/// the parser's message after a prefix, and a document without a `packages`
/// array gives its own message.
pub fn read_metadata(output: &[u8]) -> (r: Result<Metadata, String>)
    ensures
        match json_document(output@) {
            Err(detail) => r matches Err(m) && m@ == invalid_metadata_prefix() + detail,
            Ok(doc) => match json_field_of(doc, ['p', 'a', 'c', 'k', 'a', 'g', 'e', 's']@) {
                Json::Array(items) => r matches Ok(m) && packages_view(m.packages@) == packages_upto(
                    items,
                    items.len() as int,
                ) && views(m.members@) == string_items_of(json_field_of(doc, ['w', 'o', 'r', 'k', 's', 'p', 'a', 'c', 'e', '_', 'm', 'e', 'm', 'b', 'e', 'r', 's']@))
                    && views(m.default_members@) == string_items_of(
                    json_field_of(doc, ['w', 'o', 'r', 'k', 's', 'p', 'a', 'c', 'e', '_', 'd', 'e', 'f', 'a', 'u', 'l', 't', '_', 'm', 'e', 'm', 'b', 'e', 'r', 's']@),
                ),
                _ => r matches Err(m) && m@ == no_packages_message(),
            },
        },
{
    proof {
        reveal_strlit("packages");
        reveal_strlit("workspace_members");
        reveal_strlit("workspace_default_members");
        reveal_strlit("id");
        reveal_strlit("name");
        reveal_strlit("manifest_path");
        reveal_strlit("source");
        assert("packages"@ =~= ['p', 'a', 'c', 'k', 'a', 'g', 'e', 's']@);
        assert("workspace_members"@ =~= ['w', 'o', 'r', 'k', 's', 'p', 'a', 'c', 'e', '_', 'm', 'e', 'm', 'b', 'e', 'r', 's']@);
        assert("workspace_default_members"@ =~= ['w', 'o', 'r', 'k', 's', 'p', 'a', 'c', 'e', '_', 'd', 'e', 'f', 'a', 'u', 'l', 't', '_', 'm', 'e', 'm', 'b', 'e', 'r', 's']@);
        assert("id"@ =~= ['i', 'd']@);
        assert("name"@ =~= ['n', 'a', 'm', 'e']@);
        assert("manifest_path"@ =~= ['m', 'a', 'n', 'i', 'f', 'e', 's', 't', '_', 'p', 'a', 't', 'h']@);
        assert("source"@ =~= ['s', 'o', 'u', 'r', 'c', 'e']@);
    }
    let metadata = match parse_json(output) {
        Ok(value) => value,
        Err(error) => {
            let detail = json_error_message(&error);
            let mut m: Vec<char> = Vec::new();
            push_word(&mut m, ['i', 'n', 'v', 'a', 'l', 'i', 'd', ' ', 'c', 'a', 'r', 'g', 'o', ' ', 'm', 'e', 't', 'a', 'd', 'a', 't', 'a', ':', ' ']);
            let d = chars_of(detail.as_str());
            push_all(&mut m, d.as_slice());
            let message = string_of(m.as_slice());
            assert(message@ == invalid_metadata_prefix() + d@);
            return Err(message);
        },
    };
    let listed = json_field(&metadata, "packages");
    let n = match json_array_len(&listed) {
        Some(n) => n,
        None => {
            let mut m: Vec<char> = Vec::new();
            push_word(&mut m, ['c', 'a', 'r', 'g', 'o', ' ', 'm', 'e', 't', 'a', 'd', 'a', 't', 'a', ' ', 'd', 'i', 'd', ' ', 'n', 'o', 't', ' ', 'r', 'e', 't', 'u', 'r', 'n', ' ', 'p', 'a', 'c', 'k', 'a', 'g', 'e', 's']);
            return Err(string_of(m.as_slice()));
        },
    };
    let ghost items = listed@->Array_0;
    let mut packages: Vec<Package> = Vec::new();
    assert(packages_view(packages@) =~= packages_upto(items, 0));
    let mut k: usize = 0;
    while k < n
        invariant
            listed@ == Json::Array(items),
            n == items.len(),
            k <= n,
            packages_view(packages@) == packages_upto(items, k as int),
            "id"@ == ['i', 'd']@,
            "name"@ == ['n', 'a', 'm', 'e']@,
            "manifest_path"@ == ['m', 'a', 'n', 'i', 'f', 'e', 's', 't', '_', 'p', 'a', 't', 'h']@,
            "source"@ == ['s', 'o', 'u', 'r', 'c', 'e']@,
        decreases n - k,
    {
        let item = json_item(&listed, k);
        if let Some(id) = json_str(&json_field(&item, "id")) {
            let p = Package {
                id,
                name: json_str(&json_field(&item, "name")),
                manifest_path: json_str(&json_field(&item, "manifest_path")),
                local: json_is_null(&json_field(&item, "source")),
            };
            assert(packages_view(packages@.push(p)) =~= packages_view(packages@).push(package_view(p)));
            packages.push(p);
        }
        k = k + 1;
    }
    let members = string_items(&json_field(&metadata, "workspace_members"));
    let default_members = string_items(&json_field(&metadata, "workspace_default_members"));
    Ok(Metadata { packages, members, default_members })
}

} // verus!
