//! Which files under a directory still lack a record in the migrate file.
use vstd::prelude::*;

use crate::migratefile::{
    arrow, parse_migrate_file, parse_migrations, record_view, records_of_lines, records_view,
    split_lines,
};

verus! {

/// What `path` is relative to `root`, as `Path::strip_prefix` gives it.
pub uninterp spec fn stripped_path(path: Seq<char>, root: Seq<char>) -> Option<Seq<char>>;

/// Whether two texts name the same path, as `Path`'s `==` decides it.
pub uninterp spec fn same_path(a: Seq<char>, b: Seq<char>) -> bool;

/// Relies on std::path::Path::strip_prefix: `path` relative to `root`, or
/// `None` where `root` is not a prefix of it.
#[verifier::external_body]
fn strip_root(path: &str, root: &str) -> (r: Option<String>)
    ensures
        r matches Some(s) ==> stripped_path(path@, root@) == Some(s@),
        r is None ==> stripped_path(path@, root@) is None,
{
    std::path::Path::new(path).strip_prefix(root).ok().map(|p| p.to_string_lossy().into_owned())
}

/// Relies on Path's `==`, which compares paths component by component: the
/// same text always names the same path.
#[verifier::external_body]
fn paths_equal(a: &str, b: &str) -> (r: bool)
    ensures
        r == same_path(a@, b@),
        a@ == b@ ==> r,
{
    std::path::Path::new(a) == std::path::Path::new(b)
}

/// Where the already-handled source paths come from.
pub enum MigrateInput {
    /// No migrate file was named.
    NotGiven,
    /// A migrate file was named and could not be read.
    Unreadable,
    /// The text of the migrate file.
    Contents(String),
}

/// Why no pending list could be made.
#[derive(Debug, PartialEq, Eq, Structural)]
pub enum ResolveError {
    /// The directory to scan could not be walked.
    RootUnreadable,
}

/// The texts of some strings.
pub open spec fn strings_view(v: Seq<String>) -> Seq<Seq<char>> {
    v.map_values(|s: String| s@)
}

/// The source paths of the records of the migrate input: none where there is
/// no file or it could not be read.
pub open spec fn handled_of(input: MigrateInput) -> Seq<Seq<char>> {
    match input {
        MigrateInput::Contents(t) => parse_migrations(t@).map_values(
            |r: (Seq<char>, Seq<char>)| r.0,
        ),
        _ => seq![],
    }
}

/// Some entry of `handled` names the path `p`.
pub open spec fn is_handled(handled: Seq<Seq<char>>, p: Seq<char>) -> bool {
    exists|k: int| 0 <= k < handled.len() && same_path(handled[k], p)
}

/// The walked paths, relative to `root`, that no entry of `handled` names, in
/// the order of the walk; a walked path that does not lie under `root` is left out.
pub open spec fn pending_of(handled: Seq<Seq<char>>, walked: Seq<Seq<char>>, root: Seq<char>) -> Seq<
    Seq<char>,
>
    decreases walked.len(),
{
    if walked.len() == 0 {
        seq![]
    } else {
        let rest = pending_of(handled, walked.drop_last(), root);
        match stripped_path(walked.last(), root) {
            Some(rel) => if is_handled(handled, rel) {
                rest
            } else {
                rest.push(rel)
            },
            None => rest,
        }
    }
}

/// Whether some entry of `handled` names the path `p`.
fn handled_contains(handled: &Vec<String>, p: &String) -> (r: bool)
    ensures
        r == is_handled(strings_view(handled@), p@),
{
    let mut k: usize = 0;
    while k < handled.len()
        invariant
            k <= handled@.len(),
            forall|j: int| 0 <= j < k ==> !same_path(handled@[j]@, p@),
        decreases handled@.len() - k,
    {
        if paths_equal(handled[k].as_str(), p.as_str()) {
            assert(strings_view(handled@)[k as int] == handled@[k as int]@);
            return true;
        }
        k = k + 1;
    }
    assert forall|j: int| 0 <= j < strings_view(handled@).len() implies !same_path(
        strings_view(handled@)[j],
        p@,
    ) by {
        assert(strings_view(handled@)[j] == handled@[j]@);
    }
    false
}

/// The walked paths, made relative to `root`, that no entry of `handled`
/// names, in the order of the walk. A walked path not under `root` is dropped.
pub fn pending_paths(handled: &Vec<String>, walked: &Vec<String>, root: &str) -> (r: Vec<String>)
    ensures
        strings_view(r@) == pending_of(strings_view(handled@), strings_view(walked@), root@),
{
    let ghost hv = strings_view(handled@);
    let mut out: Vec<String> = Vec::new();
    let mut i: usize = 0;
    assert(strings_view(walked@).take(0) =~= Seq::<Seq<char>>::empty());
    assert(strings_view(out@) =~= Seq::<Seq<char>>::empty());
    while i < walked.len()
        invariant
            i <= walked@.len(),
            hv == strings_view(handled@),
            strings_view(out@) == pending_of(hv, strings_view(walked@).take(i as int), root@),
        decreases walked@.len() - i,
    {
        let ghost before = out@;
        let ghost ws = strings_view(walked@).take(i + 1);
        assert(ws.drop_last() =~= strings_view(walked@).take(i as int));
        assert(ws.last() == walked@[i as int]@);
        match strip_root(walked[i].as_str(), root) {
            Some(rel) => {
                if !handled_contains(handled, &rel) {
                    out.push(rel);
                    assert(strings_view(out@) =~= strings_view(before).push(rel@));
                }
            },
            None => {},
        }
        i = i + 1;
    }
    assert(strings_view(walked@).take(walked@.len() as int) =~= strings_view(walked@));
    out
}

/// The source paths of the migrate input's records, in file order: none where
/// no migrate file was named or it could not be read.
pub fn handled_sources(input: &MigrateInput) -> (r: Vec<String>)
    ensures
        strings_view(r@) == handled_of(*input),
{
    match input {
        MigrateInput::Contents(text) => {
            let records = parse_migrate_file(text.as_str());
            let ghost rv = records_view(records@);
            let mut out: Vec<String> = Vec::new();
            let mut i: usize = 0;
            while i < records.len()
                invariant
                    i <= records@.len(),
                    rv == records_view(records@),
                    rv == parse_migrations(text@),
                    strings_view(out@) == rv.take(i as int).map_values(
                        |r: (Seq<char>, Seq<char>)| r.0,
                    ),
                decreases records@.len() - i,
            {
                let ghost before = out@;
                let src = records[i].0.clone();
                out.push(src);
                assert(rv[i as int] == record_view(records@[i as int]));
                assert(strings_view(out@) =~= strings_view(before).push(src@));
                assert(rv.take(i + 1) =~= rv.take(i as int).push(rv[i as int]));
                assert(strings_view(out@) =~= rv.take(i + 1).map_values(
                    |r: (Seq<char>, Seq<char>)| r.0,
                ));
                i = i + 1;
            }
            assert(rv.take(records@.len() as int) =~= rv);
            out
        },
        _ => {
            let out: Vec<String> = Vec::new();
            assert(strings_view(out@) =~= Seq::<Seq<char>>::empty());
            out
        },
    }
}

/// The pending paths of a run: the files that the walk of `root` found
/// (`walked`), made relative to `root`, less those that the migrate input
/// already records. Where the walk failed (`None`) the run fails.
pub fn resolve_pending(input: &MigrateInput, walked: Option<&Vec<String>>, root: &str) -> (r: Result<
    Vec<String>,
    ResolveError,
>)
    ensures
        walked is None <==> r is Err,
        r matches Err(e) ==> e == ResolveError::RootUnreadable,
        r matches Ok(v) ==> strings_view(v@) == pending_of(
            handled_of(*input),
            strings_view(walked->0@),
            root@,
        ),
{
    match walked {
        Some(w) => {
            let handled = handled_sources(input);
            Ok(pending_paths(&handled, w, root))
        },
        None => Err(ResolveError::RootUnreadable),
    }
}

/// The output line for a pending path: the path, then the separator with no
/// destination after it.
pub fn pending_entry(path: &str) -> (r: String)
    ensures
        r@ == path@ + arrow(),
{
    let mut s = String::from_str(path);
    s.append(" -> ");
    proof {
        reveal_strlit(" -> ");
    }
    assert(" -> "@ =~= arrow());
    s
}

/// The pending list is the set difference of the walk and the handled paths:
/// a path is in it exactly when a walked file under `root` has it as its
/// relative path and no handled entry names it.
pub proof fn lemma_pending_is_difference(
    handled: Seq<Seq<char>>,
    walked: Seq<Seq<char>>,
    root: Seq<char>,
)
    ensures
        forall|p: Seq<char>| #[trigger]
            pending_of(handled, walked, root).contains(p) <==> (exists|k: int|
                0 <= k < walked.len() && stripped_path(walked[k], root) == Some(p)
                    && !is_handled(handled, p)),
    decreases walked.len(),
{
    if walked.len() > 0 {
        let init = walked.drop_last();
        let n = walked.len() - 1;
        lemma_pending_is_difference(handled, init, root);
        let rest = pending_of(handled, init, root);
        let res = pending_of(handled, walked, root);
        assert forall|p: Seq<char>| #[trigger]
            res.contains(p) <==> (exists|k: int|
                0 <= k < walked.len() && stripped_path(walked[k], root) == Some(p)
                    && !is_handled(handled, p)) by {
            if res.contains(p) {
                if rest.contains(p) {
                    let k = choose|k: int|
                        0 <= k < init.len() && stripped_path(init[k], root) == Some(p)
                            && !is_handled(handled, p);
                    assert(walked[k] == init[k]);
                } else {
                    let i = choose|i: int| 0 <= i < res.len() && res[i] == p;
                    assert(stripped_path(walked[n], root) == Some(p));
                }
            }
            if exists|k: int|
                0 <= k < walked.len() && stripped_path(walked[k], root) == Some(p)
                    && !is_handled(handled, p) {
                let k = choose|k: int|
                    0 <= k < walked.len() && stripped_path(walked[k], root) == Some(p)
                        && !is_handled(handled, p);
                if k < n {
                    assert(init[k] == walked[k]);
                    assert(rest.contains(p));
                    let i = choose|i: int| 0 <= i < rest.len() && rest[i] == p;
                    if res != rest {
                        assert(res[i] == p);
                    }
                } else {
                    assert(res == rest.push(p));
                    assert(res[rest.len() as int] == p);
                }
            }
        }
    }
}

/// With no records, every walked file under `root` is pending, in the order of the walk.
proof fn lemma_nothing_handled(walked: Seq<Seq<char>>, root: Seq<char>)
    ensures
        pending_of(seq![], walked, root) == walked.filter_map(|w: Seq<char>| stripped_path(w, root)),
    decreases walked.len(),
{
    if walked.len() > 0 {
        lemma_nothing_handled(walked.drop_last(), root);
        let rest = pending_of(seq![], walked.drop_last(), root);
        match stripped_path(walked.last(), root) {
            Some(rel) => {
                assert(!is_handled(seq![], rel));
                assert(rest.push(rel) =~= rest + seq![rel]);
            },
            None => {},
        }
    }
}

/// No migrate file, a migrate file that could not be read, and an empty one
/// give the same, empty, set of handled paths; so every walked file under
/// `root` is pending.
pub proof fn lemma_absent_unreadable_empty_agree(text: String, walked: Seq<Seq<char>>, root: Seq<char>)
    requires
        text@.len() == 0,
    ensures
        handled_of(MigrateInput::Unreadable) == handled_of(MigrateInput::NotGiven),
        handled_of(MigrateInput::Contents(text)) == handled_of(MigrateInput::NotGiven),
        pending_of(handled_of(MigrateInput::NotGiven), walked, root) == walked.filter_map(
            |w: Seq<char>| stripped_path(w, root),
        ),
{
    let e = Seq::<char>::empty();
    assert(text@ == e);
    assert(split_lines(e) == seq![e]);
    assert(seq![e].drop_last() =~= Seq::<Seq<char>>::empty());
    assert(records_of_lines(seq![e].drop_last()) == Seq::<(Seq<char>, Seq<char>)>::empty());
    assert(parse_migrations(text@).len() == 0);
    assert(handled_of(MigrateInput::Contents(text)) =~= handled_of(MigrateInput::NotGiven));
    lemma_nothing_handled(walked, root);
}

} // verus!
