use vstd::prelude::*;
use core::cmp::Ordering;
use crate::category::{Category, CATEGORY_COUNT, category_at};
use crate::error::ChangelogError;
use crate::version::{semver_valid, semver_order, is_semver, compare_semver};
use crate::parse::{parse, parse_doc};
use crate::render::{render, render_doc, show_release, shown, unreleased_word};
use crate::model::{
    Change, ChangeView, Release, ReleaseView, Changelog, ChangelogView, changes_upto, changes_of,
    changes_view, built,
};

verus! {

/// The changes of the Unreleased release, or none when the changelog has no such release.
pub open spec fn pending_of(m: ChangelogView) -> Seq<ChangeView> {
    if m.releases.len() > 0 && m.releases[0].is_unreleased() {
        changes_of(m.releases[0].entries)
    } else {
        seq![]
    }
}

/// A dated release whose version is the same semantic version as `v`.
pub open spec fn has_version(r: ReleaseView, v: Seq<u8>) -> bool {
    &&& r.version is Some
    &&& semver_valid(r.version->Some_0)
    &&& semver_order(r.version->Some_0, v) == Ordering::Equal
}

/// Index of the first release with version `v`, or `rs.len()` when none has it.
pub open spec fn first_with_version(rs: Seq<ReleaseView>, v: Seq<u8>) -> nat
    decreases rs.len(),
{
    if rs.len() == 0 {
        0
    } else if has_version(rs[0], v) {
        0
    } else {
        1 + first_with_version(rs.drop_first(), v)
    }
}

pub proof fn lemma_first_with_version(rs: Seq<ReleaseView>, v: Seq<u8>, k: int)
    requires
        0 <= k <= rs.len(),
        k < rs.len() ==> has_version(rs[k], v),
        forall|j: int| 0 <= j < k ==> !has_version(#[trigger] rs[j], v),
    ensures
        first_with_version(rs, v) == k,
    decreases rs.len(),
{
    if rs.len() > 0 && k > 0 {
        assert(!has_version(rs[0], v));
        assert forall|j: int| 0 <= j < k - 1 implies !has_version(#[trigger] rs.drop_first()[j], v) by {
            assert(rs.drop_first()[j] == rs[j + 1]);
        }
        lemma_first_with_version(rs.drop_first(), v, k - 1);
    }
}

pub proof fn lemma_first_with_version_found(rs: Seq<ReleaseView>, v: Seq<u8>)
    ensures
        first_with_version(rs, v) <= rs.len(),
        first_with_version(rs, v) < rs.len() ==> has_version(rs[first_with_version(rs, v) as int], v),
    decreases rs.len(),
{
    if rs.len() > 0 && !has_version(rs[0], v) {
        lemma_first_with_version_found(rs.drop_first(), v);
        if first_with_version(rs, v) < rs.len() {
            assert(rs[first_with_version(rs, v) as int] == rs.drop_first()[first_with_version(rs.drop_first(), v) as int]);
        }
    }
}

impl Changelog {
    /// The changes already listed under Unreleased, in canonical category order.
    pub fn unreleased_changes(&self) -> (r: Vec<Change>)
        requires
            self@.releases.len() > 0 ==> self@.releases[0].entries.len() == CATEGORY_COUNT,
        ensures
            changes_view(r@) == pending_of(self@),
    {
        let mut out: Vec<Change> = Vec::new();
        if self.releases.len() == 0 || self.releases[0].version.is_some() {
            proof {
                assert(changes_view(out@) =~= Seq::<ChangeView>::empty());
            }
            return out;
        }
        let rel = &self.releases[0];
        let ghost e = rel@.entries;
        let mut c: usize = 0;
        proof {
            assert(changes_view(out@) =~= changes_upto(e, 0));
        }
        while c < CATEGORY_COUNT
            invariant
                c <= CATEGORY_COUNT,
                e == rel@.entries,
                e.len() == CATEGORY_COUNT,
                changes_view(out@) == changes_upto(e, c as int),
            decreases CATEGORY_COUNT - c,
        {
            let cat = Category::from_position(c);
            let ds = &rel.entries[c];
            let ghost base = out@;
            let mut i: usize = 0;
            while i < ds.len()
                invariant
                    c < CATEGORY_COUNT,
                    e.len() == CATEGORY_COUNT,
                    i <= ds@.len(),
                    ds@.len() == e[c as int].len(),
                    forall|j: int| 0 <= j < ds@.len() ==> (#[trigger] ds@[j])@ == e[c as int][j],
                    cat == category_at(c as int),
                    changes_view(out@) == changes_upto(e, c as int) + e[c as int].take(
                        i as int,
                    ).map_values(|d: Seq<u8>| ChangeView { category: cat, description: d }),
                decreases ds@.len() - i,
            {
                let d = ds[i].clone();
                proof {
                    assert(d@ =~= e[c as int][i as int]);
                }
                let ghost before = out@;
                out.push(Change { category: cat, description: d });
                proof {
                    let f = |x: Seq<u8>| ChangeView { category: cat, description: x };
                    let row = e[c as int];
                    assert(row.take(i + 1) =~= row.take(i as int).push(row[i as int]));
                    assert(row.take(i + 1).map_values(f) =~= row.take(i as int).map_values(f).push(
                        f(row[i as int]),
                    ));
                    assert(changes_view(out@) =~= changes_view(before).push(
                        ChangeView { category: cat, description: d@ },
                    ));
                    assert(changes_view(out@) =~= changes_upto(e, c as int) + e[c as int].take(
                        i + 1,
                    ).map_values(|d: Seq<u8>| ChangeView { category: cat, description: d }));
                }
                i = i + 1;
            }
            proof {
                assert(e[c as int].take(i as int) =~= e[c as int]);
                assert(changes_view(out@) =~= changes_upto(e, c + 1));
            }
            c = c + 1;
        }
        out
    }

    /// Marks the release whose version is `version` as yanked. The text must be a
    /// semantic version, and some release must have it; the first such release is marked.
    pub fn yank(&mut self, version: &[u8]) -> (r: Result<(), ChangelogError>)
        ensures
            !semver_valid(version@) ==> r == Err::<(), ChangelogError>(ChangelogError::InvalidVersion),
            semver_valid(version@) ==> (r is Ok <==> first_with_version(old(self)@.releases, version@)
                < old(self)@.releases.len()),
            r is Ok ==> final(self)@ == (ChangelogView {
                releases: old(self)@.releases.update(
                    first_with_version(old(self)@.releases, version@) as int,
                    old(self)@.releases[first_with_version(old(self)@.releases, version@) as int].as_yanked(),
                ),
                ..old(self)@
            }),
            r is Err ==> final(self)@ == old(self)@,
            semver_valid(version@) && r is Err ==> (r->Err_0 matches ChangelogError::ReleaseNotFound(t)
                && t@ == version@),
    {
        if !is_semver(version) {
            return Err(ChangelogError::InvalidVersion);
        }
        let ghost rs = self@.releases;
        let mut i: usize = 0;
        while i < self.releases.len()
            invariant
                i <= self.releases@.len(),
                rs == self@.releases,
                self == old(self),
                semver_valid(version@),
                forall|j: int| 0 <= j < i ==> !has_version(#[trigger] rs[j], version@),
            decreases self.releases@.len() - i,
        {
            let found = match &self.releases[i].version {
                Some(v) => {
                    proof {
                        assert(rs[i as int].version == Some(v@));
                    }
                    is_semver(v.as_slice()) && matches!(
                        compare_semver(v.as_slice(), version),
                        Ordering::Equal
                    )
                },
                None => false,
            };
            if found {
                proof {
                    lemma_first_with_version(rs, version@, i as int);
                }
                self.releases[i].yanked = true;
                proof {
                    assert(self@.releases =~= rs.update(i as int, rs[i as int].as_yanked()));
                }
                return Ok(());
            }
            i = i + 1;
        }
        proof {
            lemma_first_with_version(rs, version@, i as int);
            assert(version@.subrange(0, version@.len() as int) =~= version@);
        }
        Err(ChangelogError::ReleaseNotFound(crate::text::copy_range(version, 0, version.len())))
    }

    /// Replaces the entries of the Unreleased release with `changes`, grouped by category.
    /// Fails when the changelog has no Unreleased release.
    pub fn aggregate(&mut self, changes: Vec<Change>) -> (r: Result<(), ChangelogError>)
        ensures
            r is Ok <==> (old(self)@.releases.len() > 0 && old(self)@.releases[0].is_unreleased()),
            r is Ok ==> final(self)@ == (ChangelogView {
                releases: old(self)@.releases.update(
                    0,
                    old(self)@.releases[0].with_entries(built(changes_view(changes@)).entries),
                ),
                ..old(self)@
            }),
            r is Err ==> final(self)@ == old(self)@,
            r is Err ==> (r->Err_0 matches ChangelogError::ReleaseNotFound(t) && t@
                == crate::render::unreleased_word()),
    {
        if self.releases.len() == 0 || self.releases[0].version.is_some() {
            return Err(ChangelogError::ReleaseNotFound(crate::render::unreleased_word_bytes()));
        }
        let ghost rs = self@.releases;
        let fresh = Release::build(changes);
        self.releases[0].entries = fresh.entries;
        proof {
            assert(self@.releases =~= rs.update(0, rs[0].with_entries(fresh@.entries)));
        }
        Ok(())
    }
}

/// The changes that the pending-changes query shows: those already under Unreleased,
/// then the fragments.
pub fn all_changes(log: &Changelog, fragments: Vec<Change>) -> (r: Vec<Change>)
    requires
        log@.releases.len() > 0 ==> log@.releases[0].entries.len() == CATEGORY_COUNT,
    ensures
        changes_view(r@) == pending_of(log@) + changes_view(fragments@),
{
    let mut out = log.unreleased_changes();
    let ghost first = out@;
    let mut rest = fragments;
    out.append(&mut rest);
    proof {
        assert(changes_view(out@) =~= changes_view(first) + changes_view(fragments@));
    }
    out
}

/// The release that the pending-changes query renders.
pub fn pending_release(log: &Changelog, fragments: Vec<Change>) -> (r: Release)
    requires
        log@.releases.len() > 0 ==> log@.releases[0].entries.len() == CATEGORY_COUNT,
    ensures
        r@ == built(pending_of(log@) + changes_view(fragments@)),
{
    Release::build(all_changes(log, fragments))
}

/// The changelog `m` with the release at `k` marked yanked.
pub open spec fn with_yanked(m: ChangelogView, k: int) -> ChangelogView {
    ChangelogView { releases: m.releases.update(k, m.releases[k].as_yanked()), ..m }
}

/// The changelog `m` with the Unreleased entries replaced by `s`, grouped.
pub open spec fn with_pending(m: ChangelogView, s: Seq<ChangeView>) -> ChangelogView {
    ChangelogView { releases: m.releases.update(0, m.releases[0].with_entries(built(s).entries)), ..m }
}

/// The yank operation on a document: the version text is checked first, then the
/// document is read, the release marked, and the new text returned.
#[verifier::rlimit(50)]
pub fn yank_document(doc: &[u8], version: &[u8]) -> (r: Result<Vec<u8>, ChangelogError>)
    ensures
        !semver_valid(version@) ==> r == Err::<Vec<u8>, ChangelogError>(ChangelogError::InvalidVersion),
        semver_valid(version@) && parse_doc(doc@) is Err ==> r == Err::<Vec<u8>, ChangelogError>(
            parse_doc(doc@)->Err_0,
        ),
        semver_valid(version@) && parse_doc(doc@) is Ok ==> {
            let m = parse_doc(doc@)->Ok_0;
            let k = first_with_version(m.releases, version@);
            &&& (r is Ok <==> k < m.releases.len())
            &&& r is Ok ==> r->Ok_0@ == render_doc(with_yanked(m, k as int))
            &&& r is Err ==> (r->Err_0 matches ChangelogError::ReleaseNotFound(t) && t@ == version@)
        },
{
    if !is_semver(version) {
        return Err(ChangelogError::InvalidVersion);
    }
    let mut log = match parse(doc) {
        Ok(m) => m,
        Err(e) => {
            return Err(e);
        },
    };
    let ghost m = log@;
    match log.yank(version) {
        Ok(_) => {},
        Err(e) => {
            return Err(e);
        },
    }
    proof {
        let k = first_with_version(m.releases, version@) as int;
        assert(log@ == with_yanked(m, k));
        assert forall|i: int| 0 <= i < log@.releases.len() implies (#[trigger] log@.releases[i]).entries.len()
            == CATEGORY_COUNT by {
            if i != k {
                assert(log@.releases[i] == m.releases[i]);
            }
        }
    }
    Ok(render(&log))
}

/// The aggregate operation on a document: the Unreleased entries become `fragments`,
/// grouped by category, and the new text is returned. A document without an Unreleased
/// release is refused.
pub fn aggregate_document(doc: &[u8], fragments: Vec<Change>) -> (r: Result<Vec<u8>, ChangelogError>)
    ensures
        parse_doc(doc@) is Err ==> r == Err::<Vec<u8>, ChangelogError>(parse_doc(doc@)->Err_0),
        parse_doc(doc@) is Ok ==> {
            let m = parse_doc(doc@)->Ok_0;
            &&& (r is Ok <==> (m.releases.len() > 0 && m.releases[0].is_unreleased()))
            &&& r is Ok ==> r->Ok_0@ == render_doc(with_pending(m, changes_view(fragments@)))
            &&& r is Err ==> (r->Err_0 matches ChangelogError::ReleaseNotFound(t) && t@
                == unreleased_word())
        },
{
    let mut log = match parse(doc) {
        Ok(m) => m,
        Err(e) => {
            return Err(e);
        },
    };
    let ghost m = log@;
    let ghost fv = changes_view(fragments@);
    match log.aggregate(fragments) {
        Ok(_) => {},
        Err(e) => {
            return Err(e);
        },
    }
    proof {
        assert(log@ == with_pending(m, fv));
        crate::model::lemma_group_len(fv);
        assert forall|i: int| 0 <= i < log@.releases.len() implies (#[trigger] log@.releases[i]).entries.len()
            == CATEGORY_COUNT by {
            if i != 0 {
                assert(log@.releases[i] == m.releases[i]);
            }
        }
    }
    Ok(render(&log))
}

/// The pending-changes query on a document: the Unreleased entries already there, then
/// `fragments`, grouped into one release and shown with or without its heading.
pub fn show_document(doc: &[u8], fragments: Vec<Change>, headings: bool) -> (r: Result<
    Vec<u8>,
    ChangelogError,
>)
    ensures
        parse_doc(doc@) is Err ==> r == Err::<Vec<u8>, ChangelogError>(parse_doc(doc@)->Err_0),
        parse_doc(doc@) is Ok ==> r is Ok && r->Ok_0@ == shown(
            built(pending_of(parse_doc(doc@)->Ok_0) + changes_view(fragments@)),
            headings,
        ),
{
    let log = match parse(doc) {
        Ok(m) => m,
        Err(e) => {
            return Err(e);
        },
    };
    let rel = pending_release(&log, fragments);
    proof {
        crate::model::lemma_group_len(pending_of(log@) + changes_view(fragments@));
    }
    Ok(show_release(&rel, headings))
}

} // verus!
