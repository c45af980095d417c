use vstd::prelude::*;
use crate::category::{Category, CATEGORY_COUNT, category_at, category_named};
use crate::error::ChangelogError;
use crate::text::{NEWLINE, lacks, trim, lines, ends_line, starts_with};
use crate::version::{semver_valid, semver_order, is_date};
use core::cmp::Ordering;

verus! {

/// One recorded change: a category and a free-text description.
#[derive(Clone, Debug)]
pub struct Change {
    pub category: Category,
    pub description: Vec<u8>,
}

pub struct ChangeView {
    pub category: Category,
    pub description: Seq<u8>,
}

impl View for Change {
    type V = ChangeView;

    open spec fn view(&self) -> ChangeView {
        ChangeView { category: self.category, description: self.description@ }
    }
}

impl Change {
    /// A change of the category that `kind` names in any ASCII case (`added`, `Fixed`, ...).
    pub fn new(kind: &[u8], description: Vec<u8>) -> (r: Result<Change, ChangelogError>)
        ensures
            category_named(kind@) is None ==> r == Err::<Change, ChangelogError>(
                ChangelogError::UnknownCategory,
            ),
            category_named(kind@) is Some ==> r is Ok && r->Ok_0.category == category_named(
                kind@,
            )->Some_0 && r->Ok_0.description@ == description@,
    {
        match Category::from_text(kind) {
            Some(c) => Ok(Change { category: c, description }),
            None => Err(ChangelogError::UnknownCategory),
        }
    }
}

/// A release: `version` is `None` for the Unreleased section. `entries` holds one list
/// of descriptions per category, indexed by the category's position.
#[derive(Clone, Debug)]
pub struct Release {
    pub version: Option<Vec<u8>>,
    pub date: Option<Vec<u8>>,
    pub yanked: bool,
    pub entries: Vec<Vec<Vec<u8>>>,
}

pub struct ReleaseView {
    pub version: Option<Seq<u8>>,
    pub date: Option<Seq<u8>>,
    pub yanked: bool,
    pub entries: Seq<Seq<Seq<u8>>>,
}

pub open spec fn opt_bytes(o: Option<Vec<u8>>) -> Option<Seq<u8>> {
    match o {
        Some(v) => Some(v@),
        None => None,
    }
}

impl View for Release {
    type V = ReleaseView;

    open spec fn view(&self) -> ReleaseView {
        ReleaseView {
            version: opt_bytes(self.version),
            date: opt_bytes(self.date),
            yanked: self.yanked,
            entries: self.entries.deep_view(),
        }
    }
}

/// A whole document: the text before the first release, then the releases.
#[derive(Clone, Debug)]
pub struct Changelog {
    pub preamble: Vec<u8>,
    pub releases: Vec<Release>,
}

pub struct ChangelogView {
    pub preamble: Seq<u8>,
    pub releases: Seq<ReleaseView>,
}

impl View for Changelog {
    type V = ChangelogView;

    open spec fn view(&self) -> ChangelogView {
        ChangelogView { preamble: self.preamble@, releases: self.releases@.map_values(|r: Release| r@) }
    }
}

/// One empty list per category.
pub open spec fn no_entries() -> Seq<Seq<Seq<u8>>> {
    Seq::new(6, |i: int| Seq::<Seq<u8>>::empty())
}

/// A description that survives a line of the document: one line, already trimmed.
pub open spec fn entry_ok(d: Seq<u8>) -> bool {
    lacks(d, NEWLINE) && trim(d) == d
}

/// `## ` opens a release heading.
pub open spec fn release_marker() -> Seq<u8> {
    seq!['#' as u8, '#' as u8, ' ' as u8]
}

pub open spec fn is_release_heading(line: Seq<u8>) -> bool {
    starts_with(line, release_marker())
}

/// The close bracket that ends a version in a heading.
pub const CLOSE_BRACKET: u8 = 93;

impl ReleaseView {
    pub open spec fn is_unreleased(self) -> bool {
        self.version is None
    }

    pub open spec fn entries_ok(self) -> bool {
        &&& self.entries.len() == CATEGORY_COUNT
        &&& forall|c: int, i: int|
            0 <= c < CATEGORY_COUNT && 0 <= i < self.entries[c].len() ==> entry_ok(
                #[trigger] self.entries[c][i],
            )
    }

    pub open spec fn wf(self) -> bool {
        &&& self.entries_ok()
        &&& match self.version {
            None => self.date is None && !self.yanked,
            Some(v) => {
                &&& semver_valid(v)
                &&& lacks(v, CLOSE_BRACKET)
                &&& lacks(v, NEWLINE)
                &&& self.date is Some
                &&& is_date(self.date->Some_0)
            },
        }
    }

    /// The same release with its entries replaced.
    pub open spec fn with_entries(self, e: Seq<Seq<Seq<u8>>>) -> ReleaseView {
        ReleaseView { entries: e, ..self }
    }

    /// The same release marked yanked.
    pub open spec fn as_yanked(self) -> ReleaseView {
        ReleaseView { yanked: true, ..self }
    }
}

/// Unreleased can only come first, and dated releases descend strictly by version.
pub open spec fn releases_ordered(rs: Seq<ReleaseView>) -> bool {
    &&& forall|i: int| 0 < i < rs.len() ==> !(#[trigger] rs[i]).is_unreleased()
    &&& forall|i: int|
        0 <= i && i + 1 < rs.len() && !(#[trigger] rs[i]).is_unreleased() ==> semver_order(
            rs[i].version->Some_0,
            rs[i + 1].version->Some_0,
        ) == Ordering::Greater
}

/// The preamble keeps whole lines, none of them a release heading.
pub open spec fn preamble_ok(p: Seq<u8>) -> bool {
    &&& ends_line(p)
    &&& forall|i: int| 0 <= i < lines(p).len() ==> !is_release_heading(#[trigger] lines(p)[i])
}

impl ChangelogView {
    pub open spec fn wf(self) -> bool {
        &&& preamble_ok(self.preamble)
        &&& forall|i: int| 0 <= i < self.releases.len() ==> (#[trigger] self.releases[i]).wf()
        &&& releases_ordered(self.releases)
    }
}

/// Descriptions grouped by category, each list in the order of `s`.
pub open spec fn group(s: Seq<ChangeView>) -> Seq<Seq<Seq<u8>>>
    decreases s.len(),
{
    if s.len() == 0 {
        no_entries()
    } else {
        let g = group(s.drop_last());
        let c = s.last().category.index();
        g.update(c, g[c].push(s.last().description))
    }
}

/// The changes of the first `n` categories, category by category.
pub open spec fn changes_upto(e: Seq<Seq<Seq<u8>>>, n: int) -> Seq<ChangeView>
    decreases n,
{
    if n <= 0 {
        seq![]
    } else {
        changes_upto(e, n - 1) + e[n - 1].map_values(
            |d: Seq<u8>| ChangeView { category: category_at(n - 1), description: d },
        )
    }
}

/// All changes of a release in canonical category order.
pub open spec fn changes_of(e: Seq<Seq<Seq<u8>>>) -> Seq<ChangeView> {
    changes_upto(e, 6)
}

/// The Unreleased release built from `s`.
pub open spec fn built(s: Seq<ChangeView>) -> ReleaseView {
    ReleaseView { version: None, date: None, yanked: false, entries: group(s) }
}

pub open spec fn changes_view(v: Seq<Change>) -> Seq<ChangeView> {
    v.map_values(|c: Change| c@)
}

pub fn empty_entries() -> (r: Vec<Vec<Vec<u8>>>)
    ensures
        r.deep_view() == no_entries(),
{
    let mut r: Vec<Vec<Vec<u8>>> = Vec::new();
    let mut i: usize = 0;
    while i < CATEGORY_COUNT
        invariant
            i <= CATEGORY_COUNT,
            r@.len() == i,
            forall|j: int| 0 <= j < i ==> (#[trigger] r@[j])@.len() == 0,
        decreases CATEGORY_COUNT - i,
    {
        r.push(Vec::new());
        i = i + 1;
    }
    proof {
        assert(r.deep_view() =~~= no_entries());
    }
    r
}

/// Appends `d` to the list at position `c`.
pub fn push_entry(e: &mut Vec<Vec<Vec<u8>>>, c: usize, d: Vec<u8>)
    requires
        c < old(e)@.len(),
    ensures
        final(e).deep_view() == old(e).deep_view().update(
            c as int,
            old(e).deep_view()[c as int].push(d@),
        ),
{
    let ghost d_view = d@;
    e[c].push(d);
    proof {
        assert(final(e).deep_view() =~~= old(e).deep_view().update(
            c as int,
            old(e).deep_view()[c as int].push(d_view),
        ));
    }
}

impl Release {
    /// Groups `changes` into an Unreleased release; within a category the order of
    /// `changes` is kept.
    pub fn build(changes: Vec<Change>) -> (r: Release)
        ensures
            r@ == built(changes_view(changes@)),
    {
        let mut entries = empty_entries();
        let mut i: usize = 0;
        let ghost s = changes_view(changes@);
        while i < changes.len()
            invariant
                i <= changes@.len(),
                s == changes_view(changes@),
                entries.deep_view() == group(s.take(i as int)),
            decreases changes@.len() - i,
        {
            let ch = &changes[i];
            let c = ch.category.position();
            proof {
                assert(s.take(i as int) =~= s.take(i + 1).drop_last());
                lemma_group_len(s.take(i as int));
            }
            push_entry(&mut entries, c, ch.description.clone());
            i = i + 1;
        }
        proof {
            assert(s.take(i as int) =~= s);
        }
        Release { version: None, date: None, yanked: false, entries }
    }
}

pub proof fn lemma_group_len(s: Seq<ChangeView>)
    ensures
        group(s).len() == 6,
    decreases s.len(),
{
    if s.len() > 0 {
        lemma_group_len(s.drop_last());
    }
}

} // verus!
