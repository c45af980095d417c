use vstd::prelude::*;
use core::cmp::Ordering;
use crate::category::{Category, CATEGORY_COUNT, category_named};
use crate::error::ChangelogError;
use crate::text::{
    NEWLINE, first_of, lines, starts_with, ends_with, trim, is_blank, find_byte, copy_range,
    append_bytes, has_prefix, has_suffix, trimmed, blank, bytes_eq, lemma_first_of,
};
use crate::version::{semver_valid, semver_order, is_date, is_semver, compare_semver, check_date};
use crate::model::{
    Release, ReleaseView, Changelog, ChangelogView, no_entries, empty_entries, push_entry,
    is_release_heading, CLOSE_BRACKET, releases_ordered,
};
use crate::render::{unreleased_label, yanked_suffix, date_separator, section_marker, bullet_marker};

verus! {

/// Where the parser stands after some lines: the preamble so far, the releases so far
/// (the last one still open), and the open category, if any.
pub struct ParseState {
    pub preamble: Seq<u8>,
    pub releases: Seq<ReleaseView>,
    pub category: Option<Category>,
}

pub open spec fn start_state() -> ParseState {
    ParseState { preamble: seq![], releases: seq![], category: None }
}

/// The release that a release heading line opens.
pub open spec fn heading_release(line: Seq<u8>) -> Result<ReleaseView, ChangelogError> {
    let rest = line.skip(3);
    if rest == unreleased_label() {
        Ok(ReleaseView { version: None, date: None, yanked: false, entries: no_entries() })
    } else {
        let close = first_of(rest, CLOSE_BRACKET);
        if rest.len() == 0 || rest[0] != '[' as u8 || close >= rest.len() {
            Err(ChangelogError::MalformedDocument)
        } else {
            let version = rest.subrange(1, close as int);
            let after = rest.skip(close + 1 as int);
            if !starts_with(after, date_separator()) {
                Err(ChangelogError::MalformedDocument)
            } else {
                let tail = after.skip(3);
                let yanked = ends_with(tail, yanked_suffix());
                let date = if yanked {
                    tail.take(tail.len() - 9)
                } else {
                    tail
                };
                if !is_date(date) {
                    Err(ChangelogError::MalformedDocument)
                } else if !semver_valid(version) {
                    Err(ChangelogError::InvalidVersion)
                } else {
                    Ok(
                        ReleaseView {
                            version: Some(version),
                            date: Some(date),
                            yanked,
                            entries: no_entries(),
                        },
                    )
                }
            }
        }
    }
}

/// Whether `r` may come after the releases `rs`: Unreleased only first, and a dated
/// release only below Unreleased or below a greater version.
pub open spec fn may_follow(rs: Seq<ReleaseView>, r: ReleaseView) -> bool {
    rs.len() == 0 || (!r.is_unreleased() && (rs.last().is_unreleased() || semver_order(
        rs.last().version->Some_0,
        r.version->Some_0,
    ) == Ordering::Greater))
}

pub open spec fn is_section_heading(line: Seq<u8>) -> bool {
    starts_with(line, section_marker())
}

pub open spec fn is_bullet(line: Seq<u8>) -> bool {
    starts_with(line, bullet_marker())
}

/// `r` with `d` appended to the entries of category `c`.
pub open spec fn add_entry(r: ReleaseView, c: Category, d: Seq<u8>) -> ReleaseView {
    r.with_entries(r.entries.update(c.index(), r.entries[c.index()].push(d)))
}

/// One line of the document read in state `st`.
pub open spec fn step(st: ParseState, line: Seq<u8>) -> Result<ParseState, ChangelogError> {
    if is_release_heading(line) {
        match heading_release(line) {
            Err(e) => Err(e),
            Ok(r) => if may_follow(st.releases, r) {
                Ok(ParseState { releases: st.releases.push(r), category: None, ..st })
            } else {
                Err(ChangelogError::MalformedDocument)
            },
        }
    } else if st.releases.len() == 0 {
        Ok(ParseState { preamble: st.preamble + line + seq![NEWLINE], ..st })
    } else if is_section_heading(line) {
        match category_named(trim(line.skip(4))) {
            Some(c) => Ok(ParseState { category: Some(c), ..st }),
            None => Err(ChangelogError::UnknownCategory),
        }
    } else if is_bullet(line) {
        match st.category {
            None => Err(ChangelogError::UnexpectedEntry),
            Some(c) => Ok(
                ParseState {
                    releases: st.releases.update(
                        st.releases.len() - 1,
                        add_entry(st.releases.last(), c, trim(line.skip(2))),
                    ),
                    ..st
                },
            ),
        }
    } else if is_blank(line) {
        Ok(st)
    } else {
        Err(ChangelogError::MalformedDocument)
    }
}

/// The lines `ls` read one after another from state `st`; the first failure stops.
pub open spec fn run(st: ParseState, ls: Seq<Seq<u8>>) -> Result<ParseState, ChangelogError>
    decreases ls.len(),
{
    if ls.len() == 0 {
        Ok(st)
    } else {
        match step(st, ls[0]) {
            Ok(s) => run(s, ls.drop_first()),
            Err(e) => Err(e),
        }
    }
}

/// The changelog that a document holds, or why it holds none.
pub open spec fn parse_doc(doc: Seq<u8>) -> Result<ChangelogView, ChangelogError> {
    match run(start_state(), lines(doc)) {
        Ok(st) => Ok(ChangelogView { preamble: st.preamble, releases: st.releases }),
        Err(e) => Err(e),
    }
}

struct Parser {
    preamble: Vec<u8>,
    releases: Vec<Release>,
    category: Option<Category>,
}

impl View for Parser {
    type V = ParseState;

    closed spec fn view(&self) -> ParseState {
        ParseState {
            preamble: self.preamble@,
            releases: self.releases@.map_values(|r: Release| r@),
            category: self.category,
        }
    }
}

impl Parser {
    spec fn inv(&self) -> bool {
        forall|k: int|
            0 <= k < self.releases@.len() ==> {
                &&& (#[trigger] self.releases@[k])@.entries.len() == CATEGORY_COUNT
                &&& match self.releases@[k]@.version {
                    Some(v) => semver_valid(v),
                    None => true,
                }
            }
    }

    fn feed(&mut self, line: &[u8]) -> (r: Result<(), ChangelogError>)
        requires
            old(self).inv(),
        ensures
            final(self).inv(),
            step(old(self)@, line@) == match r {
                Ok(_) => Ok(final(self)@),
                Err(e) => Err::<ParseState, ChangelogError>(e),
            },
    {
        let ghost st = self@;
        let heading_marker: Vec<u8> = vec!['#' as u8, '#' as u8, ' ' as u8];
        if has_prefix(line, heading_marker.as_slice()) {
            let r = match parse_heading(line) {
                Err(e) => {
                    return Err(e);
                },
                Ok(r) => r,
            };
            let n = self.releases.len();
            let follows = if n == 0 {
                true
            } else {
                match (&self.releases[n - 1].version, &r.version) {
                    (_, None) => false,
                    (None, Some(_)) => true,
                    (Some(a), Some(b)) => {
                        proof {
                            assert(self.releases@[n - 1]@.version == Some(a@));
                        }
                        matches!(compare_semver(a.as_slice(), b.as_slice()), Ordering::Greater)
                    },
                }
            };
            proof {
                if n > 0 {
                    assert(st.releases.last() == self.releases@[n - 1]@);
                }
            }
            if !follows {
                return Err(ChangelogError::MalformedDocument);
            }
            self.releases.push(r);
            self.category = None;
            proof {
                assert(self@.releases =~= st.releases.push(r@));
            }
            return Ok(());
        }
        if self.releases.len() == 0 {
            append_bytes(&mut self.preamble, line);
            self.preamble.push(NEWLINE);
            proof {
                assert(self@.releases =~= st.releases);
                assert(self@.preamble =~= st.preamble + line@ + seq![NEWLINE]);
            }
            return Ok(());
        }
        let section: Vec<u8> = vec!['#' as u8, '#' as u8, '#' as u8, ' ' as u8];
        if has_prefix(line, section.as_slice()) {
            let name = trimmed(copy_range(line, 4, line.len()).as_slice());
            proof {
                assert(line@.subrange(4, line@.len() as int) =~= line@.skip(4));
            }
            match Category::from_text(name.as_slice()) {
                Some(c) => {
                    self.category = Some(c);
                    proof {
                        assert(self@.releases =~= st.releases);
                    }
                    return Ok(());
                },
                None => {
                    return Err(ChangelogError::UnknownCategory);
                },
            }
        }
        let bullet: Vec<u8> = vec!['-' as u8, ' ' as u8];
        if has_prefix(line, bullet.as_slice()) {
            match self.category {
                None => {
                    return Err(ChangelogError::UnexpectedEntry);
                },
                Some(c) => {
                    let d = trimmed(copy_range(line, 2, line.len()).as_slice());
                    proof {
                        assert(line@.subrange(2, line@.len() as int) =~= line@.skip(2));
                    }
                    let last = self.releases.len() - 1;
                    let ghost old_last = self.releases@[last as int];
                    let pos = c.position();
                    push_entry(&mut self.releases[last].entries, pos, d);
                    proof {
                        assert(self.releases@[last as int]@ == add_entry(
                            old_last@,
                            c,
                            d@,
                        ));
                        assert(self@.releases =~= st.releases.update(
                            st.releases.len() - 1,
                            add_entry(st.releases.last(), c, trim(line@.skip(2))),
                        ));
                        assert forall|k: int| 0 <= k < self.releases@.len() implies {
                            &&& (#[trigger] self.releases@[k])@.entries.len() == CATEGORY_COUNT
                            &&& match self.releases@[k]@.version {
                                Some(v) => semver_valid(v),
                                None => true,
                            }
                        } by {
                            if k != last {
                                assert(self.releases@[k] == old(self).releases@[k]);
                            }
                        }
                    }
                    return Ok(());
                },
            }
        }
        if blank(line) {
            Ok(())
        } else {
            Err(ChangelogError::MalformedDocument)
        }
    }
}

/// Reads a release heading line (it starts with `## `).
fn parse_heading(line: &[u8]) -> (r: Result<Release, ChangelogError>)
    requires
        is_release_heading(line@),
    ensures
        match r {
            Ok(rel) => heading_release(line@) == Ok::<ReleaseView, ChangelogError>(rel@)
                && rel@.entries.len() == CATEGORY_COUNT,
            Err(e) => heading_release(line@) == Err::<ReleaseView, ChangelogError>(e),
        },
{
    let rest = copy_range(line, 3, line.len());
    proof {
        assert(rest@ =~= line@.skip(3));
    }
    let label: Vec<u8> = vec![
        '[' as u8, 'U' as u8, 'n' as u8, 'r' as u8, 'e' as u8, 'l' as u8, 'e' as u8, 'a' as u8,
        's' as u8, 'e' as u8, 'd' as u8, ']' as u8,
    ];
    if bytes_eq(rest.as_slice(), label.as_slice()) {
        return Ok(Release { version: None, date: None, yanked: false, entries: empty_entries() });
    }
    let close = find_byte(rest.as_slice(), 0, CLOSE_BRACKET);
    proof {
        assert(rest@.skip(0) =~= rest@);
    }
    if rest.len() == 0 || rest[0] != '[' as u8 || close >= rest.len() {
        return Err(ChangelogError::MalformedDocument);
    }
    proof {
        lemma_first_of(rest@, CLOSE_BRACKET);
    }
    let version = copy_range(rest.as_slice(), 1, close);
    let after = copy_range(rest.as_slice(), close + 1, rest.len());
    proof {
        assert(after@ =~= rest@.skip(close + 1 as int));
    }
    let sep: Vec<u8> = vec![' ' as u8, '-' as u8, ' ' as u8];
    if !has_prefix(after.as_slice(), sep.as_slice()) {
        return Err(ChangelogError::MalformedDocument);
    }
    let tail = copy_range(after.as_slice(), 3, after.len());
    proof {
        assert(tail@ =~= after@.skip(3));
    }
    let suffix: Vec<u8> = vec![
        ' ' as u8, '[' as u8, 'Y' as u8, 'A' as u8, 'N' as u8, 'K' as u8, 'E' as u8, 'D' as u8,
        ']' as u8,
    ];
    let yanked = has_suffix(tail.as_slice(), suffix.as_slice());
    let date = if yanked {
        let d = copy_range(tail.as_slice(), 0, tail.len() - 9);
        proof {
            assert(d@ =~= tail@.take(tail@.len() - 9));
        }
        d
    } else {
        tail
    };
    if !check_date(date.as_slice()) {
        return Err(ChangelogError::MalformedDocument);
    }
    if !is_semver(version.as_slice()) {
        return Err(ChangelogError::InvalidVersion);
    }
    Ok(Release { version: Some(version), date: Some(date), yanked, entries: empty_entries() })
}

/// Reads a changelog document. Empty input gives an empty changelog.
pub fn parse(doc: &[u8]) -> (r: Result<Changelog, ChangelogError>)
    ensures
        match r {
            Ok(m) => parse_doc(doc@) == Ok::<ChangelogView, ChangelogError>(m@),
            Err(e) => parse_doc(doc@) == Err::<ChangelogView, ChangelogError>(e),
        },
        r is Ok ==> forall|i: int|
            0 <= i < r->Ok_0@.releases.len() ==> (#[trigger] r->Ok_0@.releases[i]).entries.len()
                == CATEGORY_COUNT,
        r is Ok ==> releases_ordered(r->Ok_0@.releases),
{
    proof {
        crate::laws::lemma_parsed_ordered(doc@);
    }
    let mut p = Parser { preamble: Vec::new(), releases: Vec::new(), category: None };
    proof {
        assert(p@.releases =~= Seq::<ReleaseView>::empty());
        assert(p@ == start_state());
        assert(doc@.skip(0) =~= doc@);
    }
    let mut pos: usize = 0;
    while pos < doc.len()
        invariant
            pos <= doc@.len(),
            p.inv(),
            run(start_state(), lines(doc@)) == run(p@, lines(doc@.skip(pos as int))),
        decreases doc@.len() - pos,
    {
        let e = find_byte(doc, pos, NEWLINE);
        let line = copy_range(doc, pos, e);
        let ghost s = doc@.skip(pos as int);
        let ghost before = p@;
        proof {
            assert(s.len() > 0);
            if e < doc@.len() {
                assert(s.take(e - pos) =~= line@);
                assert(s.skip(e - pos + 1) =~= doc@.skip(e + 1));
            } else {
                assert(s =~= line@);
                assert(doc@.skip(doc@.len() as int) =~= Seq::<u8>::empty());
                assert(lines(Seq::<u8>::empty()) =~= Seq::<Seq<u8>>::empty());
            }
            assert(lines(s).drop_first() == lines(if e < doc@.len() {
                doc@.skip(e + 1)
            } else {
                doc@.skip(doc@.len() as int)
            }));
        }
        match p.feed(line.as_slice()) {
            Err(err) => {
                return Err(err);
            },
            Ok(_) => {},
        }
        pos = if e < doc.len() {
            e + 1
        } else {
            doc.len()
        };
    }
    proof {
        assert(doc@.skip(pos as int) =~= Seq::<u8>::empty());
        assert(lines(Seq::<u8>::empty()) =~= Seq::<Seq<u8>>::empty());
    }
    let m = Changelog { preamble: p.preamble, releases: p.releases };
    proof {
        assert(m@.releases =~= p@.releases);
    }
    Ok(m)
}

} // verus!
