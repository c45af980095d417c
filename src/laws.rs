use vstd::prelude::*;
use crate::category::{Category, CATEGORY_COUNT, category_at, category_named, same_ignoring_case, lower_seq};
use crate::error::ChangelogError;
use crate::text::{
    NEWLINE, lacks, lines, join_lines, ends_with, trim, is_blank, lemma_first_of_is,
    lemma_lines_concat, lemma_lines_join, lemma_join_lines_of,
};
use crate::model::{
    ChangeView, group, built, ReleaseView, ChangelogView, no_entries, entry_ok, release_marker,
    is_release_heading, CLOSE_BRACKET, releases_ordered, preamble_ok,
};
use crate::render::{
    unreleased_label, yanked_suffix, date_separator, section_marker, bullet_marker, heading_line,
    section_lines, sections_upto, release_lines, releases_lines, render_doc, bullets, date_text,
};
use crate::engine::{first_with_version, has_version, lemma_first_with_version_found, with_yanked, with_pending};
use crate::parse::{
    ParseState, start_state, heading_release, may_follow, is_section_heading, is_bullet, add_entry,
    step, run, parse_doc,
};

verus! {

/// Reading `a + b` is reading `a`, then `b` from where `a` left off.
pub proof fn lemma_run_concat(st: ParseState, a: Seq<Seq<u8>>, b: Seq<Seq<u8>>)
    ensures
        run(st, a + b) == match run(st, a) {
            Ok(s) => run(s, b),
            Err(e) => Err(e),
        },
    decreases a.len(),
{
    if a.len() == 0 {
        assert(a + b =~= b);
    } else {
        assert((a + b)[0] == a[0]);
        assert((a + b).drop_first() =~= a.drop_first() + b);
        match step(st, a[0]) {
            Ok(s) => lemma_run_concat(s, a.drop_first(), b),
            Err(e) => {},
        }
    }
}

proof fn lemma_run_one(st: ParseState, l: Seq<u8>)
    ensures
        run(st, seq![l]) == step(st, l),
{
    assert(seq![l].drop_first() =~= Seq::<Seq<u8>>::empty());
    match step(st, l) {
        Ok(s) => {
            assert(run(s, seq![l].drop_first()) == Ok::<ParseState, ChangelogError>(s));
        },
        Err(e) => {},
    }
}

proof fn lemma_names_lack(c: Category)
    ensures
        lacks(c.spec_name(), NEWLINE),
        lacks(section_marker() + c.spec_name(), NEWLINE),
        trim(c.spec_name()) == c.spec_name(),
        category_named(c.spec_name()) == Some(c),
        c.spec_name().len() > 0,
{
    let n = c.spec_name();
    assert(lacks(n, NEWLINE));
    assert(lacks(section_marker() + n, NEWLINE));
    assert(!crate::text::is_space(n.last()));
    assert(!crate::text::is_space(n[0]));
    assert(trim(n) == n);
    let a = Category::Added.spec_name();
    let ch = Category::Changed.spec_name();
    let d = Category::Deprecated.spec_name();
    let r = Category::Removed.spec_name();
    let f = Category::Fixed.spec_name();
    let s = Category::Security.spec_name();
    assert(lower_seq(a)[0] == 'a' as u8);
    assert(lower_seq(ch)[0] == 'c' as u8);
    assert(lower_seq(d)[0] == 'd' as u8);
    assert(lower_seq(r)[0] == 'r' as u8);
    assert(lower_seq(f)[0] == 'f' as u8);
    assert(lower_seq(s)[0] == 's' as u8);
    assert(same_ignoring_case(n, n));
}

/// A release heading reads back as the release it was written for, without entries.
proof fn lemma_heading(r: ReleaseView)
    requires
        r.wf(),
    ensures
        is_release_heading(heading_line(r)),
        lacks(heading_line(r), NEWLINE),
        heading_release(heading_line(r)) == Ok::<ReleaseView, ChangelogError>(
            r.with_entries(no_entries()),
        ),
{
    let h = heading_line(r);
    assert(h.take(3) =~= release_marker());
    let rest = h.skip(3);
    match r.version {
        None => {
            assert(rest =~= unreleased_label());
            assert(lacks(h, NEWLINE));
            assert(r.with_entries(no_entries()) == ReleaseView {
                version: None,
                date: None,
                yanked: false,
                entries: no_entries(),
            });
        },
        Some(v) => {
            let d = r.date->Some_0;
            let suf = if r.yanked {
                yanked_suffix()
            } else {
                seq![]
            };
            assert(date_text(r) == d);
            assert(rest =~= seq!['[' as u8] + v + seq![']' as u8] + date_separator() + d + suf);
            assert(rest.len() >= 15);
            assert(rest != unreleased_label());
            let close: int = 1 + v.len() as int;
            assert forall|j: int| 0 <= j < close implies rest[j] != CLOSE_BRACKET by {
                if j > 0 {
                    assert(rest[j] == v[j - 1]);
                }
            }
            lemma_first_of_is(rest, CLOSE_BRACKET, close);
            assert(rest.subrange(1, close) =~= v);
            let after = rest.skip(close + 1);
            assert(after =~= date_separator() + d + suf);
            assert(after.take(3) =~= date_separator());
            let tail = after.skip(3);
            assert(tail =~= d + suf);
            if r.yanked {
                assert(tail.skip(tail.len() - 9) =~= yanked_suffix());
                assert(tail.take(tail.len() - 9) =~= d);
            } else {
                assert(tail =~= d);
                assert(crate::version::is_digit(d[2]));
                assert(tail.skip(1)[1] == d[2]);
                assert(yanked_suffix()[1] == '[' as u8);
                assert(!ends_with(tail, yanked_suffix()));
            }
            assert forall|j: int| 0 <= j < h.len() implies h[j] != NEWLINE by {
                if 3 < j < 4 + v.len() {
                    assert(h[j] == v[j - 4]);
                } else if 8 + v.len() <= j < 18 + v.len() {
                    assert(h[j] == d[j - 8 - v.len()]);
                    assert(j - 8 - v.len() == 4 || j - 8 - v.len() == 7 || crate::version::is_digit(
                        d[j - 8 - v.len()],
                    ));
                }
            }
        },
    }
}

/// The first `n` category lists of `e`, the others empty.
pub open spec fn prefix_entries(e: Seq<Seq<Seq<u8>>>, n: int) -> Seq<Seq<Seq<u8>>> {
    Seq::new(6, |i: int| if i < n { e[i] } else { Seq::<Seq<u8>>::empty() })
}

/// `r` with `ds` appended to category `c`.
pub open spec fn add_entries(r: ReleaseView, c: Category, ds: Seq<Seq<u8>>) -> ReleaseView {
    r.with_entries(r.entries.update(c.index(), r.entries[c.index()] + ds))
}

proof fn lemma_not_heading_by_first(line: Seq<u8>)
    requires
        line.len() > 0,
        line[0] != '#' as u8,
    ensures
        !is_release_heading(line),
        !is_section_heading(line),
{
    if is_release_heading(line) {
        assert(line.take(3)[0] == line[0]);
    }
    if is_section_heading(line) {
        assert(line.take(4)[0] == line[0]);
    }
}

proof fn lemma_step_blank(st: ParseState)
    requires
        st.releases.len() > 0,
    ensures
        step(st, Seq::<u8>::empty()) == Ok::<ParseState, ChangelogError>(st),
{
    let b = Seq::<u8>::empty();
    assert(!is_release_heading(b));
    assert(!is_section_heading(b));
    assert(!is_bullet(b));
    assert(is_blank(b));
}

proof fn lemma_run_bullets(st: ParseState, c: Category, ds: Seq<Seq<u8>>)
    requires
        st.releases.len() > 0,
        st.category == Some(c),
        st.releases.last().entries.len() == CATEGORY_COUNT,
        forall|i: int| 0 <= i < ds.len() ==> entry_ok(#[trigger] ds[i]),
    ensures
        run(st, bullets(ds)) == Ok::<ParseState, ChangelogError>(
            ParseState {
                releases: st.releases.update(
                    st.releases.len() - 1,
                    add_entries(st.releases.last(), c, ds),
                ),
                ..st
            },
        ),
    decreases ds.len(),
{
    let last = st.releases.last();
    let k = st.releases.len() - 1;
    if ds.len() == 0 {
        assert(bullets(ds) =~= Seq::<Seq<u8>>::empty());
        assert(last.entries[c.index()] + ds =~= last.entries[c.index()]);
        assert(last.entries.update(c.index(), last.entries[c.index()] + ds) =~= last.entries);
        assert(st.releases.update(k, add_entries(last, c, ds)) =~= st.releases);
    } else {
        let front = ds.drop_last();
        let d = ds.last();
        let b = bullet_marker() + d;
        assert(bullets(ds) =~= bullets(front) + seq![b]);
        lemma_run_bullets(st, c, front);
        lemma_run_concat(st, bullets(front), seq![b]);
        let mid = ParseState {
            releases: st.releases.update(k, add_entries(last, c, front)),
            ..st
        };
        lemma_run_one(mid, b);
        lemma_not_heading_by_first(b);
        assert(b.take(2) =~= bullet_marker());
        assert(b.skip(2) =~= d);
        assert(entry_ok(d));
        let ml = mid.releases.last();
        assert(ml == add_entries(last, c, front));
        let ci = c.index();
        assert((last.entries[ci] + front).push(d) =~= last.entries[ci] + ds);
        assert(ml.entries.update(ci, ml.entries[ci].push(d)) =~= last.entries.update(
            ci,
            last.entries[ci] + ds,
        ));
        assert(add_entry(ml, c, d) == add_entries(last, c, ds));
        assert(mid.releases.update(k, add_entry(ml, c, d)) =~= st.releases.update(
            k,
            add_entries(last, c, ds),
        ));
    }
}

pub open spec fn entries_wf(e: Seq<Seq<Seq<u8>>>) -> bool {
    &&& e.len() == CATEGORY_COUNT
    &&& forall|c: int, i: int|
        0 <= c < CATEGORY_COUNT && 0 <= i < e[c].len() ==> entry_ok(#[trigger] e[c][i])
}

proof fn lemma_run_section(st: ParseState, e: Seq<Seq<Seq<u8>>>, c: int)
    requires
        0 <= c < CATEGORY_COUNT,
        entries_wf(e),
        st.releases.len() > 0,
        st.releases.last().entries == prefix_entries(e, c),
    ensures
        run(st, section_lines(e, c)) is Ok,
        run(st, section_lines(e, c))->Ok_0.preamble == st.preamble,
        run(st, section_lines(e, c))->Ok_0.releases == st.releases.update(
            st.releases.len() - 1,
            st.releases.last().with_entries(prefix_entries(e, c + 1)),
        ),
{
    let k = st.releases.len() - 1;
    let last = st.releases.last();
    if e[c].len() == 0 {
        assert(section_lines(e, c) =~= Seq::<Seq<u8>>::empty());
        assert(e[c] =~= Seq::<Seq<u8>>::empty());
        assert(prefix_entries(e, c + 1) =~= prefix_entries(e, c));
        assert(st.releases.update(k, last.with_entries(prefix_entries(e, c + 1))) =~= st.releases);
    } else {
        let cat = category_at(c);
        assert(cat.index() == c);
        let h = section_marker() + cat.spec_name();
        lemma_names_lack(cat);
        assert(section_lines(e, c) =~= seq![Seq::<u8>::empty(), h] + bullets(e[c]));
        assert(seq![Seq::<u8>::empty(), h] =~= seq![Seq::<u8>::empty()] + seq![h]);
        lemma_run_concat(st, seq![Seq::<u8>::empty(), h], bullets(e[c]));
        lemma_run_concat(st, seq![Seq::<u8>::empty()], seq![h]);
        lemma_run_one(st, Seq::<u8>::empty());
        lemma_step_blank(st);
        lemma_run_one(st, h);
        assert(h[2] == '#' as u8);
        assert(!is_release_heading(h)) by {
            if is_release_heading(h) {
                assert(h.take(3)[2] == h[2]);
            }
        }
        assert(h.take(4) =~= section_marker());
        assert(h.skip(4) =~= cat.spec_name());
        let st2 = ParseState { category: Some(cat), ..st };
        assert(step(st, h) == Ok::<ParseState, ChangelogError>(st2));
        assert forall|i: int| 0 <= i < e[c].len() implies entry_ok(#[trigger] e[c][i]) by {}
        lemma_run_bullets(st2, cat, e[c]);
        assert(prefix_entries(e, c)[c] =~= Seq::<Seq<u8>>::empty());
        assert(prefix_entries(e, c)[c] + e[c] =~= e[c]);
        assert(prefix_entries(e, c).update(c, prefix_entries(e, c)[c] + e[c]) =~= prefix_entries(
            e,
            c + 1,
        ));
    }
}

proof fn lemma_run_sections(st: ParseState, e: Seq<Seq<Seq<u8>>>, n: int)
    requires
        0 <= n <= CATEGORY_COUNT,
        entries_wf(e),
        st.releases.len() > 0,
        st.releases.last().entries == no_entries(),
    ensures
        run(st, sections_upto(e, n)) is Ok,
        run(st, sections_upto(e, n))->Ok_0.preamble == st.preamble,
        run(st, sections_upto(e, n))->Ok_0.releases == st.releases.update(
            st.releases.len() - 1,
            st.releases.last().with_entries(prefix_entries(e, n)),
        ),
    decreases n,
{
    let k = st.releases.len() - 1;
    if n == 0 {
        assert(sections_upto(e, 0) =~= Seq::<Seq<u8>>::empty());
        assert(prefix_entries(e, 0) =~= no_entries());
        assert(st.releases.last().with_entries(prefix_entries(e, 0)) == st.releases.last());
        assert(st.releases.update(k, st.releases.last()) =~= st.releases);
    } else {
        lemma_run_sections(st, e, n - 1);
        lemma_run_concat(st, sections_upto(e, n - 1), section_lines(e, n - 1));
        let mid = run(st, sections_upto(e, n - 1))->Ok_0;
        assert(mid.releases.last() == st.releases.last().with_entries(prefix_entries(e, n - 1)));
        lemma_run_section(mid, e, n - 1);
        assert(mid.releases.update(
            k,
            mid.releases.last().with_entries(prefix_entries(e, n)),
        ) =~= st.releases.update(k, st.releases.last().with_entries(prefix_entries(e, n))));
    }
}

proof fn lemma_run_release(st: ParseState, r: ReleaseView)
    requires
        r.wf(),
        may_follow(st.releases, r),
    ensures
        run(st, release_lines(r)) is Ok,
        run(st, release_lines(r))->Ok_0.preamble == st.preamble,
        run(st, release_lines(r))->Ok_0.releases == st.releases.push(r),
{
    let h = heading_line(r);
    let r0 = r.with_entries(no_entries());
    lemma_heading(r);
    assert(may_follow(st.releases, r0));
    let st1 = ParseState { releases: st.releases.push(r0), category: None, ..st };
    lemma_run_one(st, h);
    assert(step(st, h) == Ok::<ParseState, ChangelogError>(st1));
    let secs = sections_upto(r.entries, 6);
    assert(release_lines(r) =~= seq![h] + (secs + seq![Seq::<u8>::empty()]));
    lemma_run_concat(st, seq![h], secs + seq![Seq::<u8>::empty()]);
    lemma_run_concat(st1, secs, seq![Seq::<u8>::empty()]);
    assert(entries_wf(r.entries));
    lemma_run_sections(st1, r.entries, 6);
    let st2 = run(st1, secs)->Ok_0;
    assert(prefix_entries(r.entries, 6) =~= r.entries);
    assert(r0.with_entries(r.entries) == r);
    assert(st2.releases =~= st.releases.push(r));
    lemma_run_one(st2, Seq::<u8>::empty());
    lemma_step_blank(st2);
}

proof fn lemma_first_may_follow(prev: Seq<ReleaseView>, rs: Seq<ReleaseView>)
    requires
        rs.len() > 0,
        releases_ordered(prev + rs),
    ensures
        may_follow(prev, rs[0]),
{
    let all = prev + rs;
    let n = prev.len() as int;
    assert(all[n] == rs[0]);
    if n > 0 {
        assert(all[n - 1] == prev.last());
        assert(!all[n].is_unreleased());
        if !all[n - 1].is_unreleased() {
            assert(n - 1 + 1 < all.len());
        }
    }
}

#[verifier::rlimit(60)]
proof fn lemma_run_releases(st: ParseState, rs: Seq<ReleaseView>)
    requires
        forall|i: int| 0 <= i < rs.len() ==> (#[trigger] rs[i]).wf(),
        releases_ordered(st.releases + rs),
    ensures
        run(st, releases_lines(rs)) is Ok,
        run(st, releases_lines(rs))->Ok_0.preamble == st.preamble,
        run(st, releases_lines(rs))->Ok_0.releases == st.releases + rs,
    decreases rs.len(),
{
    if rs.len() == 0 {
        assert(releases_lines(rs) =~= Seq::<Seq<u8>>::empty());
        assert(st.releases + rs =~= st.releases);
    } else {
        let all = st.releases + rs;
        lemma_first_may_follow(st.releases, rs);
        lemma_run_release(st, rs[0]);
        lemma_run_concat(st, release_lines(rs[0]), releases_lines(rs.drop_first()));
        let mid = run(st, release_lines(rs[0]))->Ok_0;
        assert(mid.releases + rs.drop_first() =~= all);
        assert forall|i: int| 0 <= i < rs.drop_first().len() implies (#[trigger] rs.drop_first()[i]).wf() by {
            assert(rs.drop_first()[i] == rs[i + 1]);
        }
        lemma_run_releases(mid, rs.drop_first());
    }
}

proof fn lemma_run_preamble(st: ParseState, ls: Seq<Seq<u8>>)
    requires
        st.releases.len() == 0,
        forall|i: int| 0 <= i < ls.len() ==> !is_release_heading(#[trigger] ls[i]),
    ensures
        run(st, ls) == Ok::<ParseState, ChangelogError>(
            ParseState { preamble: st.preamble + join_lines(ls), ..st },
        ),
    decreases ls.len(),
{
    if ls.len() == 0 {
        assert(st.preamble + join_lines(ls) =~= st.preamble);
    } else {
        assert(!is_release_heading(ls[0]));
        let st1 = ParseState { preamble: st.preamble + ls[0] + seq![NEWLINE], ..st };
        assert forall|i: int| 0 <= i < ls.drop_first().len() implies !is_release_heading(#[trigger] ls.drop_first()[i]) by {
            assert(ls.drop_first()[i] == ls[i + 1]);
        }
        lemma_run_preamble(st1, ls.drop_first());
        assert(st1.preamble + join_lines(ls.drop_first()) =~= st.preamble + join_lines(ls));
    }
}

proof fn lemma_sections_lack(e: Seq<Seq<Seq<u8>>>, n: int)
    requires
        0 <= n <= CATEGORY_COUNT,
        entries_wf(e),
    ensures
        forall|i: int| 0 <= i < sections_upto(e, n).len() ==> lacks(#[trigger] sections_upto(e, n)[i], NEWLINE),
    decreases n,
{
    if n > 0 {
        lemma_sections_lack(e, n - 1);
        let a = sections_upto(e, n - 1);
        let b = section_lines(e, n - 1);
        lemma_names_lack(category_at(n - 1));
        assert forall|i: int| 0 <= i < b.len() implies lacks(#[trigger] b[i], NEWLINE) by {
            if i >= 2 {
                let d = e[n - 1][i - 2];
                assert(entry_ok(d));
                assert(b[i] == bullet_marker() + d);
                assert(lacks(bullet_marker() + d, NEWLINE)) by {
                    assert forall|j: int| 0 <= j < (bullet_marker() + d).len() implies (bullet_marker() + d)[j] != NEWLINE by {
                        if j >= 2 {
                            assert((bullet_marker() + d)[j] == d[j - 2]);
                        }
                    }
                }
            }
        }
        assert forall|i: int| 0 <= i < (a + b).len() implies lacks(#[trigger] (a + b)[i], NEWLINE) by {
            if i >= a.len() {
                assert((a + b)[i] == b[i - a.len()]);
            }
        }
    }
}

proof fn lemma_releases_lines_lack(rs: Seq<ReleaseView>)
    requires
        forall|i: int| 0 <= i < rs.len() ==> (#[trigger] rs[i]).wf(),
    ensures
        forall|i: int| 0 <= i < releases_lines(rs).len() ==> lacks(#[trigger] releases_lines(rs)[i], NEWLINE),
    decreases rs.len(),
{
    if rs.len() > 0 {
        let r = rs[0];
        assert(r.wf());
        lemma_heading(r);
        assert(entries_wf(r.entries));
        lemma_sections_lack(r.entries, 6);
        let rl = release_lines(r);
        assert forall|i: int| 0 <= i < rl.len() implies lacks(#[trigger] rl[i], NEWLINE) by {
            if 0 < i < rl.len() - 1 {
                assert(rl[i] == sections_upto(r.entries, 6)[i - 1]);
            }
        }
        assert forall|i: int| 0 <= i < rs.drop_first().len() implies (#[trigger] rs.drop_first()[i]).wf() by {
            assert(rs.drop_first()[i] == rs[i + 1]);
        }
        lemma_releases_lines_lack(rs.drop_first());
        let rest = releases_lines(rs.drop_first());
        assert forall|i: int| 0 <= i < (rl + rest).len() implies lacks(#[trigger] (rl + rest)[i], NEWLINE) by {
            if i >= rl.len() {
                assert((rl + rest)[i] == rest[i - rl.len()]);
            }
        }
    }
}

/// Reading the text of a well-formed changelog gives back that very changelog: the same
/// preamble, the same releases in the same order, each with the same version, date,
/// yanked flag and entry lists.
pub proof fn lemma_round_trip(m: ChangelogView)
    requires
        m.wf(),
    ensures
        parse_doc(render_doc(m)) == Ok::<ChangelogView, ChangelogError>(m),
{
    let p = m.preamble;
    let rl = releases_lines(m.releases);
    lemma_releases_lines_lack(m.releases);
    lemma_lines_join(rl);
    lemma_lines_concat(p, join_lines(rl));
    assert(lines(render_doc(m)) == lines(p) + rl);
    lemma_run_concat(start_state(), lines(p), rl);
    lemma_run_preamble(start_state(), lines(p));
    lemma_join_lines_of(p);
    let st = ParseState { preamble: Seq::<u8>::empty() + join_lines(lines(p)), ..start_state() };
    assert(st.preamble =~= p);
    assert(st.releases + m.releases =~= m.releases);
    lemma_run_releases(st, m.releases);
}

/// Rendering a well-formed changelog, reading the text back and rendering again gives
/// the same bytes.
pub proof fn lemma_render_idempotent(m: ChangelogView)
    requires
        m.wf(),
    ensures
        parse_doc(render_doc(m)) is Ok,
        render_doc(parse_doc(render_doc(m))->Ok_0) == render_doc(m),
{
    lemma_round_trip(m);
}

proof fn lemma_ordered_same_versions(rs: Seq<ReleaseView>, k: int, x: ReleaseView)
    requires
        releases_ordered(rs),
        0 <= k < rs.len(),
        x.version == rs[k].version,
    ensures
        releases_ordered(rs.update(k, x)),
{
    let u = rs.update(k, x);
    assert forall|i: int| 0 < i < u.len() implies !(#[trigger] u[i]).is_unreleased() by {
        assert(u[i].version == rs[i].version);
    }
    assert forall|i: int|
        0 <= i && i + 1 < u.len() && !(#[trigger] u[i]).is_unreleased() implies crate::version::semver_order(
            u[i].version->Some_0,
            u[i + 1].version->Some_0,
        ) == core::cmp::Ordering::Greater by {
        assert(u[i].version == rs[i].version);
        assert(u[i + 1].version == rs[i + 1].version);
    }
}

proof fn lemma_ordered_push(rs: Seq<ReleaseView>, r: ReleaseView)
    requires
        releases_ordered(rs),
        may_follow(rs, r),
    ensures
        releases_ordered(rs.push(r)),
{
    let u = rs.push(r);
    assert forall|i: int| 0 < i < u.len() implies !(#[trigger] u[i]).is_unreleased() by {
        if i < rs.len() {
            assert(u[i] == rs[i]);
        }
    }
    assert forall|i: int|
        0 <= i && i + 1 < u.len() && !(#[trigger] u[i]).is_unreleased() implies crate::version::semver_order(
            u[i].version->Some_0,
            u[i + 1].version->Some_0,
        ) == core::cmp::Ordering::Greater by {
        if i + 1 < rs.len() {
            assert(u[i] == rs[i]);
            assert(u[i + 1] == rs[i + 1]);
        } else {
            assert(u[i] == rs.last());
        }
    }
}

proof fn lemma_run_ordered(st: ParseState, ls: Seq<Seq<u8>>)
    requires
        releases_ordered(st.releases),
    ensures
        run(st, ls) is Ok ==> releases_ordered(run(st, ls)->Ok_0.releases),
    decreases ls.len(),
{
    if ls.len() > 0 {
        let l = ls[0];
        match step(st, l) {
            Ok(s) => {
                if is_release_heading(l) {
                    let r = heading_release(l)->Ok_0;
                    lemma_ordered_push(st.releases, r);
                } else if st.releases.len() == 0 {
                } else if is_section_heading(l) {
                } else if is_bullet(l) {
                    let c = st.category->Some_0;
                    let k = st.releases.len() - 1;
                    lemma_ordered_same_versions(
                        st.releases,
                        k,
                        add_entry(st.releases.last(), c, trim(l.skip(2))),
                    );
                }
                lemma_run_ordered(s, ls.drop_first());
            },
            Err(_) => {},
        }
    }
}

/// In a changelog read from any text, Unreleased can only come first and the dated
/// releases descend strictly by semantic version.
pub proof fn lemma_parsed_ordered(doc: Seq<u8>)
    ensures
        parse_doc(doc) is Ok ==> releases_ordered(parse_doc(doc)->Ok_0.releases),
{
    lemma_run_ordered(start_state(), lines(doc));
}

/// Yanking a release or replacing the Unreleased entries keeps the order of releases.
pub proof fn lemma_edits_keep_order(rs: Seq<ReleaseView>, k: int, e: Seq<Seq<Seq<u8>>>)
    requires
        releases_ordered(rs),
        0 <= k < rs.len(),
    ensures
        releases_ordered(rs.update(k, rs[k].as_yanked())),
        releases_ordered(rs.update(k, rs[k].with_entries(e))),
{
    lemma_ordered_same_versions(rs, k, rs[k].as_yanked());
    lemma_ordered_same_versions(rs, k, rs[k].with_entries(e));
}

proof fn lemma_section_not_heading_of(e: Seq<Seq<Seq<u8>>>, n: int, c: Category)
    requires
        0 <= n <= CATEGORY_COUNT,
        e.len() == CATEGORY_COUNT,
        e[c.index()].len() == 0,
    ensures
        forall|i: int| 0 <= i < sections_upto(e, n).len() ==> #[trigger] sections_upto(e, n)[i]
            != section_marker() + c.spec_name(),
    decreases n,
{
    let h = section_marker() + c.spec_name();
    lemma_names_lack(c);
    assert(h[0] == '#' as u8);
    assert(h[4] == c.spec_name()[0]);
    if n > 0 {
        lemma_section_not_heading_of(e, n - 1, c);
        let a = sections_upto(e, n - 1);
        let b = section_lines(e, n - 1);
        let cn = category_at(n - 1);
        lemma_names_lack(cn);
        assert(cn.index() == n - 1);
        assert forall|i: int| 0 <= i < b.len() implies #[trigger] b[i] != h by {
            assert(e[n - 1].len() > 0);
            assert(b == seq![Seq::<u8>::empty(), section_marker() + cn.spec_name()] + bullets(e[n - 1]));
            if i == 0 {
                assert(b[0].len() == 0);
            } else if i == 1 {
                assert(cn != c);
                assert(b[1][4] == cn.spec_name()[0]);
                assert(cn.spec_name()[0] != c.spec_name()[0]);
            } else if i >= 2 {
                assert(b[i] == bullet_marker() + e[n - 1][i - 2]);
                assert(b[i][0] == '-' as u8);
            }
        }
        assert forall|i: int| 0 <= i < (a + b).len() implies #[trigger] (a + b)[i] != h by {
            if i >= a.len() {
                assert((a + b)[i] == b[i - a.len()]);
            }
        }
    }
}

/// A rendered release has no heading line for a category that has no entries.
pub proof fn lemma_no_empty_category_heading(r: ReleaseView, c: Category)
    requires
        r.entries.len() == CATEGORY_COUNT,
        r.entries[c.index()].len() == 0,
    ensures
        forall|i: int| 0 <= i < release_lines(r).len() ==> #[trigger] release_lines(r)[i]
            != section_marker() + c.spec_name(),
{
    let h = section_marker() + c.spec_name();
    lemma_names_lack(c);
    lemma_section_not_heading_of(r.entries, 6, c);
    let rl = release_lines(r);
    assert forall|i: int| 0 <= i < rl.len() implies #[trigger] rl[i] != h by {
        if i == 0 {
            assert(h[2] == '#' as u8);
            assert(heading_line(r)[2] == ' ' as u8);
        } else if i < rl.len() - 1 {
            assert(rl[i] == sections_upto(r.entries, 6)[i - 1]);
        }
    }
}

/// Yanking the release with version `v` in a well-formed changelog gives a well-formed
/// changelog whose text reads back with that release yanked and every other release as
/// it was.
#[verifier::rlimit(80)]
pub proof fn lemma_yank_persists(m: ChangelogView, v: Seq<u8>)
    requires
        m.wf(),
        first_with_version(m.releases, v) < m.releases.len(),
    ensures
        with_yanked(m, first_with_version(m.releases, v) as int).wf(),
        parse_doc(render_doc(with_yanked(m, first_with_version(m.releases, v) as int))) == Ok::<
            ChangelogView,
            ChangelogError,
        >(with_yanked(m, first_with_version(m.releases, v) as int)),
        with_yanked(m, first_with_version(m.releases, v) as int).releases[first_with_version(
            m.releases,
            v,
        ) as int].yanked,
        forall|j: int|
            0 <= j < m.releases.len() && j != first_with_version(m.releases, v) ==> #[trigger] with_yanked(
                m,
                first_with_version(m.releases, v) as int,
            ).releases[j] == m.releases[j],
{
    let k = first_with_version(m.releases, v) as int;
    lemma_first_with_version_found(m.releases, v);
    let m2 = with_yanked(m, k);
    assert(has_version(m.releases[k], v));
    assert(m.releases[k].wf());
    assert(m2.releases[k].wf());
    assert forall|i: int| 0 <= i < m2.releases.len() implies (#[trigger] m2.releases[i]).wf() by {
        if i != k {
            assert(m2.releases[i] == m.releases[i]);
        }
    }
    lemma_edits_keep_order(m.releases, k, Seq::<Seq<Seq<u8>>>::empty());
    assert(preamble_ok(m2.preamble));
    assert(releases_ordered(m2.releases));
    assert(m2.wf());
    lemma_round_trip(m2);
}

proof fn lemma_group_ok(s: Seq<ChangeView>)
    requires
        forall|i: int| 0 <= i < s.len() ==> entry_ok(#[trigger] s[i].description),
    ensures
        entries_wf(group(s)),
    decreases s.len(),
{
    if s.len() == 0 {
        assert(group(s) == no_entries());
    } else {
        let f = s.drop_last();
        assert forall|i: int| 0 <= i < f.len() implies entry_ok(#[trigger] f[i].description) by {
            assert(f[i] == s[i]);
        }
        lemma_group_ok(f);
        let g = group(f);
        let c = s.last().category.index();
        assert(entry_ok(s[s.len() - 1].description));
        let g2 = g.update(c, g[c].push(s.last().description));
        assert forall|a: int, i: int| 0 <= a < CATEGORY_COUNT && 0 <= i < g2[a].len() implies entry_ok(
            #[trigger] g2[a][i],
        ) by {
            if a == c && i == g[c].len() {
                assert(g2[a][i] == s.last().description);
            } else {
                assert(g2[a][i] == g[a][i]);
            }
        }
    }
}

/// Replacing the Unreleased entries of a well-formed changelog with changes whose
/// descriptions are single trimmed lines gives a well-formed changelog whose text reads
/// back with exactly those changes, grouped by category, under Unreleased.
#[verifier::rlimit(80)]
pub proof fn lemma_aggregate_persists(m: ChangelogView, s: Seq<ChangeView>)
    requires
        m.wf(),
        m.releases.len() > 0,
        m.releases[0].is_unreleased(),
        forall|i: int| 0 <= i < s.len() ==> entry_ok(#[trigger] s[i].description),
    ensures
        with_pending(m, s).wf(),
        parse_doc(render_doc(with_pending(m, s))) == Ok::<ChangelogView, ChangelogError>(
            with_pending(m, s),
        ),
        with_pending(m, s).releases[0].entries == group(s),
{
    let m2 = with_pending(m, s);
    lemma_group_ok(s);
    assert(m.releases[0].wf());
    assert(m2.releases[0].wf());
    assert forall|i: int| 0 <= i < m2.releases.len() implies (#[trigger] m2.releases[i]).wf() by {
        if i != 0 {
            assert(m2.releases[i] == m.releases[i]);
        }
    }
    lemma_edits_keep_order(m.releases, 0, built(s).entries);
    assert(preamble_ok(m2.preamble));
    assert(releases_ordered(m2.releases));
    assert(m2.wf());
    lemma_round_trip(m2);
}

} // verus!
