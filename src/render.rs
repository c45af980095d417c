use vstd::prelude::*;
use crate::category::{Category, CATEGORY_COUNT, category_at};
use crate::text::{NEWLINE, join_lines, trim_end, append_bytes, is_space_byte};
use crate::model::{Release, ReleaseView, Changelog, ChangelogView, release_marker};

verus! {

/// `[Unreleased]`
pub open spec fn unreleased_label() -> Seq<u8> {
    seq![
        '[' as u8, 'U' as u8, 'n' as u8, 'r' as u8, 'e' as u8, 'l' as u8, 'e' as u8, 'a' as u8,
        's' as u8, 'e' as u8, 'd' as u8, ']' as u8,
    ]
}

/// `Unreleased`, the name of the pending release.
pub open spec fn unreleased_word() -> Seq<u8> {
    seq!['U' as u8, 'n' as u8, 'r' as u8, 'e' as u8, 'l' as u8, 'e' as u8, 'a' as u8, 's' as u8, 'e' as u8, 'd' as u8]
}

pub fn unreleased_word_bytes() -> (r: Vec<u8>)
    ensures
        r@ == unreleased_word(),
{
    vec!['U' as u8, 'n' as u8, 'r' as u8, 'e' as u8, 'l' as u8, 'e' as u8, 'a' as u8, 's' as u8, 'e' as u8, 'd' as u8]
}

/// ` [YANKED]`
pub open spec fn yanked_suffix() -> Seq<u8> {
    seq![' ' as u8, '[' as u8, 'Y' as u8, 'A' as u8, 'N' as u8, 'K' as u8, 'E' as u8, 'D' as u8, ']' as u8]
}

/// ` - ` between a version and its date.
pub open spec fn date_separator() -> Seq<u8> {
    seq![' ' as u8, '-' as u8, ' ' as u8]
}

/// `### ` opens a category heading.
pub open spec fn section_marker() -> Seq<u8> {
    seq!['#' as u8, '#' as u8, '#' as u8, ' ' as u8]
}

/// `- ` opens an entry.
pub open spec fn bullet_marker() -> Seq<u8> {
    seq!['-' as u8, ' ' as u8]
}

pub open spec fn date_text(r: ReleaseView) -> Seq<u8> {
    match r.date {
        Some(d) => d,
        None => seq![],
    }
}

/// The heading line of a release.
pub open spec fn heading_line(r: ReleaseView) -> Seq<u8> {
    match r.version {
        None => release_marker() + unreleased_label(),
        Some(v) => release_marker() + seq!['[' as u8] + v + seq![']' as u8] + date_separator()
            + date_text(r) + if r.yanked {
            yanked_suffix()
        } else {
            seq![]
        },
    }
}

pub open spec fn bullets(ds: Seq<Seq<u8>>) -> Seq<Seq<u8>> {
    ds.map_values(|d: Seq<u8>| bullet_marker() + d)
}

/// The lines of one category: nothing when it is empty, else a blank line, its heading
/// and one bullet per entry.
pub open spec fn section_lines(e: Seq<Seq<Seq<u8>>>, c: int) -> Seq<Seq<u8>> {
    if e[c].len() == 0 {
        seq![]
    } else {
        seq![seq![], section_marker() + category_at(c).spec_name()] + bullets(e[c])
    }
}

pub open spec fn sections_upto(e: Seq<Seq<Seq<u8>>>, n: int) -> Seq<Seq<u8>>
    decreases n,
{
    if n <= 0 {
        seq![]
    } else {
        sections_upto(e, n - 1) + section_lines(e, n - 1)
    }
}

/// A release without its heading: its categories in canonical order, then a blank line.
pub open spec fn body_lines(r: ReleaseView) -> Seq<Seq<u8>> {
    sections_upto(r.entries, 6) + seq![seq![]]
}

pub open spec fn release_lines(r: ReleaseView) -> Seq<Seq<u8>> {
    seq![heading_line(r)] + body_lines(r)
}

pub open spec fn releases_lines(rs: Seq<ReleaseView>) -> Seq<Seq<u8>>
    decreases rs.len(),
{
    if rs.len() == 0 {
        seq![]
    } else {
        release_lines(rs[0]) + releases_lines(rs.drop_first())
    }
}

/// The document text of a changelog.
pub open spec fn render_doc(m: ChangelogView) -> Seq<u8> {
    m.preamble + join_lines(releases_lines(m.releases))
}

/// What the pending-changes query prints for a release: its lines, with or without the
/// heading, trailing white space cut, and one final newline.
pub open spec fn shown(r: ReleaseView, headings: bool) -> Seq<u8> {
    let ls = if headings {
        release_lines(r)
    } else {
        body_lines(r)
    };
    trim_end(join_lines(ls)) + seq![NEWLINE]
}

pub proof fn lemma_join_append(a: Seq<Seq<u8>>, b: Seq<Seq<u8>>)
    ensures
        join_lines(a + b) == join_lines(a) + join_lines(b),
    decreases a.len(),
{
    if a.len() == 0 {
        assert(a + b =~= b);
    } else {
        lemma_join_append(a.drop_first(), b);
        assert((a + b).drop_first() =~= a.drop_first() + b);
        assert(join_lines(a + b) =~= join_lines(a) + join_lines(b));
    }
}

pub proof fn lemma_releases_lines_push(rs: Seq<ReleaseView>, r: ReleaseView)
    ensures
        releases_lines(rs.push(r)) == releases_lines(rs) + release_lines(r),
    decreases rs.len(),
{
    if rs.len() == 0 {
        assert(rs.push(r).drop_first() =~= Seq::<ReleaseView>::empty());
        assert(releases_lines(Seq::<ReleaseView>::empty()) =~= Seq::<Seq<u8>>::empty());
        assert(rs.push(r)[0] == r);
        assert(releases_lines(rs.push(r)) =~= releases_lines(rs) + release_lines(r));
    } else {
        lemma_releases_lines_push(rs.drop_first(), r);
        assert(rs.push(r).drop_first() =~= rs.drop_first().push(r));
        assert(releases_lines(rs.push(r)) =~= releases_lines(rs) + release_lines(r));
    }
}

fn bytes_unreleased() -> (r: Vec<u8>)
    ensures
        r@ == unreleased_label(),
{
    vec![
        '[' as u8, 'U' as u8, 'n' as u8, 'r' as u8, 'e' as u8, 'l' as u8, 'e' as u8, 'a' as u8,
        's' as u8, 'e' as u8, 'd' as u8, ']' as u8,
    ]
}

fn bytes_yanked() -> (r: Vec<u8>)
    ensures
        r@ == yanked_suffix(),
{
    vec![' ' as u8, '[' as u8, 'Y' as u8, 'A' as u8, 'N' as u8, 'K' as u8, 'E' as u8, 'D' as u8, ']' as u8]
}

/// Appends `line` and a newline.
fn put_line(out: &mut Vec<u8>, line: &[u8])
    ensures
        final(out)@ == old(out)@ + join_lines(seq![line@]),
{
    append_bytes(out, line);
    out.push(NEWLINE);
    proof {
        let ls = seq![line@];
        assert(ls.drop_first() =~= Seq::<Seq<u8>>::empty());
        assert(join_lines(Seq::<Seq<u8>>::empty()) =~= Seq::<u8>::empty());
        assert(final(out)@ =~= old(out)@ + join_lines(ls));
    }
}

fn heading_bytes(r: &Release) -> (h: Vec<u8>)
    ensures
        h@ == heading_line(r@),
{
    let mut h: Vec<u8> = vec!['#' as u8, '#' as u8, ' ' as u8];
    match &r.version {
        None => {
            append_bytes(&mut h, bytes_unreleased().as_slice());
        },
        Some(v) => {
            h.push('[' as u8);
            append_bytes(&mut h, v.as_slice());
            h.push(']' as u8);
            h.push(' ' as u8);
            h.push('-' as u8);
            h.push(' ' as u8);
            match &r.date {
                Some(d) => append_bytes(&mut h, d.as_slice()),
                None => {},
            }
            if r.yanked {
                append_bytes(&mut h, bytes_yanked().as_slice());
            }
        },
    }
    proof {
        assert(h@ =~= heading_line(r@));
    }
    h
}

fn put_section(out: &mut Vec<u8>, e: &Vec<Vec<Vec<u8>>>, c: usize)
    requires
        c < CATEGORY_COUNT,
        e@.len() == CATEGORY_COUNT,
    ensures
        final(out)@ == old(out)@ + join_lines(section_lines(e.deep_view(), c as int)),
{
    let ghost ev = e.deep_view();
    let ds = &e[c];
    if ds.len() == 0 {
        proof {
            assert(section_lines(ev, c as int) =~= Seq::<Seq<u8>>::empty());
        }
        return;
    }
    let ghost start = out@;
    let empty: Vec<u8> = Vec::new();
    put_line(out, empty.as_slice());
    let mut h: Vec<u8> = vec!['#' as u8, '#' as u8, '#' as u8, ' ' as u8];
    append_bytes(&mut h, Category::from_position(c).name().as_slice());
    put_line(out, h.as_slice());
    let ghost head = seq![Seq::<u8>::empty(), h@];
    proof {
        lemma_join_append(seq![Seq::<u8>::empty()], seq![h@]);
        assert(seq![Seq::<u8>::empty()] + seq![h@] =~= head);
        assert(out@ =~= start + join_lines(head));
    }
    let mut i: usize = 0;
    while i < ds.len()
        invariant
            ds@.len() == ev[c as int].len(),
            forall|j: int| 0 <= j < ds@.len() ==> (#[trigger] ds@[j])@ == ev[c as int][j],
            i <= ds@.len(),
            out@ == start + join_lines(head + bullets(ev[c as int].take(i as int))),
        decreases ds@.len() - i,
    {
        let mut b: Vec<u8> = vec!['-' as u8, ' ' as u8];
        append_bytes(&mut b, ds[i].as_slice());
        put_line(out, b.as_slice());
        proof {
            let prev = head + bullets(ev[c as int].take(i as int));
            lemma_join_append(prev, seq![b@]);
            assert(head + bullets(ev[c as int].take(i + 1)) =~= prev + seq![b@]);
        }
        i = i + 1;
    }
    proof {
        assert(ev[c as int].take(i as int) =~= ev[c as int]);
        assert(head + bullets(ev[c as int]) =~= section_lines(ev, c as int));
    }
}

/// Appends the lines of a release, with its heading line or without it.
fn put_release(out: &mut Vec<u8>, r: &Release, with_heading: bool)
    requires
        r@.entries.len() == CATEGORY_COUNT,
    ensures
        final(out)@ == old(out)@ + join_lines(
            if with_heading {
                release_lines(r@)
            } else {
                body_lines(r@)
            },
        ),
{
    let ghost start = out@;
    let ghost rv = r@;
    if with_heading {
        let h = heading_bytes(r);
        put_line(out, h.as_slice());
    }
    let ghost lead: Seq<Seq<u8>> = if with_heading {
        seq![heading_line(rv)]
    } else {
        seq![]
    };
    proof {
        assert(out@ =~= start + join_lines(lead + sections_upto(rv.entries, 0)));
    }
    let mut c: usize = 0;
    while c < CATEGORY_COUNT
        invariant
            c <= CATEGORY_COUNT,
            rv == r@,
            r.entries@.len() == CATEGORY_COUNT,
            out@ == start + join_lines(lead + sections_upto(rv.entries, c as int)),
        decreases CATEGORY_COUNT - c,
    {
        put_section(out, &r.entries, c);
        proof {
            lemma_join_append(
                lead + sections_upto(rv.entries, c as int),
                section_lines(rv.entries, c as int),
            );
            assert(lead + sections_upto(rv.entries, c + 1) =~= lead + sections_upto(
                rv.entries,
                c as int,
            ) + section_lines(rv.entries, c as int));
        }
        c = c + 1;
    }
    let empty: Vec<u8> = Vec::new();
    put_line(out, empty.as_slice());
    proof {
        let all = lead + sections_upto(rv.entries, 6);
        lemma_join_append(all, seq![Seq::<u8>::empty()]);
        if with_heading {
            assert(release_lines(rv) =~= all + seq![Seq::<u8>::empty()]);
        } else {
            assert(body_lines(rv) =~= all + seq![Seq::<u8>::empty()]);
        }
    }
}

/// The document text of `log`: the preamble as it stands, then each release.
pub fn render(log: &Changelog) -> (r: Vec<u8>)
    requires
        forall|i: int| 0 <= i < log@.releases.len() ==> (#[trigger] log@.releases[i]).entries.len() == CATEGORY_COUNT,
    ensures
        r@ == render_doc(log@),
{
    let mut out: Vec<u8> = Vec::new();
    append_bytes(&mut out, log.preamble.as_slice());
    let ghost rs = log@.releases;
    let mut i: usize = 0;
    proof {
        assert(rs.take(0) =~= Seq::<ReleaseView>::empty());
    }
    while i < log.releases.len()
        invariant
            i <= log.releases@.len(),
            rs == log@.releases,
            rs.len() == log.releases@.len(),
            forall|k: int| 0 <= k < rs.len() ==> (#[trigger] rs[k]).entries.len() == CATEGORY_COUNT,
            out@ == log.preamble@ + join_lines(releases_lines(rs.take(i as int))),
        decreases log.releases@.len() - i,
    {
        let ghost before = out@;
        assert(rs[i as int] == log.releases@[i as int]@);
        put_release(&mut out, &log.releases[i], true);
        proof {
            lemma_releases_lines_push(rs.take(i as int), rs[i as int]);
            assert(rs.take(i + 1) =~= rs.take(i as int).push(rs[i as int]));
            lemma_join_append(releases_lines(rs.take(i as int)), release_lines(rs[i as int]));
        }
        i = i + 1;
    }
    proof {
        assert(rs.take(i as int) =~= rs);
    }
    out
}

/// The text of the pending-changes query for `r`.
pub fn show_release(r: &Release, headings: bool) -> (s: Vec<u8>)
    requires
        r@.entries.len() == CATEGORY_COUNT,
    ensures
        s@ == shown(r@, headings),
{
    let mut out: Vec<u8> = Vec::new();
    put_release(&mut out, r, headings);
    let ghost full = out@;
    while out.len() > 0 && is_space_byte(out[out.len() - 1])
        invariant
            trim_end(full) == trim_end(out@),
        decreases out@.len(),
    {
        proof {
            assert(out@.drop_last() =~= out@.subrange(0, out@.len() - 1));
        }
        out.pop();
    }
    proof {
        assert(full =~= Seq::<u8>::empty() + full);
    }
    out.push(NEWLINE);
    out
}

} // verus!
