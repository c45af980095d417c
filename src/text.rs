use vstd::prelude::*;

verus! {

/// The newline byte.
pub const NEWLINE: u8 = 10;

/// Index of the first occurrence of `b` in `s`, or `s.len()` when there is none.
pub open spec fn first_of(s: Seq<u8>, b: u8) -> nat
    decreases s.len(),
{
    if s.len() == 0 {
        0
    } else if s[0] == b {
        0
    } else {
        1 + first_of(s.drop_first(), b)
    }
}

/// `s` holds no byte `b`.
pub open spec fn lacks(s: Seq<u8>, b: u8) -> bool {
    forall|i: int| 0 <= i < s.len() ==> s[i] != b
}

/// The lines of a document: the pieces between newlines. A final newline ends the
/// last line rather than opening an empty one.
pub open spec fn lines(s: Seq<u8>) -> Seq<Seq<u8>>
    decreases s.len(),
{
    if s.len() == 0 {
        seq![]
    } else {
        let k = first_of(s, NEWLINE);
        if k >= s.len() {
            seq![s]
        } else {
            seq![s.take(k as int)] + lines(s.skip((k + 1) as int))
        }
    }
}

/// Each line followed by a newline, all concatenated.
pub open spec fn join_lines(ls: Seq<Seq<u8>>) -> Seq<u8>
    decreases ls.len(),
{
    if ls.len() == 0 {
        seq![]
    } else {
        ls[0] + seq![NEWLINE] + join_lines(ls.drop_first())
    }
}

/// `s` is empty or ends with a newline.
pub open spec fn ends_line(s: Seq<u8>) -> bool {
    s.len() == 0 || s.last() == NEWLINE
}

pub open spec fn starts_with(s: Seq<u8>, p: Seq<u8>) -> bool {
    p.len() <= s.len() && s.take(p.len() as int) == p
}

pub open spec fn ends_with(s: Seq<u8>, p: Seq<u8>) -> bool {
    p.len() <= s.len() && s.skip(s.len() - p.len()) == p
}

/// ASCII white space: space, tab, line feed, vertical tab, form feed, carriage return.
pub open spec fn is_space(b: u8) -> bool {
    b == 32 || (9 <= b <= 13)
}

pub open spec fn is_blank(s: Seq<u8>) -> bool {
    forall|i: int| 0 <= i < s.len() ==> is_space(s[i])
}

pub open spec fn trim_end(s: Seq<u8>) -> Seq<u8>
    decreases s.len(),
{
    if s.len() > 0 && is_space(s.last()) {
        trim_end(s.drop_last())
    } else {
        s
    }
}

pub open spec fn trim_start(s: Seq<u8>) -> Seq<u8>
    decreases s.len(),
{
    if s.len() > 0 && is_space(s[0]) {
        trim_start(s.drop_first())
    } else {
        s
    }
}

/// `s` without leading and trailing white space.
pub open spec fn trim(s: Seq<u8>) -> Seq<u8> {
    trim_start(trim_end(s))
}

pub proof fn lemma_first_of(s: Seq<u8>, b: u8)
    ensures
        first_of(s, b) <= s.len(),
        first_of(s, b) < s.len() ==> s[first_of(s, b) as int] == b,
        forall|j: int| 0 <= j < first_of(s, b) ==> s[j] != b,
    decreases s.len(),
{
    if s.len() > 0 && s[0] != b {
        lemma_first_of(s.drop_first(), b);
        assert forall|j: int| 0 <= j < first_of(s, b) implies s[j] != b by {
            if j > 0 {
                assert(s[j] == s.drop_first()[j - 1]);
            }
        }
    }
}

pub proof fn lemma_first_of_is(s: Seq<u8>, b: u8, k: int)
    requires
        0 <= k <= s.len(),
        k < s.len() ==> s[k] == b,
        forall|j: int| 0 <= j < k ==> s[j] != b,
    ensures
        first_of(s, b) == k,
{
    lemma_first_of(s, b);
}

/// Lines of a concatenation split at a line end.
pub proof fn lemma_lines_concat(a: Seq<u8>, b: Seq<u8>)
    requires
        ends_line(a),
    ensures
        lines(a + b) == lines(a) + lines(b),
    decreases a.len(),
{
    if a.len() == 0 {
        assert(a + b =~= b);
        assert(lines(a) + lines(b) =~= lines(b));
    } else {
        let k = first_of(a, NEWLINE);
        lemma_first_of(a, NEWLINE);
        let ab = a + b;
        assert(k < a.len());
        lemma_first_of_is(ab, NEWLINE, k as int);
        let rest = a.skip((k + 1) as int);
        assert(ab.take(k as int) =~= a.take(k as int));
        assert(ab.skip((k + 1) as int) =~= rest + b);
        if rest.len() > 0 {
            assert(rest.last() == a.last());
        }
        lemma_lines_concat(rest, b);
        assert(lines(a + b) =~= lines(a) + lines(b));
    }
}

/// A line without newline, followed by a newline, is one line.
pub proof fn lemma_lines_one(l: Seq<u8>)
    requires
        lacks(l, NEWLINE),
    ensures
        lines(l + seq![NEWLINE]) == seq![l],
{
    let s = l + seq![NEWLINE];
    lemma_first_of_is(s, NEWLINE, l.len() as int);
    assert(s.take(l.len() as int) =~= l);
    let e = s.skip(l.len() + 1 as int);
    assert(e =~= Seq::<u8>::empty());
    assert(lines(e) =~= Seq::<Seq<u8>>::empty());
    assert(lines(s) =~= seq![l]);
}

/// Joining lines that hold no newline and splitting them again gives them back.
pub proof fn lemma_lines_join(ls: Seq<Seq<u8>>)
    requires
        forall|i: int| 0 <= i < ls.len() ==> lacks(#[trigger] ls[i], NEWLINE),
    ensures
        lines(join_lines(ls)) == ls,
        ends_line(join_lines(ls)),
    decreases ls.len(),
{
    if ls.len() > 0 {
        let head = ls[0] + seq![NEWLINE];
        lemma_lines_one(ls[0]);
        lemma_lines_join(ls.drop_first());
        assert(join_lines(ls) == head + join_lines(ls.drop_first()));
        lemma_lines_concat(head, join_lines(ls.drop_first()));
        assert(ls =~= seq![ls[0]] + ls.drop_first());
    }
}

/// Splitting a text that ends a line into lines and joining them gives it back.
pub proof fn lemma_join_lines_of(s: Seq<u8>)
    requires
        ends_line(s),
    ensures
        join_lines(lines(s)) == s,
    decreases s.len(),
{
    if s.len() > 0 {
        let k = first_of(s, NEWLINE);
        lemma_first_of(s, NEWLINE);
        assert(k < s.len());
        let rest = s.skip((k + 1) as int);
        if rest.len() > 0 {
            assert(rest.last() == s.last());
        }
        lemma_join_lines_of(rest);
        assert(lines(s).drop_first() =~= lines(rest));
        assert(join_lines(lines(s)) =~= s.take(k as int) + seq![NEWLINE] + rest);
        assert(s =~= s.take(k as int) + seq![NEWLINE] + rest);
    }
}

/// Index of the first byte `b` at or after `from`, or `s.len()`.
pub fn find_byte(s: &[u8], from: usize, b: u8) -> (r: usize)
    requires
        from <= s@.len(),
    ensures
        from <= r <= s@.len(),
        first_of(s@.skip(from as int), b) == r - from,
{
    let mut i = from;
    while i < s.len() && s[i] != b
        invariant
            from <= i <= s@.len(),
            forall|j: int| from <= j < i ==> s@[j] != b,
        decreases s@.len() - i,
    {
        i = i + 1;
    }
    proof {
        lemma_first_of_is(s@.skip(from as int), b, i - from);
    }
    i
}

/// Whether two byte strings are equal.
pub fn bytes_eq(a: &[u8], b: &[u8]) -> (r: bool)
    ensures
        r == (a@ == b@),
{
    if a.len() != b.len() {
        return false;
    }
    let r = has_prefix(a, b);
    proof {
        assert(a@.take(b@.len() as int) =~= a@);
    }
    r
}

/// A copy of `s[from..to]`.
pub fn copy_range(s: &[u8], from: usize, to: usize) -> (r: Vec<u8>)
    requires
        from <= to <= s@.len(),
    ensures
        r@ == s@.subrange(from as int, to as int),
{
    let mut r: Vec<u8> = Vec::new();
    let mut i = from;
    while i < to
        invariant
            from <= i <= to <= s@.len(),
            r@ == s@.subrange(from as int, i as int),
        decreases to - i,
    {
        r.push(s[i]);
        i = i + 1;
        proof {
            assert(r@ =~= s@.subrange(from as int, i as int));
        }
    }
    r
}

/// Appends the bytes of `src` to `dst`.
pub fn append_bytes(dst: &mut Vec<u8>, src: &[u8])
    ensures
        final(dst)@ == old(dst)@ + src@,
{
    let mut i: usize = 0;
    while i < src.len()
        invariant
            i <= src@.len(),
            dst@ == old(dst)@ + src@.take(i as int),
        decreases src@.len() - i,
    {
        dst.push(src[i]);
        i = i + 1;
        proof {
            assert(dst@ =~= old(dst)@ + src@.take(i as int));
        }
    }
    proof {
        assert(src@.take(src@.len() as int) =~= src@);
    }
}

pub fn is_space_byte(b: u8) -> (r: bool)
    ensures
        r == is_space(b),
{
    b == 32 || (9 <= b && b <= 13)
}

pub fn blank(s: &[u8]) -> (r: bool)
    ensures
        r == is_blank(s@),
{
    let mut i: usize = 0;
    while i < s.len()
        invariant
            i <= s@.len(),
            forall|j: int| 0 <= j < i ==> is_space(s@[j]),
        decreases s@.len() - i,
    {
        if !is_space_byte(s[i]) {
            return false;
        }
        i = i + 1;
    }
    true
}

pub fn has_prefix(s: &[u8], p: &[u8]) -> (r: bool)
    ensures
        r == starts_with(s@, p@),
{
    if p.len() > s.len() {
        return false;
    }
    let mut i: usize = 0;
    while i < p.len()
        invariant
            p@.len() <= s@.len(),
            i <= p@.len(),
            forall|j: int| 0 <= j < i ==> s@[j] == p@[j],
        decreases p@.len() - i,
    {
        if s[i] != p[i] {
            proof {
                assert(s@.take(p@.len() as int)[i as int] != p@[i as int]);
            }
            return false;
        }
        i = i + 1;
    }
    proof {
        assert(s@.take(p@.len() as int) =~= p@);
    }
    true
}

pub fn has_suffix(s: &[u8], p: &[u8]) -> (r: bool)
    ensures
        r == ends_with(s@, p@),
{
    if p.len() > s.len() {
        return false;
    }
    let n = s.len();
    let off = n - p.len();
    let mut i: usize = 0;
    while i < p.len()
        invariant
            n == s@.len(),
            off + p@.len() == n,
            i <= p@.len(),
            forall|j: int| 0 <= j < i ==> s@[off + j] == p@[j],
        decreases p@.len() - i,
    {
        if s[off + i] != p[i] {
            proof {
                assert(s@.skip(off as int)[i as int] != p@[i as int]);
            }
            return false;
        }
        i = i + 1;
    }
    proof {
        assert(s@.skip(off as int) =~= p@);
    }
    true
}

/// `s` with leading and trailing white space removed.
pub fn trimmed(s: &[u8]) -> (r: Vec<u8>)
    ensures
        r@ == trim(s@),
{
    let mut end = s.len();
    proof {
        assert(s@.take(end as int) =~= s@);
    }
    while end > 0 && is_space_byte(s[end - 1])
        invariant
            end <= s@.len(),
            trim_end(s@) == trim_end(s@.take(end as int)),
        decreases end,
    {
        proof {
            let t = s@.take(end as int);
            assert(t.drop_last() =~= s@.take(end - 1));
        }
        end = end - 1;
    }
    let mut start: usize = 0;
    while start < end && is_space_byte(s[start])
        invariant
            start <= end <= s@.len(),
            trim_end(s@) == s@.take(end as int),
            trim(s@) == trim_start(s@.subrange(start as int, end as int)),
        decreases end - start,
    {
        proof {
            let t = s@.subrange(start as int, end as int);
            assert(t.drop_first() =~= s@.subrange(start + 1, end as int));
        }
        start = start + 1;
    }
    copy_range(s, start, end)
}

} // verus!
