use vstd::prelude::*;
use crate::model::{Change, ChangeView, changes_view};
use crate::text::bytes_eq;

verus! {

/// The pending changes recorded under one context (a branch, say), oldest first.
#[derive(Clone, Debug)]
pub struct ContextFragments {
    pub context: Vec<u8>,
    pub changes: Vec<Change>,
}

/// Pending changes, kept apart per context so that writers do not meet. Contexts keep
/// the order in which they were first loaded or written.
pub struct FragmentStore {
    contexts: Vec<ContextFragments>,
}

pub open spec fn context_view(c: ContextFragments) -> (Seq<u8>, Seq<ChangeView>) {
    (c.context@, changes_view(c.changes@))
}

/// Index of the context named `id`, or `v.len()` when there is none.
pub open spec fn context_index(v: Seq<(Seq<u8>, Seq<ChangeView>)>, id: Seq<u8>) -> nat
    decreases v.len(),
{
    if v.len() == 0 {
        0
    } else if v[0].0 == id {
        0
    } else {
        1 + context_index(v.drop_first(), id)
    }
}

/// The store after appending `ch` under `id`: a context that does not exist yet starts
/// empty.
pub open spec fn appended(v: Seq<(Seq<u8>, Seq<ChangeView>)>, id: Seq<u8>, ch: ChangeView) -> Seq<
    (Seq<u8>, Seq<ChangeView>),
> {
    let k = context_index(v, id);
    if k < v.len() {
        v.update(k as int, (id, v[k as int].1.push(ch)))
    } else {
        v.push((id, seq![ch]))
    }
}

/// Every stored change: context after context, each in its own order.
pub open spec fn concat_all(v: Seq<(Seq<u8>, Seq<ChangeView>)>) -> Seq<ChangeView>
    decreases v.len(),
{
    if v.len() == 0 {
        seq![]
    } else {
        concat_all(v.drop_last()) + v.last().1
    }
}

pub open spec fn ids_unique(v: Seq<(Seq<u8>, Seq<ChangeView>)>) -> bool {
    forall|i: int, j: int| 0 <= i < j < v.len() ==> v[i].0 != v[j].0
}

proof fn lemma_context_index(v: Seq<(Seq<u8>, Seq<ChangeView>)>, id: Seq<u8>, k: int)
    requires
        0 <= k <= v.len(),
        k < v.len() ==> v[k].0 == id,
        forall|j: int| 0 <= j < k ==> (#[trigger] v[j]).0 != id,
    ensures
        context_index(v, id) == k,
    decreases v.len(),
{
    if v.len() > 0 && k > 0 {
        assert(v[0].0 != id);
        assert forall|j: int| 0 <= j < k - 1 implies (#[trigger] v.drop_first()[j]).0 != id by {
            assert(v.drop_first()[j] == v[j + 1]);
        }
        lemma_context_index(v.drop_first(), id, k - 1);
    }
}

impl View for FragmentStore {
    type V = Seq<(Seq<u8>, Seq<ChangeView>)>;

    closed spec fn view(&self) -> Seq<(Seq<u8>, Seq<ChangeView>)> {
        self.contexts@.map_values(|c: ContextFragments| context_view(c))
    }
}

impl FragmentStore {
    pub open spec fn wf(&self) -> bool {
        ids_unique(self@)
    }

    /// A store with no context.
    pub fn new() -> (r: FragmentStore)
        ensures
            r@.len() == 0,
            r.wf(),
    {
        FragmentStore { contexts: Vec::new() }
    }

    fn find(&self, id: &[u8]) -> (r: usize)
        ensures
            r == context_index(self@, id@),
            r <= self@.len(),
            r < self@.len() ==> self@[r as int].0 == id@,
            forall|j: int| 0 <= j < r ==> (#[trigger] self@[j]).0 != id@,
    {
        let mut i: usize = 0;
        while i < self.contexts.len()
            invariant
                i <= self.contexts@.len(),
                forall|j: int| 0 <= j < i ==> (#[trigger] self@[j]).0 != id@,
            decreases self.contexts@.len() - i,
        {
            if bytes_eq(self.contexts[i].context.as_slice(), id) {
                proof {
                    lemma_context_index(self@, id@, i as int);
                }
                return i;
            }
            i = i + 1;
        }
        proof {
            lemma_context_index(self@, id@, i as int);
        }
        i
    }

    /// Records `change` at the end of the context `id`; a context that does not exist
    /// yet is created.
    pub fn append(&mut self, id: &[u8], change: Change)
        requires
            old(self).wf(),
        ensures
            final(self).wf(),
            final(self)@ == appended(old(self)@, id@, change@),
    {
        let ghost v = self@;
        let k = self.find(id);
        let ghost cv = change@;
        if k < self.contexts.len() {
            let ghost before = self.contexts@[k as int];
            self.contexts[k].changes.push(change);
            proof {
                assert(changes_view(self.contexts@[k as int].changes@) =~= changes_view(
                    before.changes@,
                ).push(cv));
                assert(self@ =~= v.update(k as int, (id@, v[k as int].1.push(cv))));
                assert forall|i: int, j: int| 0 <= i < j < self@.len() implies self@[i].0 != self@[j].0 by {
                    assert(self@[i].0 == v[i].0);
                    assert(self@[j].0 == v[j].0);
                }
            }
        } else {
            let name = crate::text::copy_range(id, 0, id.len());
            let mut one: Vec<Change> = Vec::new();
            one.push(change);
            self.contexts.push(ContextFragments { context: name, changes: one });
            proof {
                assert(id@.subrange(0, id@.len() as int) =~= id@);
                assert(changes_view(one@) =~= seq![cv]);
                assert(self@ =~= v.push((id@, seq![cv])));
                assert forall|i: int, j: int| 0 <= i < j < self@.len() implies self@[i].0 != self@[j].0 by {
                    if j == v.len() {
                        assert(v[i].0 != id@);
                    } else {
                        assert(self@[i].0 == v[i].0);
                        assert(self@[j].0 == v[j].0);
                    }
                }
            }
        }
    }

    /// Loads what the context `id` holds in storage: `changes` replace any list that the
    /// store already had for it.
    pub fn load(&mut self, id: &[u8], changes: Vec<Change>)
        requires
            old(self).wf(),
        ensures
            final(self).wf(),
            context_index(old(self)@, id@) < old(self)@.len() ==> final(self)@ == old(self)@.update(
                context_index(old(self)@, id@) as int,
                (id@, changes_view(changes@)),
            ),
            context_index(old(self)@, id@) >= old(self)@.len() ==> final(self)@ == old(self)@.push(
                (id@, changes_view(changes@)),
            ),
    {
        let ghost v = self@;
        let ghost cv = changes_view(changes@);
        let k = self.find(id);
        if k < self.contexts.len() {
            self.contexts[k].changes = changes;
            proof {
                assert(self@ =~= v.update(k as int, (id@, cv)));
                assert forall|i: int, j: int| 0 <= i < j < self@.len() implies self@[i].0 != self@[j].0 by {
                    assert(self@[i].0 == v[i].0);
                    assert(self@[j].0 == v[j].0);
                }
            }
        } else {
            let name = crate::text::copy_range(id, 0, id.len());
            self.contexts.push(ContextFragments { context: name, changes });
            proof {
                assert(id@.subrange(0, id@.len() as int) =~= id@);
                assert(self@ =~= v.push((id@, cv)));
                assert forall|i: int, j: int| 0 <= i < j < self@.len() implies self@[i].0 != self@[j].0 by {
                    if j == v.len() {
                        assert(v[i].0 != id@);
                    } else {
                        assert(self@[i].0 == v[i].0);
                        assert(self@[j].0 == v[j].0);
                    }
                }
            }
        }
    }

    /// The changes recorded under `id`, none when it does not exist.
    pub fn changes_for(&self, id: &[u8]) -> (r: Vec<Change>)
        ensures
            context_index(self@, id@) < self@.len() ==> changes_view(r@) == self@[context_index(
                self@,
                id@,
            ) as int].1,
            context_index(self@, id@) >= self@.len() ==> r@.len() == 0,
    {
        let k = self.find(id);
        if k < self.contexts.len() {
            let src = &self.contexts[k].changes;
            let mut out: Vec<Change> = Vec::new();
            let mut i: usize = 0;
            while i < src.len()
                invariant
                    i <= src@.len(),
                    changes_view(out@) == changes_view(src@.take(i as int)),
                decreases src@.len() - i,
            {
                let ghost before = out@;
                let c = copy_change(&src[i]);
                out.push(c);
                proof {
                    assert(changes_view(out@) =~= changes_view(before).push(c@));
                    assert(changes_view(src@.take(i + 1)) =~= changes_view(src@.take(i as int)).push(
                        src@[i as int]@,
                    ));
                    assert(src@.take(i + 1) =~= src@.take(i as int).push(src@[i as int]));
                    assert(changes_view(out@) =~= changes_view(src@.take(i + 1)));
                }
                i = i + 1;
            }
            proof {
                assert(src@.take(i as int) =~= src@);
            }
            out
        } else {
            Vec::new()
        }
    }

    /// Every pending change: context after context, each context in its own order.
    pub fn read_all(&self) -> (r: Vec<Change>)
        ensures
            changes_view(r@) == concat_all(self@),
    {
        let mut out: Vec<Change> = Vec::new();
        let ghost v = self@;
        let mut i: usize = 0;
        proof {
            assert(v.take(0) =~= Seq::<(Seq<u8>, Seq<ChangeView>)>::empty());
            assert(changes_view(out@) =~= Seq::<ChangeView>::empty());
        }
        while i < self.contexts.len()
            invariant
                i <= self.contexts@.len(),
                v == self@,
                changes_view(out@) == concat_all(v.take(i as int)),
            decreases self.contexts@.len() - i,
        {
            let src = &self.contexts[i].changes;
            let ghost base = out@;
            let mut j: usize = 0;
            while j < src.len()
                invariant
                    j <= src@.len(),
                    out@ == base + out@.subrange(base.len() as int, out@.len() as int),
                    changes_view(out@) == changes_view(base) + changes_view(src@.take(j as int)),
                decreases src@.len() - j,
            {
                let ghost before = out@;
                let c = copy_change(&src[j]);
                out.push(c);
                proof {
                    assert(changes_view(out@) =~= changes_view(before).push(c@));
                    assert(changes_view(src@.take(j + 1)) =~= changes_view(src@.take(j as int)).push(
                        src@[j as int]@,
                    ));
                    assert(src@.take(j + 1) =~= src@.take(j as int).push(src@[j as int]));
                    assert(changes_view(out@) =~= changes_view(base) + changes_view(src@.take(j + 1)));
                }
                j = j + 1;
            }
            proof {
                assert(src@.take(j as int) =~= src@);
                assert(v.take(i + 1).drop_last() =~= v.take(i as int));
                assert(v[i as int].1 == changes_view(src@));
            }
            i = i + 1;
        }
        proof {
            assert(v.take(i as int) =~= v);
        }
        out
    }

    /// Empties the store.
    pub fn clear_all(&mut self)
        ensures
            final(self)@.len() == 0,
            final(self).wf(),
    {
        self.contexts = Vec::new();
        proof {
            assert(self@ =~= Seq::<(Seq<u8>, Seq<ChangeView>)>::empty());
        }
    }
}

/// A copy of a change.
pub fn copy_change(c: &Change) -> (r: Change)
    ensures
        r@ == c@,
{
    let d = c.description.clone();
    proof {
        assert(d@ =~= c.description@);
    }
    Change { category: c.category, description: d }
}

} // verus!
