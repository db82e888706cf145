//! The frame interner: signatures to small numeric ids, starting at 1.
use vstd::prelude::*;

verus! {

/// No signature occurs twice in the table.
pub open spec fn unique_names(t: Seq<Seq<char>>) -> bool {
    forall|i: int, j: int| 0 <= i < j < t.len() ==> t[i] != t[j]
}

/// The table after interning `s`: unchanged when it is known, else `s` appended.
pub open spec fn interned(t: Seq<Seq<char>>, s: Seq<char>) -> Seq<Seq<char>> {
    if t.contains(s) {
        t
    } else {
        t.push(s)
    }
}

/// The table after interning each of `sigs` in turn.
pub open spec fn intern_all(t: Seq<Seq<char>>, sigs: Seq<Seq<char>>) -> Seq<Seq<char>>
    decreases sigs.len(),
{
    if sigs.len() == 0 {
        t
    } else {
        interned(intern_all(t, sigs.drop_last()), sigs.last())
    }
}

/// `id` is the id of `s` in table `t`: the id of the entry at index `k` is `k + 1`.
pub open spec fn id_in(t: Seq<Seq<char>>, s: Seq<char>, id: u64) -> bool {
    1 <= id <= t.len() && t[id - 1] == s
}

/// The signatures known so far; the id of the entry at index `k` is `k + 1`.
pub struct FrameTable {
    names: Vec<String>,
}

impl View for FrameTable {
    type V = Seq<Seq<char>>;

    closed spec fn view(&self) -> Seq<Seq<char>> {
        self.names@.map_values(|s: String| s@)
    }
}

impl FrameTable {
    pub open spec fn wf(&self) -> bool {
        unique_names(self@)
    }

    pub fn new() -> (t: FrameTable)
        ensures
            t.wf(),
            t@ == Seq::<Seq<char>>::empty(),
    {
        let t = FrameTable { names: Vec::new() };
        assert(t@ =~= Seq::<Seq<char>>::empty());
        t
    }

    pub fn len(&self) -> (n: usize)
        ensures
            n == self@.len(),
    {
        self.names.len()
    }

    /// The signature with id `k + 1`.
    pub fn name_at(&self, k: usize) -> (s: &String)
        requires
            k < self@.len(),
        ensures
            s@ == self@[k as int],
    {
        &self.names[k]
    }

    /// The id of `sig`, allocating the next one when it is new.
    pub fn intern(&mut self, sig: String) -> (id: u64)
        requires
            old(self).wf(),
            old(self)@.len() < u64::MAX,
        ensures
            final(self).wf(),
            final(self)@ == interned(old(self)@, sig@),
            id_in(final(self)@, sig@, id),
    {
        let mut i: usize = 0;
        while i < self.names.len()
            invariant
                0 <= i <= self@.len(),
                self.wf(),
                self@.len() < u64::MAX,
                forall|k: int| 0 <= k < i ==> self@[k] != sig@,
            decreases self.names.len() - i,
        {
            if self.names[i] == sig {
                assert(self@.contains(sig@)) by {
                    assert(self@[i as int] == sig@);
                }
                return (i as u64) + 1;
            }
            i += 1;
        }
        assert(!self@.contains(sig@));
        let ghost before = self@;
        self.names.push(sig);
        assert(self@ =~= before.push(sig@));
        proof {
            lemma_interned_extends(before, sig@);
        }
        self.names.len() as u64
    }
}

/// Interning keeps every earlier entry, so an id once given keeps its signature.
pub proof fn lemma_interned_extends(t: Seq<Seq<char>>, s: Seq<char>)
    ensures
        t.is_prefix_of(interned(t, s)),
        interned(t, s).len() <= t.len() + 1,
        interned(t, s).contains(s),
        unique_names(t) ==> unique_names(interned(t, s)),
{
    if !t.contains(s) {
        assert(t.push(s)[t.len() as int] == s);
        assert forall|i: int, j: int| 0 <= i < j < t.push(s).len() && unique_names(t) implies t.push(
            s,
        )[i] != t.push(s)[j] by {
            if j == t.len() {
                assert(t[i] == t.push(s)[i]);
            }
        }
    }
}

/// Interning a sequence adds at most one entry per signature.
pub proof fn lemma_intern_all_len(t: Seq<Seq<char>>, sigs: Seq<Seq<char>>)
    ensures
        intern_all(t, sigs).len() <= t.len() + sigs.len(),
    decreases sigs.len(),
{
    if sigs.len() > 0 {
        lemma_intern_all_len(t, sigs.drop_last());
        lemma_interned_extends(intern_all(t, sigs.drop_last()), sigs.last());
    }
}

/// Two signatures get one id exactly when they are the same text.
pub proof fn lemma_interning_stable(t: Seq<Seq<char>>, a: Seq<char>, b: Seq<char>, ida: u64, idb: u64)
    requires
        unique_names(t),
        id_in(t, a, ida),
        id_in(t, b, idb),
    ensures
        (ida == idb) <==> (a == b),
{
    if a == b && ida != idb {
        if ida < idb {
            assert(t[ida - 1] != t[idb - 1]);
        } else {
            assert(t[idb - 1] != t[ida - 1]);
        }
    }
}

} // verus!
