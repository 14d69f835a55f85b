//! Interning pool: every distinct text is stored once and named by a handle,
//! so that two names are the same text exactly when their handles are equal.

use vstd::prelude::*;

verus! {

/// A handle to a text stored in a [`StringPool`]: the index of that text.
#[derive(Debug, Clone, Copy, PartialEq, Eq, Hash, Structural)]
pub struct Handle {
    pub id: usize,
}

/// No text occurs twice in the pool.
pub open spec fn distinct_texts(p: Seq<Seq<char>>) -> bool {
    forall|i: int, j: int| 0 <= i < p.len() && 0 <= j < p.len() && p[i] == p[j] ==> i == j
}

/// Where `t` stands in `p`, if it is there.
pub open spec fn find_text(p: Seq<Seq<char>>, t: Seq<char>) -> Option<int> {
    if p.contains(t) {
        Some(choose|i: int| 0 <= i < p.len() && p[i] == t)
    } else {
        None
    }
}

/// The pool after interning `t` into `p`, and the index that `t` then has.
pub open spec fn intern(p: Seq<Seq<char>>, t: Seq<char>) -> (Seq<Seq<char>>, int) {
    match find_text(p, t) {
        Some(i) => (p, i),
        None => (p.push(t), p.len() as int),
    }
}

/// What interning `t` into a pool without repeats gives: a pool without
/// repeats that extends the old one and holds `t` at the returned index.
pub proof fn lemma_intern_facts(p: Seq<Seq<char>>, t: Seq<char>)
    requires
        distinct_texts(p),
    ensures
        distinct_texts(intern(p, t).0),
        p.is_prefix_of(intern(p, t).0),
        0 <= intern(p, t).1 < intern(p, t).0.len(),
        intern(p, t).0[intern(p, t).1] == t,
{
    if p.contains(t) {
        let i = choose|i: int| 0 <= i < p.len() && p[i] == t;
        assert(p.is_prefix_of(p));
    } else {
        let q = p.push(t);
        assert forall|i: int, j: int| 0 <= i < q.len() && 0 <= j < q.len() && q[i] == q[j] implies i
            == j by {
            if i < p.len() && j == p.len() {
                assert(p.contains(q[i]));
            }
            if j < p.len() && i == p.len() {
                assert(p.contains(q[j]));
            }
        }
        assert(p.is_prefix_of(q)) by {
            assert(q.subrange(0, p.len() as int) =~= p);
        }
    }
}

/// Interning is idempotent: interning a text again gives the same handle and
/// leaves the pool as it is; and two texts get the same handle exactly when
/// they are the same text.
pub proof fn lemma_intern_identity(p: Seq<Seq<char>>, t1: Seq<char>, t2: Seq<char>)
    requires
        distinct_texts(p),
    ensures
        intern(intern(p, t1).0, t1) == intern(p, t1),
        (intern(p, t1).1 == intern(intern(p, t1).0, t2).1) <==> (t1 == t2),
{
    let (q, h1) = intern(p, t1);
    lemma_intern_facts(p, t1);
    lemma_intern_facts(q, t1);
    lemma_intern_facts(q, t2);
    assert(q.contains(t1));
    let c = choose|i: int| 0 <= i < q.len() && q[i] == t1;
    assert(q[c] == q[h1]);
    let (r, h2) = intern(q, t2);
    if h1 == h2 {
        assert(q[h1] == r[h1]);
    }
}

pub struct StringPool {
    strs: Vec<String>,
}

impl View for StringPool {
    type V = Seq<Seq<char>>;

    closed spec fn view(&self) -> Seq<Seq<char>> {
        self.strs@.map_values(|s: String| s@)
    }
}

impl StringPool {
    /// The pool holds each text at most once.
    pub open spec fn wf(&self) -> bool {
        distinct_texts(self@)
    }

    /// `h` names a text of this pool.
    pub open spec fn holds(&self, h: Handle) -> bool {
        h.id < self@.len()
    }

    pub fn new() -> (r: Self)
        ensures
            r.wf(),
            r@ == Seq::<Seq<char>>::empty(),
    {
        let r = StringPool { strs: Vec::new() };
        assert(r@ =~= Seq::<Seq<char>>::empty());
        r
    }

    /// The handle of `input`, if the pool holds it; the pool is unchanged.
    pub fn lookup(&self, input: &str) -> (r: Option<Handle>)
        requires
            self.wf(),
        ensures
            match r {
                Some(h) => find_text(self@, input@) == Some(h.id as int),
                None => find_text(self@, input@) is None,
            },
    {
        let owned = input.to_owned();
        let mut i: usize = 0;
        while i < self.strs.len()
            invariant
                i <= self.strs.len(),
                owned@ == input@,
                self.wf(),
                forall|k: int| 0 <= k < i ==> self@[k] != input@,
            decreases self.strs.len() - i,
        {
            if self.strs[i] == owned {
                assert(self@[i as int] == input@);
                assert(self@.contains(input@));
                let ghost c = choose|k: int| 0 <= k < self@.len() && self@[k] == input@;
                assert(self@[c] == self@[i as int]);
                return Some(Handle { id: i });
            }
            i = i + 1;
        }
        assert(!self@.contains(input@));
        None
    }

    /// Interns `input`: the handle it already has, or a new one for a copy of it.
    pub fn get(&mut self, input: &str) -> (r: Handle)
        requires
            old(self).wf(),
        ensures
            final(self).wf(),
            (final(self)@, r.id as int) == intern(old(self)@, input@),
            final(self)@[r.id as int] == input@,
            r.id < final(self)@.len(),
            old(self)@.is_prefix_of(final(self)@),
            forall|i: int| 0 <= i < old(self)@.len() ==> final(self)@[i] == old(self)@[i],
    {
        match self.lookup(input) {
            Some(h) => h,
            None => {
                let id = self.strs.len();
                self.strs.push(input.to_owned());
                assert(self@ =~= old(self)@.push(input@));
                Handle { id }
            },
        }
    }

    /// Whether two texts are the same, compared by the handles they intern to.
    pub fn str_eq(&mut self, str0: &str, str1: &str) -> (r: bool)
        requires
            old(self).wf(),
        ensures
            final(self).wf(),
            r == (str0@ == str1@),
            final(self)@ == intern(intern(old(self)@, str0@).0, str1@).0,
    {
        let a = self.get(str0);
        let b = self.get(str1);
        a.id == b.id
    }

    /// The text that `h` names.
    pub fn resolve(&self, h: Handle) -> (r: &String)
        requires
            self.holds(h),
        ensures
            r@ == self@[h.id as int],
    {
        &self.strs[h.id]
    }

    /// Every text of the pool, in the order of interning: a handle's id is its index.
    pub fn iter(&self) -> (r: &Vec<String>)
        ensures
            r@.len() == self@.len(),
            forall|i: int| 0 <= i < r@.len() ==> r@[i]@ == self@[i],
    {
        &self.strs
    }
}

} // verus!
