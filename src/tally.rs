//! Texts held in vectors: as sets without repeats, and as a table of
//! counters keyed by text in the order the keys were first seen.
use vstd::prelude::*;

verus! {

/// The texts of a sequence of strings.
pub open spec fn texts(v: Seq<String>) -> Seq<Seq<char>> {
    v.map_values(|s: String| s@)
}

/// The count of `k` in `m`, zero where `k` has none.
pub open spec fn count_in(m: Map<Seq<char>, nat>, k: Seq<char>) -> nat {
    if m.contains_key(k) {
        m[k]
    } else {
        0
    }
}

/// `m` with one more occurrence of `k`.
pub open spec fn bumped(m: Map<Seq<char>, nat>, k: Seq<char>) -> Map<Seq<char>, nat> {
    m.insert(k, count_in(m, k) + 1)
}

/// The entries of `v` are exactly the pairs of `m`, each once.
pub open spec fn lists_exactly(v: Seq<(String, u64)>, m: Map<Seq<char>, nat>) -> bool {
    &&& v.len() == m.dom().len()
    &&& forall|i: int, j: int| 0 <= i < j < v.len() ==> v[i].0@ != v[j].0@
    &&& forall|i: int|
        0 <= i < v.len() ==> m.contains_key(#[trigger] v[i].0@) && m[v[i].0@] == v[i].1 as nat
    &&& forall|k: Seq<char>| #[trigger]
        m.contains_key(k) ==> exists|i: int| 0 <= i < v.len() && v[i].0@ == k
}

/// The set of texts of `v`.
pub open spec fn text_set(v: Seq<String>) -> Set<Seq<char>> {
    texts(v).to_set()
}

/// Whether some string of `v` has the text of `s`.
pub fn contains_text(v: &Vec<String>, s: &String) -> (r: bool)
    ensures
        r == text_set(v@).contains(s@),
{
    let mut i: usize = 0;
    while i < v.len()
        invariant
            i <= v@.len(),
            forall|j: int| 0 <= j < i ==> v@[j]@ != s@,
        decreases v@.len() - i,
    {
        if v[i] == *s {
            assert(texts(v@)[i as int] == s@);
            return true;
        }
        i = i + 1;
    }
    proof {
        if texts(v@).contains(s@) {
            let j = choose|j: int| 0 <= j < texts(v@).len() && texts(v@)[j] == s@;
            assert(v@[j]@ == s@);
        }
    }
    false
}

/// Pushing a string adds its text to the set of texts.
pub proof fn lemma_text_set_push(v: Seq<String>, s: String)
    ensures
        text_set(v.push(s)) == text_set(v).insert(s@),
        texts(v.push(s)) == texts(v).push(s@),
{
    assert(texts(v.push(s)) =~= texts(v).push(s@));
    Seq::lemma_to_set_insert_commutes(texts(v), s@);
    assert(texts(v).push(s@) =~= texts(v) + seq![s@]);
}

/// Pushing a string whose text is new keeps the texts free of repeats.
pub proof fn lemma_push_fresh_no_dup(v: Seq<String>, s: String)
    requires
        texts(v).no_duplicates(),
        !text_set(v).contains(s@),
    ensures
        texts(v.push(s)).no_duplicates(),
{
    lemma_text_set_push(v, s);
    let t = texts(v.push(s));
    assert forall|a: int, b: int| 0 <= a < t.len() && 0 <= b < t.len() && a != b implies t[a]
        != t[b] by {
        if a == v.len() as int {
            assert(texts(v).to_set().contains(texts(v)[b]));
        } else if b == v.len() as int {
            assert(texts(v).to_set().contains(texts(v)[a]));
        } else {
            assert(t[a] == texts(v)[a] && t[b] == texts(v)[b]);
        }
    }
}

pub struct Tally {
    keys: Vec<String>,
    counts: Vec<u64>,
    model: Ghost<Map<Seq<char>, nat>>,
}

impl View for Tally {
    type V = Map<Seq<char>, nat>;

    closed spec fn view(&self) -> Map<Seq<char>, nat> {
        self.model@
    }
}

impl Tally {
    pub closed spec fn wf(&self) -> bool {
        &&& self.keys@.len() == self.counts@.len()
        &&& texts(self.keys@).no_duplicates()
        &&& self.model@.dom() == texts(self.keys@).to_set()
        &&& forall|i: int|
            0 <= i < self.keys@.len() ==> self.model@[#[trigger] self.keys@[i]@]
                == self.counts@[i] as nat
    }

    proof fn lemma_wf_facts(&self)
        requires
            self.wf(),
        ensures
            self@.dom().finite(),
            self@.dom().len() == self.keys@.len(),
            forall|k: Seq<char>| #[trigger]
                self@.contains_key(k) ==> exists|i: int|
                    0 <= i < self.keys@.len() && self.keys@[i]@ == k,
    {
        texts(self.keys@).unique_seq_to_set();
        assert forall|k: Seq<char>| #[trigger] self@.contains_key(k) implies exists|i: int|
            0 <= i < self.keys@.len() && self.keys@[i]@ == k by {
            assert(texts(self.keys@).contains(k));
            let i = choose|i: int| 0 <= i < texts(self.keys@).len() && texts(self.keys@)[i] == k;
            assert(self.keys@[i]@ == k);
        }
    }

    /// An empty table.
    pub fn new() -> (t: Tally)
        ensures
            t.wf(),
            t@ == Map::<Seq<char>, nat>::empty(),
    {
        let t = Tally { keys: Vec::new(), counts: Vec::new(), model: Ghost(Map::empty()) };
        assert(texts(t.keys@).to_set() =~= Set::<Seq<char>>::empty());
        t
    }

    fn find(&self, k: &String) -> (r: Option<usize>)
        requires
            self.wf(),
        ensures
            match r {
                Some(i) => i < self.keys@.len() && self.keys@[i as int]@ == k@
                    && self@.contains_key(k@) && self@[k@] == self.counts@[i as int] as nat,
                None => !self@.contains_key(k@),
            },
    {
        let mut i: usize = 0;
        while i < self.keys.len()
            invariant
                self.wf(),
                i <= self.keys@.len(),
                forall|j: int| 0 <= j < i ==> self.keys@[j]@ != k@,
            decreases self.keys@.len() - i,
        {
            if self.keys[i] == *k {
                assert(texts(self.keys@)[i as int] == k@);
                assert(texts(self.keys@).to_set().contains(texts(self.keys@)[i as int]));
                return Some(i);
            }
            i = i + 1;
        }
        proof {
            self.lemma_wf_facts();
        }
        None
    }

    /// How often `k` was counted.
    pub fn count(&self, k: &String) -> (r: u64)
        requires
            self.wf(),
        ensures
            r as nat == count_in(self@, k@),
    {
        match self.find(k) {
            Some(i) => self.counts[i],
            None => 0,
        }
    }

    /// The number of distinct keys.
    pub fn len(&self) -> (r: usize)
        requires
            self.wf(),
        ensures
            r as nat == self@.dom().len(),
    {
        proof {
            self.lemma_wf_facts();
        }
        self.keys.len()
    }

    /// Counts one more occurrence of `k`.
    pub fn bump(&mut self, k: &String)
        requires
            old(self).wf(),
            count_in(old(self)@, k@) < u64::MAX,
        ensures
            final(self).wf(),
            final(self)@ == bumped(old(self)@, k@),
    {
        match self.find(k) {
            Some(i) => {
                let c = self.counts[i];
                assert(c as nat == count_in(self@, k@));
                self.counts.set(i, c + 1);
                self.model = Ghost(bumped(self.model@, k@));
                assert forall|j: int| 0 <= j < self.keys@.len() implies self.model@[
                    #[trigger] self.keys@[j]@] == self.counts@[j] as nat by {
                    if j != i {
                        assert(texts(self.keys@)[j] != texts(self.keys@)[i as int]);
                    }
                }
                assert(self.model@.dom() =~= texts(self.keys@).to_set()) by {
                    assert(texts(self.keys@)[i as int] == k@);
                }
            },
            None => {
                let ghost old_keys = texts(self.keys@);
                self.keys.push(k.clone());
                self.counts.push(1);
                self.model = Ghost(bumped(self.model@, k@));
                assert(texts(self.keys@) =~= old_keys.push(k@));
                assert(texts(self.keys@).to_set() =~= old_keys.to_set().insert(k@)) by {
                    Seq::lemma_to_set_insert_commutes(old_keys, k@);
                    assert(old_keys.push(k@) =~= old_keys + seq![k@]);
                }
                assert forall|a: int, b: int|
                    0 <= a < b < texts(self.keys@).len() implies texts(self.keys@)[a] != texts(
                    self.keys@,
                )[b] by {
                    if b == old_keys.len() {
                        assert(old_keys.to_set().contains(old_keys[a]));
                    } else {
                        assert(old_keys[a] != old_keys[b]);
                    }
                }
                assert forall|j: int| 0 <= j < self.keys@.len() implies self.model@[
                    #[trigger] self.keys@[j]@] == self.counts@[j] as nat by {
                    if j < old_keys.len() {
                        assert(old_keys.to_set().contains(old_keys[j]));
                        assert(self.keys@[j]@ == old_keys[j]);
                    }
                }
            },
        }
    }

    /// Every key with its count, in the order the keys were first counted.
    pub fn entries(&self) -> (r: Vec<(String, u64)>)
        requires
            self.wf(),
        ensures
            lists_exactly(r@, self@),
    {
        let mut r: Vec<(String, u64)> = Vec::new();
        let mut i: usize = 0;
        while i < self.keys.len()
            invariant
                self.wf(),
                i <= self.keys@.len(),
                r@.len() == i,
                forall|j: int| 0 <= j < i ==> (#[trigger] r@[j]).0@ == self.keys@[j]@ && r@[j].1
                    == self.counts@[j],
            decreases self.keys@.len() - i,
        {
            r.push((self.keys[i].clone(), self.counts[i]));
            i = i + 1;
        }
        proof {
            self.lemma_wf_facts();
            assert forall|a: int, b: int| 0 <= a < b < r@.len() implies r@[a].0@ != r@[b].0@ by {
                assert(texts(self.keys@)[a] != texts(self.keys@)[b]);
            }
            assert forall|a: int| 0 <= a < r@.len() implies self@.contains_key(
                #[trigger] r@[a].0@,
            ) && self@[r@[a].0@] == r@[a].1 as nat by {
                assert(texts(self.keys@)[a] == self.keys@[a]@);
                assert(texts(self.keys@).to_set().contains(texts(self.keys@)[a]));
            }
            assert forall|k: Seq<char>| #[trigger] self@.contains_key(k) implies exists|a: int|
                0 <= a < r@.len() && r@[a].0@ == k by {
                let a = choose|a: int| 0 <= a < self.keys@.len() && self.keys@[a]@ == k;
                assert(r@[a].0@ == k);
            }
        }
        r
    }
}

} // verus!
