//! An insertion-ordered map from daemon parameter names to string values,
//! the backing store of every options value.
use vstd::prelude::*;
use vstd::utf8::encode_utf8;
use vstd::utf8::encode_utf8_decode_utf8;
use vstd::utf8::is_ascii_chars;

verus! {

/// Character-for-character string equality, decided by comparing the UTF-8
/// bytes of the two strings.
pub fn str_eq(a: &str, b: &str) -> (r: bool)
    ensures
        r == (a@ == b@),
{
    let ab = a.as_bytes();
    let bb = b.as_bytes();
    proof {
        encode_utf8_decode_utf8(a@);
        encode_utf8_decode_utf8(b@);
    }
    if ab.len() != bb.len() {
        return false;
    }
    let n = ab.len();
    for i in 0..n
        invariant
            forall|j: int| 0 <= j < i ==> ab@[j] == bb@[j],
    {
        if ab[i] != bb[i] {
            return false;
        }
    }
    proof {
        assert(encode_utf8(a@) =~= encode_utf8(b@));
    }
    true
}

/// A parameter map. Keys keep their insertion order, each key occurs at most
/// once, and keys are drawn from the fixed set of ASCII daemon parameter
/// names.
pub struct Params {
    pub entries: Vec<(String, String)>,
}

impl View for Params {
    type V = Seq<(Seq<char>, Seq<char>)>;

    open spec fn view(&self) -> Seq<(Seq<char>, Seq<char>)> {
        self.entries@.map(|i: int, e: (String, String)| (e.0@, e.1@))
    }
}

impl Params {
    /// Keys are mutually distinct and ASCII.
    pub open spec fn wf(self) -> bool {
        &&& forall|i: int, j: int|
            0 <= i < j < self@.len() ==> (#[trigger] self@[i]).0 != (#[trigger] self@[j]).0
        &&& forall|i: int| 0 <= i < self@.len() ==> is_ascii_chars((#[trigger] self@[i]).0)
    }

    /// The map this sequence of pairs denotes.
    pub open spec fn as_map(self) -> Map<Seq<char>, Seq<char>> {
        Map::new(
            |k: Seq<char>| exists|i: int| 0 <= i < self@.len() && (#[trigger] self@[i]).0 == k,
            |k: Seq<char>|
                {
                    let i = choose|i: int| 0 <= i < self@.len() && (#[trigger] self@[i]).0 == k;
                    self@[i].1
                },
        )
    }

    pub open spec fn spec_contains_key(self, k: Seq<char>) -> bool {
        exists|i: int| 0 <= i < self@.len() && (#[trigger] self@[i]).0 == k
    }

    pub fn new() -> (r: Params)
        ensures
            r@ =~= Seq::<(Seq<char>, Seq<char>)>::empty(),
            r.wf(),
    {
        Params { entries: Vec::new() }
    }

    pub fn len(&self) -> (r: usize)
        ensures
            r == self@.len(),
    {
        self.entries.len()
    }

    pub fn is_empty(&self) -> (r: bool)
        ensures
            r == (self@.len() == 0),
    {
        self.entries.len() == 0
    }

    fn position_of(&self, key: &str) -> (r: Option<usize>)
        requires
            self.wf(),
        ensures
            match r {
                Some(i) => i < self@.len() && self@[i as int].0 == key@,
                None => !self.spec_contains_key(key@),
            },
    {
        let n = self.entries.len();
        for i in 0..n
            invariant
                forall|j: int| 0 <= j < i ==> (#[trigger] self@[j]).0 != key@,
        {
            if str_eq(self.entries[i].0.as_str(), key) {
                return Some(i);
            }
        }
        None
    }

    /// Bind `key` to `value`, overwriting any earlier value for the same key
    /// while keeping the key's position; a new key goes to the end.
    pub fn set(&mut self, key: &str, value: String)
        requires
            old(self).wf(),
            key.is_ascii(),
        ensures
            final(self).wf(),
            final(self).as_map() =~= old(self).as_map().insert(key@, value@),
            old(self).spec_contains_key(key@) ==> {
                let i = choose|i: int|
                    0 <= i < old(self)@.len() && (#[trigger] old(self)@[i]).0 == key@;
                final(self)@ =~= old(self)@.update(i, (key@, value@))
            },
            !old(self).spec_contains_key(key@) ==> final(self)@ =~= old(self)@.push(
                (key@, value@),
            ),
    {
        let ghost old_self = *self;
        match self.position_of(key) {
            Some(i) => {
                let owned_key = key.to_owned();
                self.entries.set(i, (owned_key, value));
                proof {
                    let wi = choose|wi: int|
                        0 <= wi < old_self@.len() && (#[trigger] old_self@[wi]).0 == key@;
                    assert(wi == i) by {
                        if wi != i {
                            assert(old_self@[wi].0 == old_self@[i as int].0);
                        }
                    }
                    assert(self@ =~= old_self@.update(i as int, (key@, value@)));
                    lemma_set_as_map(old_self, *self, key@, value@, i as int);
                }
            },
            None => {
                let owned_key = key.to_owned();
                self.entries.push((owned_key, value));
                proof {
                    assert(self@ =~= old_self@.push((key@, value@)));
                    lemma_push_as_map(old_self, *self, key@, value@);
                }
            },
        }
    }

    /// Drop `key` and its value, if present; the order of the other entries
    /// is kept.
    pub fn remove(&mut self, key: &str)
        requires
            old(self).wf(),
        ensures
            final(self).wf(),
            final(self).as_map() =~= old(self).as_map().remove(key@),
            !old(self).spec_contains_key(key@) ==> final(self)@ =~= old(self)@,
            old(self).spec_contains_key(key@) ==> final(self)@.len() == old(self)@.len() - 1,
    {
        let ghost old_self = *self;
        match self.position_of(key) {
            Some(i) => {
                self.entries.remove(i);
                proof {
                    assert(self@ =~= old_self@.remove(i as int));
                    lemma_remove_as_map(old_self, *self, key@, i as int);
                }
            },
            None => {
                proof {
                    assert(self.as_map() =~= old_self.as_map().remove(key@));
                }
            },
        }
    }

    /// Look a key up, by value.
    pub fn get(&self, key: &str) -> (r: Option<&String>)
        requires
            self.wf(),
        ensures
            match r {
                Some(v) => self.spec_contains_key(key@) && self.as_map()[key@] == v@,
                None => !self.spec_contains_key(key@),
            },
    {
        match self.position_of(key) {
            Some(i) => {
                proof {
                    let wi = choose|wi: int|
                        0 <= wi < self@.len() && (#[trigger] self@[wi]).0 == key@;
                    if wi != i {
                        assert(self@[wi].0 == self@[i as int].0);
                    }
                }
                Some(&self.entries[i].1)
            },
            None => None,
        }
    }

    /// An independent deep copy: later changes to either side leave the other
    /// untouched.
    pub fn duplicate(&self) -> (r: Params)
        ensures
            r@ =~= self@,
    {
        let mut entries: Vec<(String, String)> = Vec::new();
        let n = self.entries.len();
        for i in 0..n
            invariant
                entries@.len() == i,
                forall|j: int|
                    0 <= j < i ==> (#[trigger] entries@[j]).0@ == self@[j].0
                        && entries@[j].1@ == self@[j].1,
        {
            entries.push((self.entries[i].0.clone(), self.entries[i].1.clone()));
        }
        let r = Params { entries };
        proof {
            assert(r@ =~= self@);
        }
        r
    }
}

/// The denoted map is a function of the entry sequence alone: two parameter
/// maps with equal entries denote equal maps.
pub proof fn lemma_as_map_congruence(p1: Params, p2: Params)
    requires
        p1@ == p2@,
    ensures
        p1.as_map() == p2.as_map(),
{
    assert(p1.as_map() =~= p2.as_map());
}

proof fn lemma_set_as_map(p0: Params, p1: Params, k: Seq<char>, v: Seq<char>, i: int)
    requires
        p0.wf(),
        0 <= i < p0@.len(),
        p0@[i].0 == k,
        p1@ == p0@.update(i, (k, v)),
    ensures
        p1.wf(),
        p1.as_map() =~= p0.as_map().insert(k, v),
{
    assert forall|k2: Seq<char>|
        p1.as_map().dom().contains(k2) == p0.as_map().insert(k, v).dom().contains(k2) by {
        if p1.spec_contains_key(k2) {
            let j = choose|j: int| 0 <= j < p1@.len() && (#[trigger] p1@[j]).0 == k2;
            if j == i {
                assert(p0@[i].0 == k2);
            } else {
                assert(p0@[j].0 == k2);
            }
        }
        if p0.as_map().insert(k, v).dom().contains(k2) {
            if k2 == k {
                assert(p1@[i].0 == k);
            } else {
                let j = choose|j: int| 0 <= j < p0@.len() && (#[trigger] p0@[j]).0 == k2;
                assert(j != i);
                assert(p1@[j].0 == k2);
            }
        }
    }
    assert(p1.as_map().dom() =~= p0.as_map().insert(k, v).dom());
    assert forall|k2: Seq<char>| p1.as_map().dom().contains(k2) implies #[trigger] p1.as_map()[k2]
        == p0.as_map().insert(k, v)[k2] by {
        let j = choose|j: int| 0 <= j < p1@.len() && (#[trigger] p1@[j]).0 == k2;
        if k2 == k {
            assert(j == i) by {
                if j != i {
                    assert(p0@[j].0 == p0@[i].0);
                }
            }
            assert(p1.as_map()[k2] == v);
        } else {
            assert(j != i);
            let j0 = choose|j0: int| 0 <= j0 < p0@.len() && (#[trigger] p0@[j0]).0 == k2;
            assert(j0 == j) by {
                if j0 != j {
                    assert(p0@[j0].0 == p0@[j].0);
                }
            }
        }
    }
}

proof fn lemma_push_as_map(p0: Params, p1: Params, k: Seq<char>, v: Seq<char>)
    requires
        p0.wf(),
        !p0.spec_contains_key(k),
        is_ascii_chars(k),
        p1@ == p0@.push((k, v)),
    ensures
        p1.wf(),
        p1.as_map() =~= p0.as_map().insert(k, v),
{
    let n = p0@.len() as int;
    assert forall|k2: Seq<char>| p1.as_map().dom().contains(k2) implies p0.as_map().insert(
        k,
        v,
    ).dom().contains(k2) by {
        let j = choose|j: int| 0 <= j < p1@.len() && (#[trigger] p1@[j]).0 == k2;
        if j != n {
            assert(p0@[j].0 == k2);
        }
    }
    assert forall|k2: Seq<char>| p1.as_map().dom().contains(k2) implies #[trigger] p1.as_map()[k2]
        == p0.as_map().insert(k, v)[k2] by {
        let j = choose|j: int| 0 <= j < p1@.len() && (#[trigger] p1@[j]).0 == k2;
        if k2 == k {
            assert(j == n) by {
                if j != n {
                    assert(p0@[j].0 == k);
                }
            }
            assert(p1.as_map()[k2] == v);
        } else {
            assert(j != n);
            assert(p0@[j].0 == k2);
            let j0 = choose|j0: int| 0 <= j0 < p0@.len() && (#[trigger] p0@[j0]).0 == k2;
            assert(j0 == j) by {
                if j0 != j {
                    assert(p0@[j0].0 == p0@[j].0);
                }
            }
        }
    }
    assert forall|k2: Seq<char>| p0.as_map().insert(k, v).dom().contains(k2) implies
        p1.as_map().dom().contains(k2) by {
        if k2 == k {
            assert(p1@[n].0 == k);
        } else {
            let j0 = choose|j0: int| 0 <= j0 < p0@.len() && (#[trigger] p0@[j0]).0 == k2;
            assert(p1@[j0].0 == k2);
        }
    }
    assert(p1.as_map().dom() =~= p0.as_map().insert(k, v).dom());
    assert(p1.as_map() =~= p0.as_map().insert(k, v));
}

proof fn lemma_remove_as_map(p0: Params, p1: Params, k: Seq<char>, i: int)
    requires
        p0.wf(),
        0 <= i < p0@.len(),
        p0@[i].0 == k,
        p1@ == p0@.remove(i),
    ensures
        p1.wf(),
        p1.as_map() =~= p0.as_map().remove(k),
{
    assert forall|j: int, l: int| 0 <= j < l < p1@.len() implies (#[trigger] p1@[j]).0 != (
    #[trigger] p1@[l]).0 by {
        let j0: int = if j < i { j } else { j + 1 };
        let l0: int = if l < i { l } else { l + 1 };
        assert(p1@[j] == p0@[j0]);
        assert(p1@[l] == p0@[l0]);
    }
    assert forall|j: int| 0 <= j < p1@.len() implies is_ascii_chars((#[trigger] p1@[j]).0) by {
        let j0: int = if j < i { j } else { j + 1 };
        assert(p1@[j] == p0@[j0]);
    }
    assert forall|k2: Seq<char>| p1.as_map().dom().contains(k2) implies p0.as_map().remove(
        k,
    ).dom().contains(k2) && p1.as_map()[k2] == p0.as_map().remove(k)[k2] by {
        let j = choose|j: int| 0 <= j < p1@.len() && (#[trigger] p1@[j]).0 == k2;
        let j0: int = if j < i { j } else { j + 1 };
        assert(p1@[j] == p0@[j0]);
        assert(k2 != k) by {
            if k2 == k {
                assert(p0@[j0].0 == p0@[i].0);
            }
        }
        let l0 = choose|l0: int| 0 <= l0 < p0@.len() && (#[trigger] p0@[l0]).0 == k2;
        assert(l0 == j0) by {
            if l0 != j0 {
                assert(p0@[l0].0 == p0@[j0].0);
            }
        }
    }
    assert forall|k2: Seq<char>| p0.as_map().remove(k).dom().contains(k2) implies
        p1.as_map().dom().contains(k2) by {
        let j0 = choose|j0: int| 0 <= j0 < p0@.len() && (#[trigger] p0@[j0]).0 == k2;
        assert(j0 != i);
        let j: int = if j0 < i { j0 } else { j0 - 1 };
        assert(p1@[j] == p0@[j0]);
    }
}

} // verus!
