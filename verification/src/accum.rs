//! Accumulation of repeated filter terms into per-category value lists, and
//! their JSON encoding for the `filters` query parameter.
use crate::filter::Filter;
use crate::params::str_eq;
use vstd::prelude::*;

verus! {

/// The JSON object text that the `filters` parameter carries for a map from
/// category names to string arrays. Its exact spelling is not modeled; it is
/// a function of the entries alone.
pub uninterp spec fn json_obj_of(m: Map<Seq<char>, Seq<Seq<char>>>) -> Seq<char>;

/// Per-category accumulated filter values: categories in insertion order,
/// each category's values in insertion order. Append-only while building.
pub struct FilterMap {
    pub entries: Vec<(String, Vec<String>)>,
}

impl View for FilterMap {
    type V = Seq<(Seq<char>, Seq<Seq<char>>)>;

    open spec fn view(&self) -> Seq<(Seq<char>, Seq<Seq<char>>)> {
        self.entries@.map(|i: int, e: (String, Vec<String>)| (e.0@, e.1.deep_view()))
    }
}

/// One term folded in: its value goes to the end of its category's list, a
/// fresh category to the end of the map.
pub open spec fn upd_filters(
    m: Map<Seq<char>, Seq<Seq<char>>>,
    k: Seq<char>,
    v: Seq<char>,
) -> Map<Seq<char>, Seq<Seq<char>>> {
    m.insert(
        k,
        if m.dom().contains(k) {
            m[k].push(v)
        } else {
            seq![v]
        },
    )
}

/// A whole sequence of terms folded in, first term first.
pub open spec fn accumulate<F: Filter>(
    m: Map<Seq<char>, Seq<Seq<char>>>,
    terms: Seq<F>,
) -> Map<Seq<char>, Seq<Seq<char>>>
    decreases terms.len(),
{
    if terms.len() == 0 {
        m
    } else {
        accumulate(upd_filters(m, terms[0].key_spec(), terms[0].val_spec()), terms.drop_first())
    }
}

pub proof fn lemma_accumulate_snoc<F: Filter>(
    m: Map<Seq<char>, Seq<Seq<char>>>,
    terms: Seq<F>,
    f: F,
)
    ensures
        accumulate(m, terms.push(f)) == upd_filters(
            accumulate(m, terms),
            f.key_spec(),
            f.val_spec(),
        ),
    decreases terms.len(),
{
    let s = terms.push(f);
    assert(s.len() > 0);
    assert(s[0] == if terms.len() == 0 {
        f
    } else {
        terms[0]
    });
    assert(accumulate(m, s) == accumulate(upd_filters(m, s[0].key_spec(), s[0].val_spec()), s.drop_first()));
    if terms.len() == 0 {
        assert(s.drop_first() =~= Seq::<F>::empty());
        assert(accumulate(upd_filters(m, f.key_spec(), f.val_spec()), s.drop_first())
            == upd_filters(m, f.key_spec(), f.val_spec()));
        assert(accumulate(m, terms) == m);
    } else {
        assert(s.drop_first() =~= terms.drop_first().push(f));
        lemma_accumulate_snoc(
            upd_filters(m, terms[0].key_spec(), terms[0].val_spec()),
            terms.drop_first(),
            f,
        );
    }
}

/// What accumulation amounts to: a category is present exactly when it was
/// already present or some term touches it, and the entries of a category are
/// those it had before followed by the encoded values of the terms that touch
/// it, in the terms' order.
pub proof fn lemma_accumulate_characterizes<F: Filter>(
    m: Map<Seq<char>, Seq<Seq<char>>>,
    terms: Seq<F>,
    k: Seq<char>,
)
    ensures
        accumulate(m, terms).dom().contains(k) <==> m.dom().contains(k) || terms.filter(
            |f: F| f.key_spec() == k,
        ).len() > 0,
        accumulate(m, terms).dom().contains(k) ==> accumulate(m, terms)[k] == (if m.dom().contains(
            k,
        ) {
            m[k]
        } else {
            Seq::empty()
        }) + terms.filter(|f: F| f.key_spec() == k).map_values(|f: F| f.val_spec()),
    decreases terms.len(),
{
    reveal(Seq::filter);
    if terms.len() > 0 {
        let pre = terms.drop_last();
        let f = terms.last();
        assert(terms =~= pre.push(f));
        lemma_accumulate_snoc(m, pre, f);
        lemma_accumulate_characterizes(m, pre, k);
        let pred = |g: F| g.key_spec() == k;
        let vals = |g: F| g.val_spec();
        assert(terms.filter(pred) == if pred(f) {
            pre.filter(pred).push(f)
        } else {
            pre.filter(pred)
        });
        if pred(f) {
            assert(pre.filter(pred).push(f).map_values(vals) =~= pre.filter(pred).map_values(
                vals,
            ).push(f.val_spec()));
        }
        if accumulate(m, terms).dom().contains(k) {
            assert(accumulate(m, terms)[k] =~= (if m.dom().contains(k) {
                m[k]
            } else {
                Seq::empty()
            }) + terms.filter(pred).map_values(vals));
        }
    } else {
        assert(terms.filter(|f: F| f.key_spec() == k).len() == 0);
    }
}

impl FilterMap {
    /// Categories are mutually distinct.
    pub open spec fn wf(self) -> bool {
        forall|i: int, j: int|
            0 <= i < j < self@.len() ==> (#[trigger] self@[i]).0 != (#[trigger] self@[j]).0
    }

    /// The map this sequence of categories denotes.
    pub open spec fn as_map(self) -> Map<Seq<char>, Seq<Seq<char>>> {
        Map::new(
            |k: Seq<char>| exists|i: int| 0 <= i < self@.len() && (#[trigger] self@[i]).0 == k,
            |k: Seq<char>|
                {
                    let i = choose|i: int| 0 <= i < self@.len() && (#[trigger] self@[i]).0 == k;
                    self@[i].1
                },
        )
    }

    pub open spec fn spec_contains_key(self, k: Seq<char>) -> bool {
        exists|i: int| 0 <= i < self@.len() && (#[trigger] self@[i]).0 == k
    }

    pub fn new() -> (r: FilterMap)
        ensures
            r@ =~= Seq::<(Seq<char>, Seq<Seq<char>>)>::empty(),
            r.wf(),
    {
        FilterMap { entries: Vec::new() }
    }

    fn position_of(&self, key: &str) -> (r: Option<usize>)
        requires
            self.wf(),
        ensures
            match r {
                Some(i) => i < self@.len() && self@[i as int].0 == key@,
                None => !self.spec_contains_key(key@),
            },
    {
        let n = self.entries.len();
        for i in 0..n
            invariant
                forall|j: int| 0 <= j < i ==> (#[trigger] self@[j]).0 != key@,
        {
            if str_eq(self.entries[i].0.as_str(), key) {
                return Some(i);
            }
        }
        None
    }

    /// Append `val` to `key`'s category, opening the category at the end of
    /// the map if no term has touched it yet.
    pub fn push(&mut self, key: &str, val: String)
        requires
            old(self).wf(),
        ensures
            final(self).wf(),
            final(self).as_map() =~= upd_filters(old(self).as_map(), key@, val@),
    {
        let ghost old_self = *self;
        match self.position_of(key) {
            Some(i) => {
                let mut pair = self.entries.remove(i);
                pair.1.push(val);
                self.entries.insert(i, pair);
                proof {
                    let wi = choose|wi: int|
                        0 <= wi < old_self@.len() && (#[trigger] old_self@[wi]).0 == key@;
                    assert(wi == i) by {
                        if wi != i {
                            assert(old_self@[wi].0 == old_self@[i as int].0);
                        }
                    }
                    assert(pair.1.deep_view() =~= old_self@[i as int].1.push(val@));
                    assert(self@ =~= old_self@.update(
                        i as int,
                        (key@, old_self@[i as int].1.push(val@)),
                    ));
                    assert(old_self.as_map()[key@] == old_self@[i as int].1);
                    lemma_update_as_map(
                        old_self,
                        *self,
                        key@,
                        old_self@[i as int].1.push(val@),
                        i as int,
                    );
                }
            },
            None => {
                let owned_key = key.to_owned();
                let mut vals: Vec<String> = Vec::new();
                vals.push(val);
                self.entries.push((owned_key, vals));
                proof {
                    assert(vals.deep_view() =~= seq![val@]);
                    assert(self@ =~= old_self@.push((key@, seq![val@])));
                    lemma_append_as_map(old_self, *self, key@, seq![val@]);
                }
            },
        }
    }
}

proof fn lemma_update_as_map(p0: FilterMap, p1: FilterMap, k: Seq<char>, v: Seq<Seq<char>>, i: int)
    requires
        p0.wf(),
        0 <= i < p0@.len(),
        p0@[i].0 == k,
        p1@ == p0@.update(i, (k, v)),
    ensures
        p1.wf(),
        p1.as_map() =~= p0.as_map().insert(k, v),
{
    assert forall|k2: Seq<char>|
        p1.as_map().dom().contains(k2) == p0.as_map().insert(k, v).dom().contains(k2) by {
        if p1.spec_contains_key(k2) {
            let j = choose|j: int| 0 <= j < p1@.len() && (#[trigger] p1@[j]).0 == k2;
            if j == i {
                assert(p0@[i].0 == k2);
            } else {
                assert(p0@[j].0 == k2);
            }
        }
        if p0.as_map().insert(k, v).dom().contains(k2) {
            if k2 == k {
                assert(p1@[i].0 == k);
            } else {
                let j = choose|j: int| 0 <= j < p0@.len() && (#[trigger] p0@[j]).0 == k2;
                assert(j != i);
                assert(p1@[j].0 == k2);
            }
        }
    }
    assert(p1.as_map().dom() =~= p0.as_map().insert(k, v).dom());
    assert forall|k2: Seq<char>| p1.as_map().dom().contains(k2) implies #[trigger] p1.as_map()[k2]
        == p0.as_map().insert(k, v)[k2] by {
        let j = choose|j: int| 0 <= j < p1@.len() && (#[trigger] p1@[j]).0 == k2;
        if k2 == k {
            assert(j == i) by {
                if j != i {
                    assert(p0@[j].0 == p0@[i].0);
                }
            }
            assert(p1.as_map()[k2] == v);
        } else {
            assert(j != i);
            let j0 = choose|j0: int| 0 <= j0 < p0@.len() && (#[trigger] p0@[j0]).0 == k2;
            assert(j0 == j) by {
                if j0 != j {
                    assert(p0@[j0].0 == p0@[j].0);
                }
            }
        }
    }
    assert(p1.as_map() =~= p0.as_map().insert(k, v));
}

proof fn lemma_append_as_map(p0: FilterMap, p1: FilterMap, k: Seq<char>, v: Seq<Seq<char>>)
    requires
        p0.wf(),
        !p0.spec_contains_key(k),
        p1@ == p0@.push((k, v)),
    ensures
        p1.wf(),
        p1.as_map() =~= p0.as_map().insert(k, v),
{
    let n = p0@.len() as int;
    assert forall|k2: Seq<char>|
        p1.as_map().dom().contains(k2) == p0.as_map().insert(k, v).dom().contains(k2) by {
        if p1.spec_contains_key(k2) {
            let j = choose|j: int| 0 <= j < p1@.len() && (#[trigger] p1@[j]).0 == k2;
            if j != n {
                assert(p0@[j].0 == k2);
            }
        }
        if p0.as_map().insert(k, v).dom().contains(k2) {
            if k2 == k {
                assert(p1@[n].0 == k);
            } else {
                let j0 = choose|j0: int| 0 <= j0 < p0@.len() && (#[trigger] p0@[j0]).0 == k2;
                assert(p1@[j0].0 == k2);
            }
        }
    }
    assert(p1.as_map().dom() =~= p0.as_map().insert(k, v).dom());
    assert forall|k2: Seq<char>| p1.as_map().dom().contains(k2) implies #[trigger] p1.as_map()[k2]
        == p0.as_map().insert(k, v)[k2] by {
        let j = choose|j: int| 0 <= j < p1@.len() && (#[trigger] p1@[j]).0 == k2;
        if k2 == k {
            assert(j == n) by {
                if j != n {
                    assert(p0@[j].0 == k);
                }
            }
            assert(p1.as_map()[k2] == v);
        } else {
            assert(j != n);
            assert(p0@[j].0 == k2);
            let j0 = choose|j0: int| 0 <= j0 < p0@.len() && (#[trigger] p0@[j0]).0 == k2;
            assert(j0 == j) by {
                if j0 != j {
                    assert(p0@[j0].0 == p0@[j].0);
                }
            }
        }
    }
    assert(p1.as_map() =~= p0.as_map().insert(k, v));
}

/// Relies on serde_json::to_string applied to a serde_json::Map, which keeps
/// its entries in a BTreeMap: the encoded JSON object is a function of the
/// key/value entries alone.
#[verifier::external_body]
pub(crate) fn encode_filters(fm: &FilterMap) -> (r: Option<String>)
    requires
        fm.wf(),
    ensures
        r matches Some(s) ==> s@ == json_obj_of(fm.as_map()),
{
    let mut obj = serde_json::Map::new();
    for e in fm.entries.iter() {
        let mut arr: Vec<serde_json::Value> = Vec::new();
        for v in e.1.iter() {
            arr.push(serde_json::Value::String(v.clone()));
        }
        obj.insert(e.0.clone(), serde_json::Value::Array(arr));
    }
    serde_json::to_string(&obj).ok()
}

} // verus!
