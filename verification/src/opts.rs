//! Options for filtering streams of daemon events: a mutable builder that
//! accumulates scalar and repeated-filter parameters, and the immutable
//! snapshot it produces.
use crate::accum::accumulate;
use crate::accum::encode_filters;
use crate::accum::json_obj_of;
use crate::accum::lemma_accumulate_snoc;
use crate::accum::upd_filters;
use crate::accum::FilterMap;
use crate::filter::EventFilter;
use crate::filter::Filter;
use crate::params::lemma_as_map_congruence;
use crate::params::Params;
use crate::query::ascii_chars_of;
use crate::query::ascii_string;
use crate::query::encoded_pairs;
use crate::query::query_bytes;
use vstd::prelude::*;

verus! {

/// The decimal digits of a natural number, most significant first, as ASCII
/// bytes.
pub open spec fn dec_bytes(n: nat) -> Seq<u8>
    decreases n,
{
    if n < 10 {
        seq![(0x30 + n) as u8]
    } else {
        dec_bytes(n / 10).push((0x30 + n % 10) as u8)
    }
}

/// The decimal rendering of a signed timestamp.
pub open spec fn dec_i64(t: i64) -> Seq<char> {
    if t < 0 {
        ascii_chars_of(seq![0x2du8] + dec_bytes((-(t as int)) as nat))
    } else {
        ascii_chars_of(dec_bytes(t as nat))
    }
}

fn i64_dec_string(t: i64) -> (r: String)
    ensures
        r@ == dec_i64(t),
{
    let neg = t < 0;
    let mut m: u64 = if t == i64::MIN {
        9223372036854775808u64
    } else if t < 0 {
        (-t) as u64
    } else {
        t as u64
    };
    let ghost n0 = m as nat;
    proof {
        if t < 0 {
            assert(n0 == (-(t as int)) as nat);
        } else {
            assert(n0 == t as nat);
        }
    }
    let mut acc: Vec<u8> = Vec::new();
    while m >= 10
        invariant
            dec_bytes(n0) == dec_bytes(m as nat) + acc@,
            forall|i: int| 0 <= i < acc@.len() ==> acc@[i] < 128,
        decreases m,
    {
        let ghost accprev = acc@;
        let d: u8 = (m % 10) as u8 + 0x30;
        acc.insert(0, d);
        proof {
            assert(acc@ =~= seq![d] + accprev);
            assert(dec_bytes(m as nat) == dec_bytes(m as nat / 10).push(d));
            assert(m as nat / 10 == (m / 10) as nat);
            assert(dec_bytes(n0) =~= dec_bytes((m / 10) as nat) + acc@);
        }
        m = m / 10;
    }
    let ghost accprev = acc@;
    let d: u8 = m as u8 + 0x30;
    acc.insert(0, d);
    proof {
        assert(acc@ =~= seq![d] + accprev);
        assert(dec_bytes(m as nat) == seq![d]);
        assert(acc@ =~= dec_bytes(n0));
    }
    let mut out: Vec<u8> = Vec::new();
    if neg {
        out.push(0x2d);
    }
    out.append(&mut acc);
    proof {
        if t < 0 {
            assert(out@ =~= seq![0x2du8] + dec_bytes((-(t as int)) as nat));
        } else {
            assert(out@ =~= dec_bytes(t as nat));
        }
    }
    ascii_string(out)
}

/// Fold each term's encoded pair into the per-category lists, then rebind the
/// `filters` parameter to the JSON encoding of every non-empty category; on
/// an encoding failure the parameter is dropped instead (best effort, never
/// an error).
pub(crate) fn apply_filters<F: Filter>(fm: &mut FilterMap, params: &mut Params, terms: &Vec<F>)
    requires
        old(fm).wf(),
        old(params).wf(),
    ensures
        final(fm).wf(),
        final(params).wf(),
        final(fm).as_map() == accumulate(old(fm).as_map(), terms@),
        final(params).as_map() == old(params).as_map().insert(
            "filters"@,
            json_obj_of(accumulate(old(fm).as_map(), terms@)),
        ) || final(params).as_map() == old(params).as_map().remove("filters"@),
{
    let ghost m0 = old(fm).as_map();
    let n = terms.len();
    for i in 0..n
        invariant
            fm.wf(),
            params.wf(),
            fm.as_map() == accumulate(m0, terms@.take(i as int)),
    {
        let kv = terms[i].query_key_val();
        fm.push(kv.0, kv.1);
        proof {
            lemma_accumulate_snoc(m0, terms@.take(i as int), terms@[i as int]);
            assert(terms@.take(i as int).push(terms@[i as int]) =~= terms@.take(i + 1));
            assert(fm.as_map() =~= upd_filters(
                accumulate(m0, terms@.take(i as int)),
                terms@[i as int].key_spec(),
                terms@[i as int].val_spec(),
            ));
        }
    }
    proof {
        assert(terms@.take(n as int) =~= terms@);
    }
    match encode_filters(fm) {
        Some(s) => {
            proof {
                reveal_strlit("filters");
            }
            params.set("filters", s);
        },
        None => {
            params.remove("filters");
        },
    }
}

/// Options for a stream of daemon events, built by `EventsOptsBuilder` and
/// never mutated afterwards.
pub struct EventsOpts {
    pub params: Params,
}

impl EventsOpts {
    pub open spec fn wf(self) -> bool {
        self.params.wf()
    }

    pub fn builder() -> (r: EventsOptsBuilder)
        ensures
            r.wf(),
            r.params@ =~= Seq::<(Seq<char>, Seq<char>)>::empty(),
            r.filters@ =~= Seq::<(Seq<char>, Seq<Seq<char>>)>::empty(),
    {
        EventsOptsBuilder { params: Params::new(), filters: FilterMap::new() }
    }

    /// The options as a query string; none when no parameter is set, so the
    /// caller can omit the `?` separator entirely.
    pub fn serialize(&self) -> (r: Option<String>)
        requires
            self.wf(),
        ensures
            r is Some <==> self.params@.len() > 0,
            r is Some <==> exists|k: Seq<char>| self.params.as_map().dom().contains(k),
            r matches Some(s) ==> s@ == ascii_chars_of(query_bytes(self.params@)),
    {
        if self.params.is_empty() {
            None
        } else {
            proof {
                assert(self.params.as_map().dom().contains(self.params@[0].0));
            }
            Some(encoded_pairs(&self.params))
        }
    }
}

/// Builder interface for `EventsOpts`.
pub struct EventsOptsBuilder {
    pub params: Params,
    pub filters: FilterMap,
}

impl EventsOptsBuilder {
    pub open spec fn wf(self) -> bool {
        self.params.wf() && self.filters.wf()
    }

    /// Only return events since this time, as a UNIX timestamp. A later call
    /// overwrites an earlier one.
    pub fn since(&mut self, timestamp: i64)
        requires
            old(self).wf(),
        ensures
            final(self).wf(),
            final(self).params.as_map() == old(self).params.as_map().insert(
                "since"@,
                dec_i64(timestamp),
            ),
            final(self).filters@ == old(self).filters@,
    {
        proof {
            reveal_strlit("since");
        }
        self.params.set("since", i64_dec_string(timestamp));
    }

    /// Only return events before this time, as a UNIX timestamp. A later
    /// call overwrites an earlier one.
    pub fn until(&mut self, timestamp: i64)
        requires
            old(self).wf(),
        ensures
            final(self).wf(),
            final(self).params.as_map() == old(self).params.as_map().insert(
                "until"@,
                dec_i64(timestamp),
            ),
            final(self).filters@ == old(self).filters@,
    {
        proof {
            reveal_strlit("until");
        }
        self.params.set("until", i64_dec_string(timestamp));
    }

    /// Fold more filter terms in and re-encode the `filters` parameter from
    /// every category accumulated so far.
    pub fn filter(&mut self, filters: Vec<EventFilter>)
        requires
            old(self).wf(),
        ensures
            final(self).wf(),
            final(self).filters.as_map() == accumulate(old(self).filters.as_map(), filters@),
            final(self).params.as_map() == old(self).params.as_map().insert(
                "filters"@,
                json_obj_of(final(self).filters.as_map()),
            ) || final(self).params.as_map() == old(self).params.as_map().remove("filters"@),
    {
        apply_filters(&mut self.filters, &mut self.params, &filters);
    }

    /// An immutable snapshot of the parameters accumulated so far: a copy,
    /// not a reference, so later builder calls leave it untouched and
    /// building is idempotent.
    pub fn build(&self) -> (r: EventsOpts)
        requires
            self.wf(),
        ensures
            r.wf(),
            r.params@ == self.params@,
            r.params.as_map() == self.params.as_map(),
    {
        let params = self.params.duplicate();
        proof {
            assert(params@ =~= self.params@);
            lemma_as_map_congruence(params, self.params);
        }
        EventsOpts { params }
    }
}

/// Setting the same scalar parameter twice keeps only the later value:
/// overwrite, not accumulation.
pub proof fn lemma_last_scalar_wins(
    m: Map<Seq<char>, Seq<char>>,
    k: Seq<char>,
    v1: Seq<char>,
    v2: Seq<char>,
)
    ensures
        m.insert(k, v1).insert(k, v2) =~= m.insert(k, v2),
{
}

/// Two snapshots of one builder state are equal: building is idempotent,
/// and a snapshot only ever reflects the state it was built from.
pub proof fn lemma_build_snapshot(b: EventsOptsBuilder, o1: EventsOpts, o2: EventsOpts)
    requires
        o1.params@ == b.params@,
        o2.params@ == b.params@,
    ensures
        o1.params@ == o2.params@,
{
}

} // verus!
