//! Secrets are sensitive data that services may use; here their data records
//! and the filter options of a secret listing.
use crate::accum::accumulate;
use crate::accum::json_obj_of;
use crate::accum::FilterMap;
use crate::filter::Filter;
use crate::opts::apply_filters;
use crate::params::lemma_as_map_congruence;
use crate::params::Params;
use crate::query::ascii_chars_of;
use crate::query::encoded_pairs;
use crate::query::query_bytes;
use vstd::prelude::*;

verus! {

/// String labels, as key/value pairs.
pub type Labels = Vec<(String, String)>;

/// A driver handling a secret, with its options.
#[derive(Clone, Debug)]
pub struct Driver {
    pub name: String,
    pub options: Labels,
}

/// The caller-supplied description of a secret.
#[derive(Clone, Debug)]
pub struct SecretSpec {
    pub name: String,
    pub labels: Labels,
    pub data: String,
    pub driver: Driver,
    pub templating: Driver,
}

/// A filtering criterion for secret listings.
pub enum SecretFilter {
    Id(String),
    LabelKey(String),
    LabelKeyVal(String, String),
    Name(String),
    Names(String),
}

impl Filter for SecretFilter {
    open spec fn key_spec(&self) -> Seq<char> {
        match self {
            SecretFilter::Id(_) => "id"@,
            SecretFilter::LabelKey(_) => "label"@,
            SecretFilter::LabelKeyVal(_, _) => "label"@,
            SecretFilter::Name(_) => "name"@,
            SecretFilter::Names(_) => "names"@,
        }
    }

    open spec fn val_spec(&self) -> Seq<char> {
        match self {
            SecretFilter::Id(id) => id@,
            SecretFilter::LabelKey(label) => label@,
            SecretFilter::LabelKeyVal(key, val) => key@ + "="@ + val@,
            SecretFilter::Name(name) => name@,
            SecretFilter::Names(names) => names@,
        }
    }

    fn query_key_val(&self) -> (r: (&'static str, String)) {
        proof {
            reveal_strlit("id");
            reveal_strlit("label");
            reveal_strlit("name");
            reveal_strlit("names");
        }
        match self {
            SecretFilter::Id(id) => ("id", id.clone()),
            SecretFilter::LabelKey(label) => ("label", label.clone()),
            SecretFilter::LabelKeyVal(key, val) => {
                ("label", key.clone().concat("=").concat(val.as_str()))
            },
            SecretFilter::Name(name) => ("name", name.clone()),
            SecretFilter::Names(names) => ("names", names.clone()),
        }
    }
}

/// Options for a secret listing, built by `SecretListOptsBuilder` and never
/// mutated afterwards.
pub struct SecretListOpts {
    pub params: Params,
}

impl SecretListOpts {
    pub open spec fn wf(self) -> bool {
        self.params.wf()
    }

    pub fn builder() -> (r: SecretListOptsBuilder)
        ensures
            r.wf(),
            r.params@ =~= Seq::<(Seq<char>, Seq<char>)>::empty(),
            r.filters@ =~= Seq::<(Seq<char>, Seq<Seq<char>>)>::empty(),
    {
        SecretListOptsBuilder { params: Params::new(), filters: FilterMap::new() }
    }

    /// The options as a query string; none when no parameter is set, so the
    /// caller can omit the `?` separator entirely.
    pub fn serialize(&self) -> (r: Option<String>)
        requires
            self.wf(),
        ensures
            r is Some <==> self.params@.len() > 0,
            r is Some <==> exists|k: Seq<char>| self.params.as_map().dom().contains(k),
            r matches Some(s) ==> s@ == ascii_chars_of(query_bytes(self.params@)),
    {
        if self.params.is_empty() {
            None
        } else {
            proof {
                assert(self.params.as_map().dom().contains(self.params@[0].0));
            }
            Some(encoded_pairs(&self.params))
        }
    }
}

/// Builder interface for `SecretListOpts`.
pub struct SecretListOptsBuilder {
    pub params: Params,
    pub filters: FilterMap,
}

impl SecretListOptsBuilder {
    pub open spec fn wf(self) -> bool {
        self.params.wf() && self.filters.wf()
    }

    /// Fold more filter terms in and re-encode the `filters` parameter from
    /// every category accumulated so far.
    pub fn filter(&mut self, filters: Vec<SecretFilter>)
        requires
            old(self).wf(),
        ensures
            final(self).wf(),
            final(self).filters.as_map() == accumulate(old(self).filters.as_map(), filters@),
            final(self).params.as_map() == old(self).params.as_map().insert(
                "filters"@,
                json_obj_of(final(self).filters.as_map()),
            ) || final(self).params.as_map() == old(self).params.as_map().remove("filters"@),
    {
        apply_filters(&mut self.filters, &mut self.params, &filters);
    }

    /// An immutable snapshot of the parameters accumulated so far: a copy,
    /// not a reference, so later builder calls leave it untouched and
    /// building is idempotent.
    pub fn build(&self) -> (r: SecretListOpts)
        requires
            self.wf(),
        ensures
            r.wf(),
            r.params@ == self.params@,
            r.params.as_map() == self.params.as_map(),
    {
        let params = self.params.duplicate();
        proof {
            assert(params@ =~= self.params@);
            lemma_as_map_congruence(params, self.params);
        }
        SecretListOpts { params }
    }
}

} // verus!
