//! Conversions between documents and collections of (tool name, versions)
//! pairs: vectors, `HashMap`s and `BTreeMap`s.
//!
//! A document built from pairs sets each pair's versions in turn, so a
//! later pair for a name replaces an earlier one. A map built from a
//! document holds each tool once; the single-version maps hold the version
//! in use and leave out tools without a version.
//!
//! What a map holds is stated, as vstd states its own `HashMap` and
//! `BTreeMap` specifications, under vstd's premises that `String` obeys its
//! key model for hashing (`obeys_key_model`) or its ordering laws
//! (`obeys_cmp`). vstd does not establish these for `String`, so a caller
//! learns what a conversion holds only where it can assume them; the
//! contracts still bind the code, which is verified against them.
use std::collections::{BTreeMap, HashMap};

use vstd::prelude::*;

use crate::model::{entry_pairs, extend_model, pairs_view, primary_pairs, single_pairs_view, ToolVersionsModel};
use crate::tool_versions::ToolVersions;

verus! {

/// The map holds the keys of the pairs and no other, each with the value
/// of one of the pairs for that key.
pub open spec fn holds_pairs<V>(ps: Seq<(String, V)>, m: Map<String, V>) -> bool {
    &&& forall|i: int| 0 <= i < ps.len() ==> #[trigger] m.contains_key(ps[i].0)
    &&& forall|k: String|
        #[trigger] m.contains_key(k) ==> exists|i: int| 0 <= i < ps.len() && ps[i].0 == k && ps[i].1 == m[k]
}

/// The map built by inserting the pairs in order; a later pair replaces an
/// earlier one with the same key.
pub open spec fn map_of_pairs<V>(ps: Seq<(String, V)>) -> Map<String, V>
    decreases ps.len(),
{
    if ps.len() == 0 {
        Map::empty()
    } else {
        map_of_pairs(ps.drop_last()).insert(ps.last().0, ps.last().1)
    }
}

/// The map of the first `n` pairs.
pub open spec fn prefix_map<V>(ps: Seq<(String, V)>, n: int) -> Map<String, V> {
    map_of_pairs(ps.take(n))
}

/// The map of one more pair.
proof fn lemma_prefix_map_step<V>(ps: Seq<(String, V)>, n: int)
    requires
        0 <= n < ps.len(),
    ensures
        prefix_map(ps, n + 1) == prefix_map(ps, n).insert(ps[n].0, ps[n].1),
{
    assert(ps.take(n + 1).drop_last() =~= ps.take(n));
}

/// The map of no pair, and of all of them.
proof fn lemma_prefix_map_ends<V>(ps: Seq<(String, V)>)
    ensures
        prefix_map(ps, 0) == Map::<String, V>::empty(),
        prefix_map(ps, ps.len() as int) == map_of_pairs(ps),
{
    assert(ps.take(0) =~= Seq::<(String, V)>::empty());
    assert(ps.take(ps.len() as int) =~= ps);
}

/// The map of some pairs holds their keys and no other, each with the value
/// of one of its pairs.
pub proof fn lemma_map_of_pairs_holds<V>(ps: Seq<(String, V)>)
    ensures
        holds_pairs(ps, map_of_pairs(ps)),
    decreases ps.len(),
{
    if ps.len() > 0 {
        let p = ps.drop_last();
        lemma_map_of_pairs_holds(p);
        let m = map_of_pairs(ps);
        assert forall|i: int| 0 <= i < ps.len() implies #[trigger] m.contains_key(ps[i].0) by {
            if i < p.len() {
                assert(p[i] == ps[i]);
            }
        }
        assert forall|k: String| #[trigger] m.contains_key(k) implies exists|i: int|
            0 <= i < ps.len() && ps[i].0 == k && ps[i].1 == m[k] by {
            if k == ps.last().0 {
                assert(ps[ps.len() - 1].0 == k);
            } else {
                let i = choose|i: int| 0 <= i < p.len() && p[i].0 == k && p[i].1 == map_of_pairs(p)[k];
                assert(ps[i] == p[i]);
            }
        }
    }
}

/// Each entry of the map once, as a pair.
pub open spec fn lists_map<V>(ps: Seq<(String, V)>, m: Map<String, V>) -> bool {
    &&& ps.len() == m.len()
    &&& forall|i: int| 0 <= i < ps.len() ==> #[trigger] m.contains_key(ps[i].0) && m[ps[i].0] == ps[i].1
    &&& forall|i: int, j: int| 0 <= i < j < ps.len() ==> ps[i].0 != ps[j].0
}

/// The pairs come in ascending order of their keys.
pub open spec fn sorted_by_key<V>(ps: Seq<(String, V)>) -> bool {
    forall|i: int, j: int|
        0 <= i < j < ps.len() ==> #[trigger] vstd::std_specs::cmp::OrdSpec::cmp_spec(&ps[i].0, &ps[j].0)
            == core::cmp::Ordering::Less
}

/// The entries of a `HashMap`, taken by `Vec::from_iter`, in the map's
/// iteration order (which depends on the map's random hasher). Where
/// `String` obeys vstd's key model for hashing, the result holds every
/// entry of the map once; the order is left unsaid.
#[verifier::external_body]
fn hash_map_entries<V>(m: HashMap<String, V>) -> (r: Vec<(String, V)>)
    ensures
        vstd::std_specs::hash::obeys_key_model::<String>() ==> lists_map(r@, m@),
{
    Vec::from_iter(m)
}

/// A `HashMap` of the pairs, inserted in order. Where `String` obeys vstd's
/// key model for hashing, it is `map_of_pairs` of them: a later pair
/// replaces an earlier one with the same key.
fn hash_map_of<V>(ps: Vec<(String, V)>) -> (r: HashMap<String, V>)
    ensures
        vstd::std_specs::hash::obeys_key_model::<String>() ==> r@ == map_of_pairs(ps@),
{
    broadcast use vstd::std_specs::vec::group_vec_axioms;
    broadcast use vstd::std_specs::hash::group_hash_axioms;

    let ghost all = ps@;
    proof {
        lemma_prefix_map_ends(all);
    }
    let mut m: HashMap<String, V> = HashMap::new();
    for p in it: ps.into_iter()
        invariant
            all == it.seq(),
            vstd::std_specs::hash::obeys_key_model::<String>() ==> m@ == prefix_map(all, it.index()),
    {
        proof {
            lemma_prefix_map_step(all, it.index());
        }
        let (k, v) = p;
        m.insert(k, v);
    }
    m
}

/// The entries of a `BTreeMap`, taken by `Vec::from_iter` from the map's
/// owning iterator, which yields them sorted by key. Where `String` obeys
/// vstd's ordering laws, the result holds every entry of the map once, in
/// ascending key order.
#[verifier::external_body]
fn btree_map_entries<V>(m: BTreeMap<String, V>) -> (r: Vec<(String, V)>)
    ensures
        vstd::laws_cmp::obeys_cmp::<String>() ==> lists_map(r@, m@) && sorted_by_key(r@),
{
    Vec::from_iter(m)
}

/// A `BTreeMap` of the pairs, inserted in order. Where `String` obeys
/// vstd's ordering laws, it is `map_of_pairs` of them: a later pair
/// replaces an earlier one with the same key.
fn btree_map_of<V>(ps: Vec<(String, V)>) -> (r: BTreeMap<String, V>)
    ensures
        vstd::laws_cmp::obeys_cmp::<String>() ==> r@ == map_of_pairs(ps@),
{
    broadcast use vstd::std_specs::vec::group_vec_axioms;

    let ghost all = ps@;
    proof {
        lemma_prefix_map_ends(all);
    }
    let mut m: BTreeMap<String, V> = BTreeMap::new();
    for p in it: ps.into_iter()
        invariant
            all == it.seq(),
            vstd::laws_cmp::obeys_cmp::<String>() ==> m@ == prefix_map(all, it.index()),
    {
        proof {
            lemma_prefix_map_step(all, it.index());
        }
        let (k, v) = p;
        m.insert(k, v);
    }
    m
}

/// Each version made the only version of its tool.
fn with_single_versions(ps: Vec<(String, String)>) -> (r: Vec<(String, Vec<String>)>)
    ensures
        pairs_view(r@) == single_pairs_view(ps@),
{
    broadcast use vstd::std_specs::vec::group_vec_axioms;

    let ghost sv = single_pairs_view(ps@);
    let mut r: Vec<(String, Vec<String>)> = Vec::new();
    for p in it: ps.into_iter()
        invariant
            sv == single_pairs_view(it.seq()),
            r@.len() == it.index(),
            forall|k: int| 0 <= k < it.index() ==> #[trigger] pairs_view(r@)[k] == sv[k],
    {
        let ghost i = it.index();
        let ghost before = r@;
        let (name, version) = p;
        let mut versions: Vec<String> = Vec::new();
        versions.push(version);
        let ghost vv = versions@;
        r.push((name, versions));
        assert(crate::model::strings_view(vv) =~= sv[i as int].1);
        assert forall|k: int| 0 <= k < i + 1 implies #[trigger] pairs_view(r@)[k] == sv[k] by {
            if k < i {
                assert(r@[k] == before[k]);
                assert(pairs_view(before)[k] == sv[k]);
            }
        }
    }
    assert(pairs_view(r@) =~= sv);
    r
}

/// Collections that can be read as (tool name, versions) pairs.
pub trait IntoToolPairs: Sized {
    /// Whether `ps` may be the pairs of this collection, as plain sequences.
    spec fn gives_pairs(&self, ps: Seq<(Seq<char>, Seq<Seq<char>>)>) -> bool;

    /// The pairs, in the collection's order.
    fn into_tool_pairs(self) -> (r: Vec<(String, Vec<String>)>)
        ensures
            self.gives_pairs(pairs_view(r@)),
    ;
}

impl IntoToolPairs for Vec<(String, Vec<String>)> {
    open spec fn gives_pairs(&self, ps: Seq<(Seq<char>, Seq<Seq<char>>)>) -> bool {
        ps == pairs_view(self@)
    }

    fn into_tool_pairs(self) -> (r: Vec<(String, Vec<String>)>) {
        self
    }
}

impl IntoToolPairs for Vec<(String, String)> {
    open spec fn gives_pairs(&self, ps: Seq<(Seq<char>, Seq<Seq<char>>)>) -> bool {
        ps == single_pairs_view(self@)
    }

    fn into_tool_pairs(self) -> (r: Vec<(String, Vec<String>)>) {
        with_single_versions(self)
    }
}

impl IntoToolPairs for HashMap<String, Vec<String>> {
    open spec fn gives_pairs(&self, ps: Seq<(Seq<char>, Seq<Seq<char>>)>) -> bool {
        vstd::std_specs::hash::obeys_key_model::<String>() ==> exists|q: Seq<(String, Vec<String>)>| lists_map(q, self@) && ps == pairs_view(q)
    }

    fn into_tool_pairs(self) -> (r: Vec<(String, Vec<String>)>) {
        let r = hash_map_entries(self);
        assert(vstd::std_specs::hash::obeys_key_model::<String>() ==> lists_map(r@, self@));
        r
    }
}

impl IntoToolPairs for HashMap<String, String> {
    open spec fn gives_pairs(&self, ps: Seq<(Seq<char>, Seq<Seq<char>>)>) -> bool {
        vstd::std_specs::hash::obeys_key_model::<String>() ==> exists|q: Seq<(String, String)>| lists_map(q, self@) && ps == single_pairs_view(q)
    }

    fn into_tool_pairs(self) -> (r: Vec<(String, Vec<String>)>) {
        let q = hash_map_entries(self);
        let ghost g = q@;
        let r = with_single_versions(q);
        assert(vstd::std_specs::hash::obeys_key_model::<String>() ==> lists_map(g, self@) && pairs_view(r@) == single_pairs_view(g));
        r
    }
}

impl IntoToolPairs for BTreeMap<String, Vec<String>> {
    open spec fn gives_pairs(&self, ps: Seq<(Seq<char>, Seq<Seq<char>>)>) -> bool {
        vstd::laws_cmp::obeys_cmp::<String>() ==> exists|q: Seq<(String, Vec<String>)>|
            lists_map(q, self@) && sorted_by_key(q) && ps == pairs_view(q)
    }

    fn into_tool_pairs(self) -> (r: Vec<(String, Vec<String>)>) {
        let r = btree_map_entries(self);
        assert(vstd::laws_cmp::obeys_cmp::<String>() ==> lists_map(r@, self@) && sorted_by_key(r@));
        r
    }
}

impl IntoToolPairs for BTreeMap<String, String> {
    open spec fn gives_pairs(&self, ps: Seq<(Seq<char>, Seq<Seq<char>>)>) -> bool {
        vstd::laws_cmp::obeys_cmp::<String>() ==> exists|q: Seq<(String, String)>|
            lists_map(q, self@) && sorted_by_key(q) && ps == single_pairs_view(q)
    }

    fn into_tool_pairs(self) -> (r: Vec<(String, Vec<String>)>) {
        let q = btree_map_entries(self);
        let ghost g = q@;
        let r = with_single_versions(q);
        assert(vstd::laws_cmp::obeys_cmp::<String>() ==> lists_map(g, self@) && sorted_by_key(g) && pairs_view(r@)
            == single_pairs_view(g));
        r
    }
}

impl ToolVersions {
    /// The document that sets each pair's versions in turn; a later pair for
    /// a name replaces an earlier one, in the earlier one's place.
    pub fn from_pairs(pairs: Vec<(String, Vec<String>)>) -> (r: Self)
        ensures
            r@ == extend_model(ToolVersionsModel::empty(), pairs_view(pairs@)),
    {
        let mut r = ToolVersions::new();
        r.extend_pairs(pairs);
        r
    }

    /// Sets the versions of each pair of `pairs` in turn.
    pub fn extend<P: IntoToolPairs>(&mut self, pairs: P)
        ensures
            exists|ps: Seq<(Seq<char>, Seq<Seq<char>>)>|
                pairs.gives_pairs(ps) && final(self)@ == extend_model(old(self)@, ps),
    {
        let ghost src = pairs;
        let ps = pairs.into_tool_pairs();
        let ghost v = pairs_view(ps@);
        self.extend_pairs(ps);
        assert(src.gives_pairs(v) && self@ == extend_model(old(self)@, v));
    }

}

impl IntoIterator for ToolVersions {
    type Item = (String, Vec<String>);
    type IntoIter = std::vec::IntoIter<(String, Vec<String>)>;

    /// The (name, versions) pairs of the entries, in order.
    fn into_iter(self) -> (r: std::vec::IntoIter<(String, Vec<String>)>)
        ensures
            pairs_view(vstd::std_specs::iter::IteratorSpec::remaining(&r)) == crate::model::entry_pairs(
                self@.tools,
            ),
    {
        broadcast use vstd::std_specs::vec::group_vec_axioms;

        self.into_pairs().into_iter()
    }
}

impl From<HashMap<String, Vec<String>>> for ToolVersions {
    fn from(m: HashMap<String, Vec<String>>) -> (r: Self)
        ensures
            vstd::std_specs::hash::obeys_key_model::<String>() ==> exists|ps: Seq<(String, Vec<String>)>|
                lists_map(ps, m@) && r@ == extend_model(ToolVersionsModel::empty(), pairs_view(ps)),
    {
        let ps = hash_map_entries(m);
        let ghost g = ps@;
        let r = ToolVersions::from_pairs(ps);
        assert(vstd::std_specs::hash::obeys_key_model::<String>() ==> lists_map(g, m@) && r@ == extend_model(ToolVersionsModel::empty(), pairs_view(g)));
        r
    }
}

impl vstd::std_specs::convert::FromSpecImpl<HashMap<String, Vec<String>>> for ToolVersions {
    open spec fn obeys_from_spec() -> bool {
        false
    }

    open spec fn from_spec(m: HashMap<String, Vec<String>>) -> Self {
        vstd::pervasive::arbitrary()
    }
}

impl From<HashMap<String, String>> for ToolVersions {
    fn from(m: HashMap<String, String>) -> (r: Self)
        ensures
            vstd::std_specs::hash::obeys_key_model::<String>() ==> exists|ps: Seq<(String, String)>|
                lists_map(ps, m@) && r@ == extend_model(ToolVersionsModel::empty(), single_pairs_view(ps)),
    {
        let ps = hash_map_entries(m);
        let ghost g = ps@;
        let r = ToolVersions::from_pairs(with_single_versions(ps));
        assert(vstd::std_specs::hash::obeys_key_model::<String>() ==> lists_map(g, m@) && r@ == extend_model(ToolVersionsModel::empty(), single_pairs_view(g)));
        r
    }
}

impl vstd::std_specs::convert::FromSpecImpl<HashMap<String, String>> for ToolVersions {
    open spec fn obeys_from_spec() -> bool {
        false
    }

    open spec fn from_spec(m: HashMap<String, String>) -> Self {
        vstd::pervasive::arbitrary()
    }
}

impl From<BTreeMap<String, Vec<String>>> for ToolVersions {
    fn from(m: BTreeMap<String, Vec<String>>) -> (r: Self)
        ensures
            vstd::laws_cmp::obeys_cmp::<String>() ==> exists|ps: Seq<(String, Vec<String>)>|
                lists_map(ps, m@) && sorted_by_key(ps) && r@ == extend_model(ToolVersionsModel::empty(), pairs_view(ps)),
    {
        let ps = btree_map_entries(m);
        let ghost g = ps@;
        let r = ToolVersions::from_pairs(ps);
        assert(vstd::laws_cmp::obeys_cmp::<String>() ==> lists_map(g, m@) && sorted_by_key(g) && r@ == extend_model(ToolVersionsModel::empty(), pairs_view(g)));
        r
    }
}

impl vstd::std_specs::convert::FromSpecImpl<BTreeMap<String, Vec<String>>> for ToolVersions {
    open spec fn obeys_from_spec() -> bool {
        false
    }

    open spec fn from_spec(m: BTreeMap<String, Vec<String>>) -> Self {
        vstd::pervasive::arbitrary()
    }
}

impl From<BTreeMap<String, String>> for ToolVersions {
    fn from(m: BTreeMap<String, String>) -> (r: Self)
        ensures
            vstd::laws_cmp::obeys_cmp::<String>() ==> exists|ps: Seq<(String, String)>|
                lists_map(ps, m@) && sorted_by_key(ps) && r@ == extend_model(ToolVersionsModel::empty(), single_pairs_view(ps)),
    {
        let ps = btree_map_entries(m);
        let ghost g = ps@;
        let r = ToolVersions::from_pairs(with_single_versions(ps));
        assert(vstd::laws_cmp::obeys_cmp::<String>() ==> lists_map(g, m@) && sorted_by_key(g) && r@ == extend_model(ToolVersionsModel::empty(), single_pairs_view(g)));
        r
    }
}

impl vstd::std_specs::convert::FromSpecImpl<BTreeMap<String, String>> for ToolVersions {
    open spec fn obeys_from_spec() -> bool {
        false
    }

    open spec fn from_spec(m: BTreeMap<String, String>) -> Self {
        vstd::pervasive::arbitrary()
    }
}

impl From<ToolVersions> for HashMap<String, Vec<String>> {
    fn from(tv: ToolVersions) -> (r: Self)
        ensures
            vstd::std_specs::hash::obeys_key_model::<String>() ==> exists|ps: Seq<(String, Vec<String>)>|
                pairs_view(ps) == entry_pairs(tv@.tools) && r@ == map_of_pairs(ps),
    {
        let ps = tv.into_pairs();
        let ghost g = ps@;
        let r = hash_map_of(ps);
        assert(vstd::std_specs::hash::obeys_key_model::<String>() ==> pairs_view(g) == entry_pairs(tv@.tools) && r@ == map_of_pairs(g));
        r
    }
}

impl vstd::std_specs::convert::FromSpecImpl<ToolVersions> for HashMap<String, Vec<String>> {
    open spec fn obeys_from_spec() -> bool {
        false
    }

    open spec fn from_spec(tv: ToolVersions) -> Self {
        vstd::pervasive::arbitrary()
    }
}

impl<'a> From<&'a ToolVersions> for HashMap<String, Vec<String>> {
    fn from(tv: &'a ToolVersions) -> (r: Self)
        ensures
            vstd::std_specs::hash::obeys_key_model::<String>() ==> exists|ps: Seq<(String, Vec<String>)>|
                pairs_view(ps) == entry_pairs(tv@.tools) && r@ == map_of_pairs(ps),
    {
        let ps = tv.to_pairs();
        let ghost g = ps@;
        let r = hash_map_of(ps);
        assert(vstd::std_specs::hash::obeys_key_model::<String>() ==> pairs_view(g) == entry_pairs(tv@.tools) && r@ == map_of_pairs(g));
        r
    }
}

impl<'a> vstd::std_specs::convert::FromSpecImpl<&'a ToolVersions> for HashMap<String, Vec<String>> {
    open spec fn obeys_from_spec() -> bool {
        false
    }

    open spec fn from_spec(tv: &'a ToolVersions) -> Self {
        vstd::pervasive::arbitrary()
    }
}

impl From<ToolVersions> for HashMap<String, String> {
    fn from(tv: ToolVersions) -> (r: Self)
        ensures
            vstd::std_specs::hash::obeys_key_model::<String>() ==> exists|ps: Seq<(String, String)>|
                ps.map_values(|p: (String, String)| (p.0@, p.1@)) == primary_pairs(tv@.tools) && r@ == map_of_pairs(ps),
    {
        let ps = tv.to_primary_pairs();
        let ghost g = ps@;
        let r = hash_map_of(ps);
        assert(vstd::std_specs::hash::obeys_key_model::<String>() ==> g.map_values(|p: (String, String)| (p.0@, p.1@)) == primary_pairs(tv@.tools) && r@ == map_of_pairs(g));
        r
    }
}

impl vstd::std_specs::convert::FromSpecImpl<ToolVersions> for HashMap<String, String> {
    open spec fn obeys_from_spec() -> bool {
        false
    }

    open spec fn from_spec(tv: ToolVersions) -> Self {
        vstd::pervasive::arbitrary()
    }
}

impl<'a> From<&'a ToolVersions> for HashMap<String, String> {
    fn from(tv: &'a ToolVersions) -> (r: Self)
        ensures
            vstd::std_specs::hash::obeys_key_model::<String>() ==> exists|ps: Seq<(String, String)>|
                ps.map_values(|p: (String, String)| (p.0@, p.1@)) == primary_pairs(tv@.tools) && r@ == map_of_pairs(ps),
    {
        let ps = tv.to_primary_pairs();
        let ghost g = ps@;
        let r = hash_map_of(ps);
        assert(vstd::std_specs::hash::obeys_key_model::<String>() ==> g.map_values(|p: (String, String)| (p.0@, p.1@)) == primary_pairs(tv@.tools) && r@ == map_of_pairs(g));
        r
    }
}

impl<'a> vstd::std_specs::convert::FromSpecImpl<&'a ToolVersions> for HashMap<String, String> {
    open spec fn obeys_from_spec() -> bool {
        false
    }

    open spec fn from_spec(tv: &'a ToolVersions) -> Self {
        vstd::pervasive::arbitrary()
    }
}

impl From<ToolVersions> for BTreeMap<String, Vec<String>> {
    fn from(tv: ToolVersions) -> (r: Self)
        ensures
            vstd::laws_cmp::obeys_cmp::<String>() ==> exists|ps: Seq<(String, Vec<String>)>|
                pairs_view(ps) == entry_pairs(tv@.tools) && r@ == map_of_pairs(ps),
    {
        let ps = tv.into_pairs();
        let ghost g = ps@;
        let r = btree_map_of(ps);
        assert(vstd::laws_cmp::obeys_cmp::<String>() ==> pairs_view(g) == entry_pairs(tv@.tools) && r@ == map_of_pairs(g));
        r
    }
}

impl vstd::std_specs::convert::FromSpecImpl<ToolVersions> for BTreeMap<String, Vec<String>> {
    open spec fn obeys_from_spec() -> bool {
        false
    }

    open spec fn from_spec(tv: ToolVersions) -> Self {
        vstd::pervasive::arbitrary()
    }
}

impl<'a> From<&'a ToolVersions> for BTreeMap<String, Vec<String>> {
    fn from(tv: &'a ToolVersions) -> (r: Self)
        ensures
            vstd::laws_cmp::obeys_cmp::<String>() ==> exists|ps: Seq<(String, Vec<String>)>|
                pairs_view(ps) == entry_pairs(tv@.tools) && r@ == map_of_pairs(ps),
    {
        let ps = tv.to_pairs();
        let ghost g = ps@;
        let r = btree_map_of(ps);
        assert(vstd::laws_cmp::obeys_cmp::<String>() ==> pairs_view(g) == entry_pairs(tv@.tools) && r@ == map_of_pairs(g));
        r
    }
}

impl<'a> vstd::std_specs::convert::FromSpecImpl<&'a ToolVersions> for BTreeMap<String, Vec<String>> {
    open spec fn obeys_from_spec() -> bool {
        false
    }

    open spec fn from_spec(tv: &'a ToolVersions) -> Self {
        vstd::pervasive::arbitrary()
    }
}

impl From<ToolVersions> for BTreeMap<String, String> {
    fn from(tv: ToolVersions) -> (r: Self)
        ensures
            vstd::laws_cmp::obeys_cmp::<String>() ==> exists|ps: Seq<(String, String)>|
                ps.map_values(|p: (String, String)| (p.0@, p.1@)) == primary_pairs(tv@.tools) && r@ == map_of_pairs(ps),
    {
        let ps = tv.to_primary_pairs();
        let ghost g = ps@;
        let r = btree_map_of(ps);
        assert(vstd::laws_cmp::obeys_cmp::<String>() ==> g.map_values(|p: (String, String)| (p.0@, p.1@)) == primary_pairs(tv@.tools) && r@ == map_of_pairs(g));
        r
    }
}

impl vstd::std_specs::convert::FromSpecImpl<ToolVersions> for BTreeMap<String, String> {
    open spec fn obeys_from_spec() -> bool {
        false
    }

    open spec fn from_spec(tv: ToolVersions) -> Self {
        vstd::pervasive::arbitrary()
    }
}

impl<'a> From<&'a ToolVersions> for BTreeMap<String, String> {
    fn from(tv: &'a ToolVersions) -> (r: Self)
        ensures
            vstd::laws_cmp::obeys_cmp::<String>() ==> exists|ps: Seq<(String, String)>|
                ps.map_values(|p: (String, String)| (p.0@, p.1@)) == primary_pairs(tv@.tools) && r@ == map_of_pairs(ps),
    {
        let ps = tv.to_primary_pairs();
        let ghost g = ps@;
        let r = btree_map_of(ps);
        assert(vstd::laws_cmp::obeys_cmp::<String>() ==> g.map_values(|p: (String, String)| (p.0@, p.1@)) == primary_pairs(tv@.tools) && r@ == map_of_pairs(g));
        r
    }
}

impl<'a> vstd::std_specs::convert::FromSpecImpl<&'a ToolVersions> for BTreeMap<String, String> {
    open spec fn obeys_from_spec() -> bool {
        false
    }

    open spec fn from_spec(tv: &'a ToolVersions) -> Self {
        vstd::pervasive::arbitrary()
    }
}

} // verus!
