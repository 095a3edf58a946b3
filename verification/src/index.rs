use vstd::prelude::*;
use crate::country::Country;
use crate::country::CountryRef;
use crate::country::country_matches;
use crate::normalize::normalize_name;
use crate::normalize::normalize_spec;

verus! {

// ---------------------------------------------------------------------------
// The key table and its model
// ---------------------------------------------------------------------------

/// The map a key table denotes: entries are read in order, a later entry with
/// the same key overwrites an earlier one.
pub open spec fn kmap(l: Seq<(String, usize)>) -> Map<Seq<char>, int>
    decreases l.len(),
{
    if l.len() == 0 {
        Map::empty()
    } else {
        kmap(l.drop_last()).insert(l.last().0@, l.last().1 as int)
    }
}

proof fn lemma_kmap_found(l: Seq<(String, usize)>, k: Seq<char>, t: int)
    requires
        0 <= t < l.len(),
        l[t].0@ == k,
        forall|u: int| t < u < l.len() ==> (#[trigger] l[u]).0@ != k,
    ensures
        kmap(l).contains_key(k),
        kmap(l)[k] == l[t].1 as int,
    decreases l.len(),
{
    let bl = l.drop_last();
    if t == l.len() - 1 {
    } else {
        assert(l[l.len() - 1].0@ != k);
        assert forall|u: int| t < u < bl.len() implies (#[trigger] bl[u]).0@ != k by {
            assert(bl[u] == l[u]);
        }
        assert(bl[t] == l[t]);
        lemma_kmap_found(bl, k, t);
    }
}

proof fn lemma_kmap_absent(l: Seq<(String, usize)>, k: Seq<char>)
    requires
        forall|u: int| 0 <= u < l.len() ==> (#[trigger] l[u]).0@ != k,
    ensures
        !kmap(l).contains_key(k),
    decreases l.len(),
{
    if l.len() > 0 {
        let bl = l.drop_last();
        assert forall|u: int| 0 <= u < bl.len() implies (#[trigger] bl[u]).0@ != k by {
            assert(bl[u] == l[u]);
        }
        lemma_kmap_absent(bl, k);
        assert(l[l.len() - 1].0@ != k);
    }
}

proof fn lemma_kmap_in_range(l: Seq<(String, usize)>, bound: int, k: Seq<char>)
    requires
        forall|u: int| 0 <= u < l.len() ==> ((#[trigger] l[u]).1 as int) < bound && l[u].0@.len()
            > 0,
        kmap(l).contains_key(k),
    ensures
        0 <= kmap(l)[k] < bound,
        k.len() > 0,
    decreases l.len(),
{
    if l.len() > 0 {
        let bl = l.drop_last();
        if l.last().0@ == k {
            assert(l[l.len() - 1].0@.len() > 0);
        } else {
            assert forall|u: int| 0 <= u < bl.len() implies ((#[trigger] bl[u]).1 as int) < bound
                && bl[u].0@.len() > 0 by {
                assert(bl[u] == l[u]);
            }
            lemma_kmap_in_range(bl, bound, k);
        }
    }
}

// ---------------------------------------------------------------------------
// The map a record collection builds
// ---------------------------------------------------------------------------

/// The alias list of a record, as character sequences.
pub open spec fn alias_views(a: Option<Vec<String>>) -> Seq<Seq<char>> {
    match a {
        None => Seq::empty(),
        Some(v) => v.deep_view(),
    }
}

/// Every name variant a record is indexed under, in insertion order: the four
/// codes, the ISO, official and short names, then the aliases.  The shortcode
/// is reference data only and is deliberately not indexed.
pub open spec fn record_names(r: CountryRef) -> Seq<Seq<char>> {
    seq![r.alpha2@, r.alpha3@, r.fifa@, r.ioc@, r.iso_name@, r.official@, r.short@]
        + alias_views(r.aliases)
}

/// Insert one normalized key, unless it is empty: empty keys are never
/// indexed.
pub open spec fn insert_one(m: Map<Seq<char>, int>, k: Seq<char>, idx: int) -> Map<Seq<char>, int> {
    if k.len() == 0 {
        m
    } else {
        m.insert(k, idx)
    }
}

/// Insert the normalized form of every name in order, all pointing at `idx`.
pub open spec fn insert_names(m: Map<Seq<char>, int>, names: Seq<Seq<char>>, idx: int) -> Map<
    Seq<char>,
    int,
>
    decreases names.len(),
{
    if names.len() == 0 {
        m
    } else {
        insert_names(insert_one(m, normalize_spec(names[0]), idx), names.drop_first(), idx)
    }
}

/// The key map a record collection builds: records are inserted in order, so
/// on a key collision the later record silently wins.
pub open spec fn build_map(rs: Seq<CountryRef>) -> Map<Seq<char>, int>
    decreases rs.len(),
{
    if rs.len() == 0 {
        Map::empty()
    } else {
        insert_names(build_map(rs.drop_last()), record_names(rs.last()), rs.len() - 1)
    }
}

proof fn lemma_insert_names_push(
    m: Map<Seq<char>, int>,
    names: Seq<Seq<char>>,
    n: Seq<char>,
    idx: int,
)
    ensures
        insert_names(m, names.push(n), idx) == insert_one(
            insert_names(m, names, idx),
            normalize_spec(n),
            idx,
        ),
    decreases names.len(),
{
    if names.len() == 0 {
        assert(names.push(n)[0] == n);
        assert(names.push(n).drop_first() =~= Seq::<Seq<char>>::empty());
        assert(insert_names(m, names.push(n), idx) == insert_names(
            insert_one(m, normalize_spec(n), idx),
            names.push(n).drop_first(),
            idx,
        ));
        assert(insert_names(insert_one(m, normalize_spec(n), idx), Seq::<Seq<char>>::empty(), idx)
            == insert_one(m, normalize_spec(n), idx));
        assert(insert_names(m, names, idx) == m);
    } else {
        assert(names.push(n)[0] == names[0]);
        assert(names.push(n).drop_first() =~= names.drop_first().push(n));
        lemma_insert_names_push(
            insert_one(m, normalize_spec(names[0]), idx),
            names.drop_first(),
            n,
            idx,
        );
    }
}

proof fn lemma_insert_names_take_step(
    m: Map<Seq<char>, int>,
    names: Seq<Seq<char>>,
    c: int,
    idx: int,
)
    requires
        0 <= c < names.len(),
    ensures
        insert_names(m, names.take(c + 1), idx) == insert_one(
            insert_names(m, names.take(c), idx),
            normalize_spec(names[c]),
            idx,
        ),
{
    assert(names.take(c + 1) =~= names.take(c).push(names[c]));
    lemma_insert_names_push(m, names.take(c), names[c], idx);
}

// ---------------------------------------------------------------------------
// Laws of the built map
// ---------------------------------------------------------------------------

/// Whether `k` is the normalized form of one of the record's name variants.
pub open spec fn record_has_key(r: CountryRef, k: Seq<char>) -> bool {
    exists|t: int|
        0 <= t < record_names(r).len() && normalize_spec(#[trigger] record_names(r)[t]) == k
}

proof fn lemma_insert_names_facts(
    m: Map<Seq<char>, int>,
    names: Seq<Seq<char>>,
    idx: int,
    k: Seq<char>,
)
    ensures
        insert_names(m, names, idx).contains_key(k) <==> (m.contains_key(k) || (k.len() > 0
            && exists|t: int| 0 <= t < names.len() && normalize_spec(#[trigger] names[t]) == k)),
        insert_names(m, names, idx).contains_key(k) ==> insert_names(m, names, idx)[k] == (if k.len()
            > 0 && (exists|t: int|
            0 <= t < names.len() && normalize_spec(#[trigger] names[t]) == k) {
            idx
        } else {
            m[k]
        }),
    decreases names.len(),
{
    if names.len() == 0 {
    } else {
        let m1 = insert_one(m, normalize_spec(names[0]), idx);
        let tl = names.drop_first();
        lemma_insert_names_facts(m1, tl, idx, k);
        if exists|t: int| 0 <= t < tl.len() && normalize_spec(#[trigger] tl[t]) == k {
            let t = choose|t: int| 0 <= t < tl.len() && normalize_spec(#[trigger] tl[t]) == k;
            assert(tl[t] == names[t + 1]);
            assert(normalize_spec(names[t + 1]) == k);
        }
        if exists|t: int| 0 <= t < names.len() && normalize_spec(#[trigger] names[t]) == k {
            let t = choose|t: int| 0 <= t < names.len() && normalize_spec(#[trigger] names[t]) == k;
            if t > 0 {
                assert(tl[t - 1] == names[t]);
                assert(normalize_spec(tl[t - 1]) == k);
            }
        }
    }
}

proof fn lemma_build_map_facts(rs: Seq<CountryRef>, k: Seq<char>)
    ensures
        build_map(rs).contains_key(k) <==> (k.len() > 0 && exists|j: int|
            0 <= j < rs.len() && record_has_key(#[trigger] rs[j], k)),
        build_map(rs).contains_key(k) ==> 0 <= build_map(rs)[k] < rs.len() && record_has_key(
            rs[build_map(rs)[k]],
            k,
        ) && (forall|j: int|
            build_map(rs)[k] < j < rs.len() ==> !record_has_key(#[trigger] rs[j], k)),
    decreases rs.len(),
{
    if rs.len() == 0 {
    } else {
        let bl = rs.drop_last();
        let last = rs.last();
        lemma_build_map_facts(bl, k);
        lemma_insert_names_facts(build_map(bl), record_names(last), rs.len() - 1, k);
        assert(rs[rs.len() - 1] == last);
        if k.len() > 0 && record_has_key(last, k) {
            assert(build_map(rs).contains_key(k));
            assert(build_map(rs)[k] == rs.len() - 1);
        } else {
            if build_map(rs).contains_key(k) {
                let idx = build_map(rs)[k];
                assert(build_map(bl).contains_key(k));
                assert(idx == build_map(bl)[k]);
                assert(0 <= idx < bl.len());
                assert(bl[idx] == rs[idx]);
                assert(record_has_key(rs[idx], k));
                assert forall|j: int| idx < j < rs.len() implies !record_has_key(
                    #[trigger] rs[j],
                    k,
                ) by {
                    if j < rs.len() - 1 {
                        assert(rs[j] == bl[j]);
                    } else {
                        assert(rs[j] == last);
                    }
                }
            }
            if k.len() > 0 && (exists|j: int|
                0 <= j < rs.len() && record_has_key(#[trigger] rs[j], k)) {
                let j = choose|j: int| 0 <= j < rs.len() && record_has_key(#[trigger] rs[j], k);
                assert(j < rs.len() - 1);
                assert(bl[j] == rs[j]);
                assert(build_map(bl).contains_key(k));
            }
        }
    }
}

/// Round trip with last-writer-wins: every non-empty normalized name variant
/// of a record in the collection is present in the built map, and the map
/// points at the last record that carries that variant.
pub proof fn lemma_build_round_trip(rs: Seq<CountryRef>, i: int, k: Seq<char>)
    requires
        0 <= i < rs.len(),
        record_has_key(rs[i], k),
        k.len() > 0,
    ensures
        build_map(rs).contains_key(k),
        i <= build_map(rs)[k] < rs.len(),
        record_has_key(rs[build_map(rs)[k]], k),
        forall|j: int| build_map(rs)[k] < j < rs.len() ==> !record_has_key(#[trigger] rs[j], k),
{
    lemma_build_map_facts(rs, k);
}

// ---------------------------------------------------------------------------
// The index
// ---------------------------------------------------------------------------

/// The normalization index: the owned country records, and a table mapping
/// every normalized name variant to the position of the record it belongs to.
/// Built once, then read-only.
pub struct CountryNameNormalizer {
    countries: Vec<Country>,
    keys: Vec<(String, usize)>,
}

/// The value behind an optional reference.
pub open spec fn opt_country(r: Option<&Country>) -> Option<Country> {
    match r {
        Some(c) => Some(*c),
        None => None,
    }
}

impl CountryNameNormalizer {
    /// The owned records, in dataset order.
    pub closed spec fn records(self) -> Seq<Country> {
        self.countries@
    }

    /// The key map: normalized name variant to record position.
    pub closed spec fn key_map(self) -> Map<Seq<char>, int> {
        kmap(self.keys@)
    }

    #[verifier::type_invariant]
    spec fn wf(self) -> bool {
        forall|u: int| #![trigger self.keys@[u]]
            0 <= u < self.keys@.len() ==> ((self.keys@[u].1 as int) < self.countries@.len()
                && self.keys@[u].0@.len() > 0)
    }

    /// What a lookup returns: the record the key map points at, if the
    /// normalized query is a known key.
    pub open spec fn lookup_spec(self, name: Seq<char>) -> Option<Country> {
        let k = normalize_spec(name);
        if self.key_map().contains_key(k) {
            Some(self.records()[self.key_map()[k]])
        } else {
            None
        }
    }

    /// Normalize one name and point the table at `idx`, unless the key is
    /// empty.
    fn add(keys: &mut Vec<(String, usize)>, w: &str, idx: usize)
        ensures
            kmap(final(keys)@) == insert_one(kmap(old(keys)@), normalize_spec(w@), idx as int),
            old(keys)@.len() <= final(keys)@.len(),
            forall|u: int| 0 <= u < old(keys)@.len() ==> final(keys)@[u] == old(keys)@[u],
            forall|u: int|
                old(keys)@.len() <= u < final(keys)@.len() ==> (#[trigger] final(keys)@[u]).1 == idx
                    && final(keys)@[u].0@.len() > 0,
    {
        let s = normalize_name(w);
        if !s.as_str().is_empty() {
            let ghost k0 = keys@;
            keys.push((s, idx));
            proof {
                assert(keys@.drop_last() =~= k0);
                assert(keys@.last().0 == s && keys@.last().1 == idx);
            }
        }
    }

    /// Build the index from a record collection: own every record, and index
    /// every non-empty normalized name variant, later insertions overwriting
    /// earlier ones.
    pub fn new(records: Vec<CountryRef>) -> (r: Self)
        ensures
            r.records().len() == records@.len(),
            forall|t: int|
                0 <= t < records@.len() ==> country_matches(#[trigger] r.records()[t], records@[t]),
            r.key_map() == build_map(records@),
    {
        let mut countries: Vec<Country> = Vec::new();
        let mut keys: Vec<(String, usize)> = Vec::new();
        let mut i: usize = 0;
        proof {
            assert(records@.take(0) =~= Seq::<CountryRef>::empty());
        }
        while i < records.len()
            invariant
                i <= records@.len(),
                countries@.len() == i,
                forall|t: int|
                    0 <= t < i ==> country_matches(#[trigger] countries@[t], records@[t]),
                kmap(keys@) == build_map(records@.take(i as int)),
                forall|u: int| #![trigger keys@[u]]
                    0 <= u < keys@.len() ==> ((keys@[u].1 as int) < i && keys@[u].0@.len() > 0),
            decreases records@.len() - i,
        {
            let idx = countries.len();
            let rec = &records[i];
            countries.push(rec.to_owned());
            let ghost m0 = kmap(keys@);
            let ghost names = record_names(records@[i as int]);
            let ghost mut c: int = 0;
            proof {
                assert(names.take(0) =~= Seq::<Seq<char>>::empty());
                assert(names.len() >= 7);
            }
            Self::add(&mut keys, rec.alpha2.as_str(), idx);
            proof {
                lemma_insert_names_take_step(m0, names, 0, idx as int);
                assert(names[0] == rec.alpha2@);
                c = 1;
            }
            Self::add(&mut keys, rec.alpha3.as_str(), idx);
            proof {
                lemma_insert_names_take_step(m0, names, 1, idx as int);
                assert(names[1] == rec.alpha3@);
                c = 2;
            }
            Self::add(&mut keys, rec.fifa.as_str(), idx);
            proof {
                lemma_insert_names_take_step(m0, names, 2, idx as int);
                assert(names[2] == rec.fifa@);
                c = 3;
            }
            Self::add(&mut keys, rec.ioc.as_str(), idx);
            proof {
                lemma_insert_names_take_step(m0, names, 3, idx as int);
                assert(names[3] == rec.ioc@);
                c = 4;
            }
            Self::add(&mut keys, rec.iso_name.as_str(), idx);
            proof {
                lemma_insert_names_take_step(m0, names, 4, idx as int);
                assert(names[4] == rec.iso_name@);
                c = 5;
            }
            Self::add(&mut keys, rec.official.as_str(), idx);
            proof {
                lemma_insert_names_take_step(m0, names, 5, idx as int);
                assert(names[5] == rec.official@);
                c = 6;
            }
            Self::add(&mut keys, rec.short.as_str(), idx);
            proof {
                lemma_insert_names_take_step(m0, names, 6, idx as int);
                assert(names[6] == rec.short@);
                c = 7;
            }
            match &rec.aliases {
                None => {
                    proof {
                        assert(alias_views(records@[i as int].aliases) =~= Seq::<Seq<char>>::empty());
                        assert(names.take(7) =~= names);
                    }
                },
                Some(v) => {
                    proof {
                        assert(alias_views(records@[i as int].aliases) == v.deep_view());
                        assert(names.len() == 7 + v@.len());
                    }
                    let mut a: usize = 0;
                    while a < v.len()
                        invariant
                            a <= v@.len(),
                            names == record_names(records@[i as int]),
                            names.len() == 7 + v@.len(),
                            forall|t: int|
                                0 <= t < v@.len() ==> names[7 + t] == (#[trigger] v@[t])@,
                            kmap(keys@) == insert_names(m0, names.take(7 + a), idx as int),
                            forall|u: int| #![trigger keys@[u]]
                                0 <= u < keys@.len() ==> ((keys@[u].1 as int) <= i
                                    && keys@[u].0@.len() > 0),
                            i < records@.len(),
                            idx == i,
                        decreases v@.len() - a,
                    {
                        Self::add(&mut keys, v[a].as_str(), idx);
                        proof {
                            lemma_insert_names_take_step(m0, names, 7 + a, idx as int);
                            assert(names[7 + a] == v@[a as int]@);
                        }
                        a = a + 1;
                    }
                    proof {
                        assert(names.take(7 + v@.len() as int) =~= names);
                        c = names.len() as int;
                    }
                },
            }
            proof {
                assert(kmap(keys@) == insert_names(m0, names, idx as int));
                let rs1 = records@.take(i as int + 1);
                assert(rs1.drop_last() =~= records@.take(i as int));
                assert(rs1.last() == records@[i as int]);
                assert(kmap(keys@) == build_map(rs1));
            }
            i = i + 1;
        }
        proof {
            assert(records@.take(i as int) =~= records@);
        }
        Self { countries, keys }
    }

    /// Normalize the query and look its key up: returns a reference to the
    /// matching record, or nothing when the key is empty or unknown.
    pub fn normalize_country<'a>(&'a self, name: &str) -> (r: Option<&'a Country>)
        ensures
            opt_country(r) == self.lookup_spec(name@),
            normalize_spec(name@).len() == 0 ==> r is None,
    {
        let key = normalize_name(name);
        let ghost k = key@;
        let mut t: usize = self.keys.len();
        while t > 0
            invariant
                t <= self.keys@.len(),
                forall|u: int| t <= u < self.keys@.len() ==> (#[trigger] self.keys@[u]).0@ != k,
                key@ == k,
                k == normalize_spec(name@),
            decreases t,
        {
            t = t - 1;
            if self.keys[t].0 == key {
                let idx = self.keys[t].1;
                proof {
                    use_type_invariant(self);
                    lemma_kmap_found(self.keys@, k, t as int);
                    lemma_kmap_in_range(self.keys@, self.countries@.len() as int, k);
                }
                return Some(&self.countries[idx]);
            }
        }
        proof {
            lemma_kmap_absent(self.keys@, k);
        }
        None
    }
}

/// Lookup is idempotent: what a lookup returns is a function of the index and
/// the query text alone, so looking the same text up twice yields equal
/// results.
pub proof fn lemma_lookup_idempotent(n: CountryNameNormalizer, name1: Seq<char>, name2: Seq<char>)
    requires
        name1 == name2,
    ensures
        n.lookup_spec(name1) == n.lookup_spec(name2),
{
}

/// Round trip through a built index: looking up any text whose key is a
/// non-empty name variant of a record returns a record: the one at the
/// winning position, which is the last record carrying that variant.
pub proof fn lemma_index_round_trip(
    n: CountryNameNormalizer,
    rs: Seq<CountryRef>,
    i: int,
    name: Seq<char>,
)
    requires
        n.key_map() == build_map(rs),
        n.records().len() == rs.len(),
        0 <= i < rs.len(),
        record_has_key(rs[i], normalize_spec(name)),
        normalize_spec(name).len() > 0,
    ensures
        ({
            let k = normalize_spec(name);
            let idx = build_map(rs)[k];
            &&& i <= idx < rs.len()
            &&& n.lookup_spec(name) == Some(n.records()[idx])
            &&& record_has_key(rs[idx], k)
            &&& forall|j: int| idx < j < rs.len() ==> !record_has_key(#[trigger] rs[j], k)
        }),
{
    lemma_build_round_trip(rs, i, normalize_spec(name));
}

} // verus!
