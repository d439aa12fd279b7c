//! Cross-domain merge: one galaxy per domain, one planet per distinct tag
//! name, and a deduplicated set of undirected connections between planets.

use vstd::prelude::*;

use crate::data::{
    distinct_keys, rel_contains_key, str_equal, tag_models, EntryModel, MetaRelation, TagModel,
};

verus! {

/// A domain in the merged model: just its name.
pub struct Galaxy {
    pub name: String,
}

impl View for Galaxy {
    type V = Seq<char>;

    open spec fn view(&self) -> Seq<char> {
        self.name@
    }
}

/// One undirected edge of the merged model, carrying the co-occurrence count
/// it was discovered with. The unordered pair of planet names is stored as
/// (source key, neighbour name) in discovery direction.
pub struct Connection {
    pub source: String,
    pub target: String,
    pub count: i32,
}

/// Mathematical model of a [`Connection`].
pub ghost struct ConnModel {
    pub source: Seq<char>,
    pub target: Seq<char>,
    pub count: int,
}

impl View for Connection {
    type V = ConnModel;

    open spec fn view(&self) -> ConnModel {
        ConnModel { source: self.source@, target: self.target@, count: self.count as int }
    }
}

/// A tag in the merged model: its name, its connections, and every domain it
/// appears in (a planet can belong to several galaxies).
pub struct Planet {
    pub name: String,
    pub conns: Vec<Connection>,
    pub belong_galaxy: Vec<String>,
}

/// Mathematical model of a [`Planet`].
pub ghost struct PlanetModel {
    pub name: Seq<char>,
    pub conns: Seq<ConnModel>,
    pub galaxies: Seq<Seq<char>>,
}

impl View for Planet {
    type V = PlanetModel;

    open spec fn view(&self) -> PlanetModel {
        PlanetModel {
            name: self.name@,
            conns: self.conns@.map_values(|c: Connection| c@),
            galaxies: self.belong_galaxy@.map_values(|s: String| s@),
        }
    }
}

/// The views of a sequence of strings.
pub open spec fn string_views(s: Seq<String>) -> Seq<Seq<char>> {
    s.map_values(|x: String| x@)
}

/// The models of a sequence of connections.
pub open spec fn conn_models(s: Seq<Connection>) -> Seq<ConnModel> {
    s.map_values(|c: Connection| c@)
}

/// The domain names of the input graphs, in order.
pub open spec fn domain_names(metas: Seq<MetaRelation>) -> Seq<Seq<char>> {
    metas.map_values(|m: MetaRelation| m.domain@)
}

/// The keys of a relation map, in order.
pub open spec fn entry_keys(es: Seq<EntryModel>) -> Seq<Seq<char>> {
    es.map_values(|e: EntryModel| e.key)
}

/// Every relation-map key of every input graph, domains in order.
pub open spec fn all_keys(metas: Seq<MetaRelation>) -> Seq<Seq<char>>
    decreases metas.len(),
{
    if metas.len() == 0 {
        Seq::empty()
    } else {
        all_keys(metas.drop_last()) + entry_keys(metas.last().entries())
    }
}

/// Keeps the first occurrence of each name and drops the rest.
pub open spec fn dedup_firsts(s: Seq<Seq<char>>) -> Seq<Seq<char>>
    decreases s.len(),
{
    if s.len() == 0 {
        Seq::empty()
    } else {
        let pre = dedup_firsts(s.drop_last());
        if pre.contains(s.last()) {
            pre
        } else {
            pre.push(s.last())
        }
    }
}

/// The domains a planet belongs to: every domain whose relation map has the
/// planet's name as a key, in input order, each domain name once.
pub open spec fn planet_galaxies(metas: Seq<MetaRelation>, name: Seq<char>) -> Seq<Seq<char>>
    decreases metas.len(),
{
    if metas.len() == 0 {
        Seq::empty()
    } else {
        let pre = planet_galaxies(metas.drop_last(), name);
        if rel_contains_key(metas.last().entries(), name) && !pre.contains(
            metas.last().domain@,
        ) {
            pre.push(metas.last().domain@)
        } else {
            pre
        }
    }
}

/// The running state of the connection merge: the connections discovered so
/// far and the set of already explored planet names.
pub ghost struct MergeState {
    pub conns: Seq<ConnModel>,
    pub explored: Set<Seq<char>>,
}

/// Merges one neighbour list: each neighbour whose name is not yet explored
/// contributes one connection from `source`; explored targets are skipped,
/// so an undirected edge is not created a second time in the other
/// direction.
pub open spec fn merge_tags(
    explored: Set<Seq<char>>,
    source: Seq<char>,
    tags: Seq<TagModel>,
) -> Seq<ConnModel>
    decreases tags.len(),
{
    if tags.len() == 0 {
        Seq::empty()
    } else {
        let pre = merge_tags(explored, source, tags.drop_last());
        if explored.contains(tags.last().name) {
            pre
        } else {
            pre.push(
                ConnModel {
                    source: source,
                    target: tags.last().name,
                    count: tags.last().count,
                },
            )
        }
    }
}

/// Merges one domain's entries in order; each source key is marked explored
/// right after its neighbour list has been processed.
pub open spec fn merge_entries(st: MergeState, es: Seq<EntryModel>) -> MergeState
    decreases es.len(),
{
    if es.len() == 0 {
        st
    } else {
        let pre = merge_entries(st, es.drop_last());
        MergeState {
            conns: pre.conns + merge_tags(pre.explored, es.last().key, es.last().tags),
            explored: pre.explored.insert(es.last().key),
        }
    }
}

/// Merges every domain in order, with one explored set shared across all
/// domains (the dedup scope is deliberately global, so the same unordered
/// pair seen again in a later domain does not produce a second edge).
pub open spec fn merge_metas(st: MergeState, metas: Seq<MetaRelation>) -> MergeState
    decreases metas.len(),
{
    if metas.len() == 0 {
        st
    } else {
        merge_entries(merge_metas(st, metas.drop_last()), metas.last().entries())
    }
}

/// Every connection of the merged model, in discovery order.
pub open spec fn merged_connections(metas: Seq<MetaRelation>) -> Seq<ConnModel> {
    merge_metas(MergeState { conns: Seq::empty(), explored: Set::empty() }, metas).conns
}

/// The connections attached to the planet named `name`: those discovered
/// from its own relation-map entries.
pub open spec fn conns_for(name: Seq<char>, flat: Seq<ConnModel>) -> Seq<ConnModel> {
    flat.filter(|c: ConnModel| c.source == name)
}

/// The views of a sequence of galaxies.
pub open spec fn galaxy_views(s: Seq<Galaxy>) -> Seq<Seq<char>> {
    s.map_values(|g: Galaxy| g@)
}

/// Whether `name` occurs among the views of the given strings.
fn string_list_contains(names: &Vec<String>, name: &str) -> (r: bool)
    ensures
        r == string_views(names@).contains(name@),
{
    let n: usize = names.len();
    let mut i: usize = 0;
    while i < n
        invariant
            i <= n,
            n == names@.len(),
            forall|j: int| 0 <= j < i ==> string_views(names@)[j] != name@,
        decreases n - i,
    {
        if str_equal(names[i].as_str(), name) {
            proof {
                assert(string_views(names@)[i as int] == name@);
            }
            return true;
        }
        i += 1;
    }
    false
}

/// Whether `name` occurs among the galaxy names.
fn galaxy_list_contains(galaxies: &Vec<Galaxy>, name: &str) -> (r: bool)
    ensures
        r == galaxy_views(galaxies@).contains(name@),
{
    let n: usize = galaxies.len();
    let mut i: usize = 0;
    while i < n
        invariant
            i <= n,
            n == galaxies@.len(),
            forall|j: int| 0 <= j < i ==> galaxy_views(galaxies@)[j] != name@,
        decreases n - i,
    {
        if str_equal(galaxies[i].name.as_str(), name) {
            proof {
                assert(galaxy_views(galaxies@)[i as int] == name@);
            }
            return true;
        }
        i += 1;
    }
    false
}

/// One galaxy per distinct domain, in input order.
fn collect_galaxies(meta_relations: &Vec<MetaRelation>) -> (r: Vec<Galaxy>)
    ensures
        galaxy_views(r@) == dedup_firsts(domain_names(meta_relations@)),
{
    let n: usize = meta_relations.len();
    let mut out: Vec<Galaxy> = Vec::new();
    let mut i: usize = 0;
    while i < n
        invariant
            i <= n,
            n == meta_relations@.len(),
            galaxy_views(out@) == dedup_firsts(domain_names(meta_relations@.take(i as int))),
        decreases n - i,
    {
        proof {
            let d1 = domain_names(meta_relations@.take(i + 1));
            assert(d1.drop_last() =~= domain_names(meta_relations@.take(i as int)));
            assert(d1.last() == meta_relations@[i as int].domain@);
        }
        let ghost before = out@;
        if !galaxy_list_contains(&out, meta_relations[i].domain.as_str()) {
            out.push(Galaxy { name: meta_relations[i].domain.clone() });
            proof {
                assert(galaxy_views(out@) =~= galaxy_views(before).push(
                    meta_relations@[i as int].domain@,
                ));
            }
        }
        i += 1;
    }
    proof {
        assert(meta_relations@.take(n as int) =~= meta_relations@);
    }
    out
}

/// One planet name per distinct relation-map key, across every domain, in
/// discovery order.
fn collect_planet_names(meta_relations: &Vec<MetaRelation>) -> (r: Vec<String>)
    ensures
        string_views(r@) == dedup_firsts(all_keys(meta_relations@)),
{
    let n: usize = meta_relations.len();
    let mut names: Vec<String> = Vec::new();
    let mut i: usize = 0;
    while i < n
        invariant
            i <= n,
            n == meta_relations@.len(),
            string_views(names@) == dedup_firsts(all_keys(meta_relations@.take(i as int))),
        decreases n - i,
    {
        let meta = &meta_relations[i];
        let ghost base = all_keys(meta_relations@.take(i as int));
        let m: usize = meta.relation_map.len();
        let mut j: usize = 0;
        while j < m
            invariant
                j <= m,
                m == meta.relation_map@.len(),
                meta == &meta_relations@[i as int],
                string_views(names@) == dedup_firsts(
                    base + entry_keys(meta.entries()).take(j as int),
                ),
            decreases m - j,
        {
            proof {
                let k1 = base + entry_keys(meta.entries()).take(j + 1);
                assert(k1.drop_last() =~= base + entry_keys(meta.entries()).take(j as int));
                assert(k1.last() == meta.entries()[j as int].key);
            }
            let key = &meta.relation_map[j].0;
            let ghost before = names@;
            if !string_list_contains(&names, key.as_str()) {
                names.push(key.clone());
                proof {
                    assert(string_views(names@) =~= string_views(before).push(
                        meta.entries()[j as int].key,
                    ));
                }
            }
            j += 1;
        }
        proof {
            assert(entry_keys(meta.entries()).take(m as int) =~= entry_keys(meta.entries()));
            assert(meta_relations@.take(i + 1).drop_last() =~= meta_relations@.take(i as int));
            assert(meta_relations@.take(i + 1).last() == meta_relations@[i as int]);
            assert(all_keys(meta_relations@.take(i + 1)) == base + entry_keys(meta.entries()));
        }
        i += 1;
    }
    proof {
        assert(meta_relations@.take(n as int) =~= meta_relations@);
    }
    names
}

/// The explored set that a list of explored planet names stands for.
pub open spec fn explored_model(s: Seq<String>) -> Set<Seq<char>> {
    string_views(s).to_set()
}

/// Every connection of the merged model, in discovery order, with one
/// explored set shared across all domains.
fn collect_connections(meta_relations: &Vec<MetaRelation>) -> (r: Vec<Connection>)
    ensures
        conn_models(r@) == merged_connections(meta_relations@),
{
    let ghost st0 = MergeState { conns: Seq::empty(), explored: Set::empty() };
    let n: usize = meta_relations.len();
    let mut flat: Vec<Connection> = Vec::new();
    let mut explored: Vec<String> = Vec::new();
    proof {
        assert(conn_models(flat@) =~= st0.conns);
        assert(explored_model(explored@) =~= st0.explored);
    }
    let mut i: usize = 0;
    while i < n
        invariant
            i <= n,
            n == meta_relations@.len(),
            conn_models(flat@) == merge_metas(st0, meta_relations@.take(i as int)).conns,
            explored_model(explored@) == merge_metas(st0, meta_relations@.take(i as int)).explored,
        decreases n - i,
    {
        let meta = &meta_relations[i];
        let ghost stm = merge_metas(st0, meta_relations@.take(i as int));
        let m: usize = meta.relation_map.len();
        let mut j: usize = 0;
        while j < m
            invariant
                j <= m,
                m == meta.relation_map@.len(),
                meta == &meta_relations@[i as int],
                stm == merge_metas(st0, meta_relations@.take(i as int)),
                conn_models(flat@) == merge_entries(stm, meta.entries().take(j as int)).conns,
                explored_model(explored@) == merge_entries(
                    stm,
                    meta.entries().take(j as int),
                ).explored,
            decreases m - j,
        {
            let ghost ste = merge_entries(stm, meta.entries().take(j as int));
            let entry = &meta.relation_map[j];
            let key = &entry.0;
            let t_len: usize = entry.1.len();
            let mut k: usize = 0;
            while k < t_len
                invariant
                    k <= t_len,
                    t_len == entry.1@.len(),
                    entry == &meta.relation_map@[j as int],
                    j < meta.relation_map@.len(),
                    explored_model(explored@) == ste.explored,
                    conn_models(flat@) == ste.conns + merge_tags(
                        ste.explored,
                        key@,
                        tag_models(entry.1@).take(k as int),
                    ),
                decreases t_len - k,
            {
                proof {
                    let tg1 = tag_models(entry.1@).take(k + 1);
                    assert(tg1.drop_last() =~= tag_models(entry.1@).take(k as int));
                    assert(tg1.last() == entry.1@[k as int]@);
                }
                let t = &entry.1[k];
                let ghost before = flat@;
                if !string_list_contains(&explored, t.name.as_str()) {
                    flat.push(
                        Connection {
                            source: key.clone(),
                            target: t.name.clone(),
                            count: t.count,
                        },
                    );
                    proof {
                        assert(conn_models(flat@) =~= conn_models(before).push(
                            ConnModel { source: key@, target: t.name@, count: t.count as int },
                        ));
                    }
                }
                k += 1;
            }
            proof {
                assert(tag_models(entry.1@).take(t_len as int) =~= tag_models(entry.1@));
            }
            let ghost explored_before = explored@;
            explored.push(key.clone());
            proof {
                broadcast use vstd::seq_lib::group_seq_properties;

                assert(string_views(explored@) =~= string_views(explored_before).push(key@));
                assert(explored_model(explored@) =~= ste.explored.insert(key@));
                assert(meta.entries().take(j + 1).drop_last() =~= meta.entries().take(j as int));
                assert(meta.entries().take(j + 1).last() == meta.entries()[j as int]);
                assert(meta.entries()[j as int].key == key@);
                assert(meta.entries()[j as int].tags == tag_models(entry.1@));
            }
            j += 1;
        }
        proof {
            assert(meta.entries().take(m as int) =~= meta.entries());
            assert(meta_relations@.take(i + 1).drop_last() =~= meta_relations@.take(i as int));
            assert(meta_relations@.take(i + 1).last() == meta_relations@[i as int]);
        }
        i += 1;
    }
    proof {
        assert(meta_relations@.take(n as int) =~= meta_relations@);
    }
    flat
}

/// The domains whose relation map contains `name` as a key, in input order,
/// each once.
fn galaxies_of_planet(meta_relations: &Vec<MetaRelation>, name: &str) -> (r: Vec<String>)
    ensures
        string_views(r@) == planet_galaxies(meta_relations@, name@),
{
    let n: usize = meta_relations.len();
    let mut belong: Vec<String> = Vec::new();
    let mut i: usize = 0;
    while i < n
        invariant
            i <= n,
            n == meta_relations@.len(),
            string_views(belong@) == planet_galaxies(meta_relations@.take(i as int), name@),
        decreases n - i,
    {
        proof {
            assert(meta_relations@.take(i + 1).drop_last() =~= meta_relations@.take(i as int));
            assert(meta_relations@.take(i + 1).last() == meta_relations@[i as int]);
        }
        let meta = &meta_relations[i];
        let ghost before = belong@;
        let in_domain = meta.key_index_of(name).is_some();
        if in_domain && !string_list_contains(&belong, meta.domain.as_str()) {
            belong.push(meta.domain.clone());
            proof {
                assert(string_views(belong@) =~= string_views(before).push(
                    meta_relations@[i as int].domain@,
                ));
            }
        }
        i += 1;
    }
    proof {
        assert(meta_relations@.take(n as int) =~= meta_relations@);
    }
    belong
}

/// The connections whose source is `name`, in discovery order, as fresh
/// copies.
fn connections_of_planet(flat: &Vec<Connection>, name: &str) -> (r: Vec<Connection>)
    ensures
        conn_models(r@) == conns_for(name@, conn_models(flat@)),
{
    let n: usize = flat.len();
    let mut out: Vec<Connection> = Vec::new();
    let mut i: usize = 0;
    while i < n
        invariant
            i <= n,
            n == flat@.len(),
            conn_models(out@) == conns_for(name@, conn_models(flat@.take(i as int))),
        decreases n - i,
    {
        proof {
            reveal(Seq::filter);
            let m1 = conn_models(flat@.take(i + 1));
            assert(m1.drop_last() =~= conn_models(flat@.take(i as int)));
            assert(m1.last() == flat@[i as int]@);
        }
        let c = &flat[i];
        let ghost before = out@;
        if str_equal(c.source.as_str(), name) {
            out.push(
                Connection {
                    source: c.source.clone(),
                    target: c.target.clone(),
                    count: c.count,
                },
            );
            proof {
                assert(conn_models(out@) =~= conn_models(before).push(flat@[i as int]@));
            }
        }
        i += 1;
    }
    proof {
        assert(flat@.take(n as int) =~= flat@);
    }
    out
}

/// The names of a sequence of planets.
pub open spec fn planet_names(s: Seq<Planet>) -> Seq<Seq<char>> {
    s.map_values(|p: Planet| p@.name)
}

/// Merges all loaded relation graphs into the cross-domain model: one galaxy
/// per distinct domain; one planet per distinct relation-map key, belonging
/// to every domain that has it as a key; and the deduplicated connections,
/// each attached to the planet it was discovered from.
pub fn generate_universe_cartography(meta_relations: &Vec<MetaRelation>) -> (r: (
    Vec<Galaxy>,
    Vec<Planet>,
))
    ensures
        galaxy_views(r.0@) == dedup_firsts(domain_names(meta_relations@)),
        planet_names(r.1@) == dedup_firsts(all_keys(meta_relations@)),
        forall|a: int, b: int|
            0 <= a < b < r.1@.len() ==> planet_names(r.1@)[a] != planet_names(r.1@)[b],
        forall|p: int|
            0 <= p < r.1@.len() ==> {
                &&& (#[trigger] r.1@[p])@.galaxies == planet_galaxies(
                    meta_relations@,
                    r.1@[p]@.name,
                )
                &&& r.1@[p]@.conns == conns_for(
                    r.1@[p]@.name,
                    merged_connections(meta_relations@),
                )
            },
{
    let galaxies = collect_galaxies(meta_relations);
    let names = collect_planet_names(meta_relations);
    let flat = collect_connections(meta_relations);
    let pn: usize = names.len();
    let mut planets: Vec<Planet> = Vec::new();
    let mut i: usize = 0;
    while i < pn
        invariant
            i <= pn,
            pn == names@.len(),
            conn_models(flat@) == merged_connections(meta_relations@),
            planets@.len() == i,
            forall|p: int|
                0 <= p < i ==> {
                    &&& (#[trigger] planets@[p])@.name == names@[p]@
                    &&& planets@[p]@.galaxies == planet_galaxies(
                        meta_relations@,
                        planets@[p]@.name,
                    )
                    &&& planets@[p]@.conns == conns_for(
                        planets@[p]@.name,
                        merged_connections(meta_relations@),
                    )
                },
        decreases pn - i,
    {
        let name = names[i].clone();
        let belong = galaxies_of_planet(meta_relations, name.as_str());
        let conns = connections_of_planet(&flat, name.as_str());
        let ghost gbelong = string_views(belong@);
        let ghost gconns = conn_models(conns@);
        planets.push(Planet { name, conns, belong_galaxy: belong });
        proof {
            assert(planets@[i as int]@.galaxies =~= gbelong);
            assert(planets@[i as int]@.conns =~= gconns);
        }
        i += 1;
    }
    proof {
        assert(planet_names(planets@) =~= string_views(names@));
        lemma_dedup_firsts_distinct(all_keys(meta_relations@));
    }
    (galaxies, planets)
}

/// Deduplication keeps each name at most once.
pub proof fn lemma_dedup_firsts_distinct(s: Seq<Seq<char>>)
    ensures
        forall|a: int, b: int|
            0 <= a < b < dedup_firsts(s).len() ==> dedup_firsts(s)[a] != dedup_firsts(s)[b],
    decreases s.len(),
{
    if s.len() > 0 {
        lemma_dedup_firsts_distinct(s.drop_last());
        let pre = dedup_firsts(s.drop_last());
        let out = dedup_firsts(s);
        assert forall|a: int, b: int| 0 <= a < b < out.len() implies out[a] != out[b] by {
            if !pre.contains(s.last()) && b == out.len() - 1 {
                if out[a] == s.last() {
                    assert(pre[a] == s.last());
                    assert(pre.contains(s.last()));
                }
            }
        }
    }
}

/// Deduplication keeps every name that occurs.
pub proof fn lemma_dedup_firsts_contains(s: Seq<Seq<char>>, name: Seq<char>)
    requires
        s.contains(name),
    ensures
        dedup_firsts(s).contains(name),
    decreases s.len(),
{
    let pre = dedup_firsts(s.drop_last());
    if s.last() == name {
        if pre.contains(name) {
        } else {
            assert(dedup_firsts(s)[dedup_firsts(s).len() - 1] == name);
        }
    } else {
        let w = choose|w: int| 0 <= w < s.len() && s[w] == name;
        assert(s.drop_last()[w] == name);
        lemma_dedup_firsts_contains(s.drop_last(), name);
        let v = choose|v: int| 0 <= v < pre.len() && pre[v] == name;
        assert(dedup_firsts(s)[v] == name);
    }
}

/// A key of any input graph occurs among the merged keys.
pub proof fn lemma_all_keys_contains(metas: Seq<MetaRelation>, i: int, name: Seq<char>)
    requires
        0 <= i < metas.len(),
        rel_contains_key(metas[i].entries(), name),
    ensures
        all_keys(metas).contains(name),
    decreases metas.len(),
{
    if i == metas.len() - 1 {
        let e = choose|e: int|
            0 <= e < metas[i].entries().len() && metas[i].entries()[e].key == name;
        assert(entry_keys(metas[i].entries())[e] == name);
        assert(entry_keys(metas[i].entries()).contains(name));
        let w = choose|w: int|
            0 <= w < entry_keys(metas[i].entries()).len() && entry_keys(metas[i].entries())[w]
                == name;
        assert(all_keys(metas)[all_keys(metas.drop_last()).len() + w] == name);
    } else {
        assert(metas.drop_last()[i] == metas[i]);
        lemma_all_keys_contains(metas.drop_last(), i, name);
        let w = choose|w: int|
            0 <= w < all_keys(metas.drop_last()).len() && all_keys(metas.drop_last())[w] == name;
        assert(all_keys(metas)[w] == name);
    }
}

/// A planet's galaxy list gathers every domain that has its name as a key.
pub proof fn lemma_planet_galaxies_contains(metas: Seq<MetaRelation>, i: int, name: Seq<char>)
    requires
        0 <= i < metas.len(),
        rel_contains_key(metas[i].entries(), name),
    ensures
        planet_galaxies(metas, name).contains(metas[i].domain@),
    decreases metas.len(),
{
    let pre = planet_galaxies(metas.drop_last(), name);
    let out = planet_galaxies(metas, name);
    if i == metas.len() - 1 {
        if pre.contains(metas[i].domain@) {
            let v = choose|v: int| 0 <= v < pre.len() && pre[v] == metas[i].domain@;
            assert(out[v] == metas[i].domain@);
        } else {
            assert(out[out.len() - 1] == metas[i].domain@);
        }
    } else {
        assert(metas.drop_last()[i] == metas[i]);
        lemma_planet_galaxies_contains(metas.drop_last(), i, name);
        let v = choose|v: int| 0 <= v < pre.len() && pre[v] == metas[i].domain@;
        assert(out[v] == metas[i].domain@);
    }
}

/// Two connections join the same unordered pair of planet names.
pub open spec fn same_pair(c1: ConnModel, c2: ConnModel) -> bool {
    ||| (c1.source == c2.source && c1.target == c2.target)
    ||| (c1.source == c2.target && c1.target == c2.source)
}

/// No two connections join the same unordered pair.
pub open spec fn no_duplicate_pairs(flat: Seq<ConnModel>) -> bool {
    forall|i: int, j: int| 0 <= i < j < flat.len() ==> !same_pair(flat[i], flat[j])
}

/// Within each neighbour list, the neighbour names are distinct.
pub open spec fn list_names_distinct(es: Seq<EntryModel>) -> bool {
    forall|e: int, i: int, j: int|
        0 <= e < es.len() && 0 <= i < j < es[e].tags.len() ==> (#[trigger] es[e].tags[i]).name
            != (#[trigger] es[e].tags[j]).name
}

/// Every neighbour name of every list is itself a key of the same domain.
pub open spec fn neighbours_are_keys(es: Seq<EntryModel>) -> bool {
    forall|e: int, i: int|
        0 <= e < es.len() && 0 <= i < es[e].tags.len() ==> rel_contains_key(
            es,
            (#[trigger] es[e].tags[i]).name,
        )
}

/// At a domain boundary, every discovered connection joins two explored
/// planets.
pub open spec fn boundary_inv(st: MergeState) -> bool {
    forall|i: int|
        0 <= i < st.conns.len() ==> st.explored.contains((#[trigger] st.conns[i]).source)
            && st.explored.contains(st.conns[i].target)
}

/// What one neighbour list contributes: connections out of `source`, one per
/// not-yet-explored neighbour name.
proof fn lemma_merge_tags_facts(explored: Set<Seq<char>>, source: Seq<char>, tags: Seq<TagModel>)
    ensures
        forall|i: int|
            0 <= i < merge_tags(explored, source, tags).len() ==> {
                let c = #[trigger] merge_tags(explored, source, tags)[i];
                &&& c.source == source
                &&& !explored.contains(c.target)
                &&& exists|t: int| 0 <= t < tags.len() && tags[t].name == c.target
            },
    decreases tags.len(),
{
    if tags.len() > 0 {
        lemma_merge_tags_facts(explored, source, tags.drop_last());
        let pre = merge_tags(explored, source, tags.drop_last());
        let out = merge_tags(explored, source, tags);
        assert forall|i: int| #![trigger out[i]] 0 <= i < out.len() implies {
            let c = out[i];
            &&& c.source == source
            &&& !explored.contains(c.target)
            &&& exists|t: int| 0 <= t < tags.len() && tags[t].name == c.target
        } by {
            if i < pre.len() {
                assert(out[i] == pre[i]);
                let t = choose|t: int|
                    0 <= t < tags.drop_last().len() && tags.drop_last()[t].name == pre[i].target;
                assert(tags[t].name == out[i].target);
            } else {
                assert(out[i].target == tags.last().name);
                assert(tags[tags.len() - 1].name == out[i].target);
            }
        }
    }
}

/// With distinct neighbour names, the contributed connections have pairwise
/// distinct targets.
proof fn lemma_merge_tags_distinct(explored: Set<Seq<char>>, source: Seq<char>, tags: Seq<TagModel>)
    requires
        forall|i: int, j: int| 0 <= i < j < tags.len() ==> tags[i].name != tags[j].name,
    ensures
        forall|i: int, j: int|
            0 <= i < j < merge_tags(explored, source, tags).len() ==> merge_tags(
                explored,
                source,
                tags,
            )[i].target != merge_tags(explored, source, tags)[j].target,
    decreases tags.len(),
{
    if tags.len() > 0 {
        lemma_merge_tags_distinct(explored, source, tags.drop_last());
        lemma_merge_tags_facts(explored, source, tags.drop_last());
        let pre = merge_tags(explored, source, tags.drop_last());
        let out = merge_tags(explored, source, tags);
        assert forall|i: int, j: int| 0 <= i < j < out.len() implies out[i].target
            != out[j].target by {
            if j < pre.len() {
            } else if !explored.contains(tags.last().name) && j == out.len() - 1 {
                assert(out[j].target == tags.last().name);
                assert(out[i] == pre[i]);
                let t = choose|t: int|
                    0 <= t < tags.drop_last().len() && tags.drop_last()[t].name == pre[i].target;
                assert(tags[t].name == pre[i].target);
                assert(tags[t].name != tags[tags.len() - 1].name);
            }
        }
    }
}

/// The invariant that merging one domain's first `j` entries maintains: the
/// explored set grows by exactly the processed keys; every connection's
/// source is explored; a connection whose target is not yet explored came
/// from an already processed key of this domain and points at one of this
/// domain's keys; and no unordered pair occurs twice.
proof fn lemma_merge_entries_inv(st0: MergeState, full: Seq<EntryModel>, j: int)
    requires
        0 <= j <= full.len(),
        distinct_keys(full),
        list_names_distinct(full),
        neighbours_are_keys(full),
        boundary_inv(st0),
        no_duplicate_pairs(st0.conns),
    ensures
        ({
            let st = merge_entries(st0, full.take(j));
            &&& forall|x: Seq<char>|
                st.explored.contains(x) <==> st0.explored.contains(x) || entry_keys(
                    full.take(j),
                ).contains(x)
            &&& forall|i: int|
                0 <= i < st.conns.len() ==> st.explored.contains(
                    (#[trigger] st.conns[i]).source,
                )
            &&& forall|i: int|
                0 <= i < st.conns.len() ==> st.explored.contains((#[trigger] st.conns[i]).target)
                    || (entry_keys(full.take(j)).contains(st.conns[i].source)
                    && rel_contains_key(full, st.conns[i].target))
            &&& no_duplicate_pairs(st.conns)
        }),
    decreases j,
{
    broadcast use vstd::seq_lib::group_seq_properties;

    if j == 0 {
        assert(full.take(0) =~= Seq::<EntryModel>::empty());
    } else {
        lemma_merge_entries_inv(st0, full, j - 1);
        let pre = merge_entries(st0, full.take(j - 1));
        assert(full.take(j).drop_last() =~= full.take(j - 1));
        assert(full.take(j).last() == full[j - 1]);
        let k = full[j - 1].key;
        let tags = full[j - 1].tags;
        let st = merge_entries(st0, full.take(j));
        let added = merge_tags(pre.explored, k, tags);
        assert(st.conns == pre.conns + added);
        assert(st.explored == pre.explored.insert(k));
        lemma_merge_tags_facts(pre.explored, k, tags);
        assert forall|a: int, b: int| 0 <= a < b < tags.len() implies tags[a].name
            != tags[b].name by {
            assert(full[j - 1].tags[a].name != full[j - 1].tags[b].name);
        }
        lemma_merge_tags_distinct(pre.explored, k, tags);
        assert(entry_keys(full.take(j)) =~= entry_keys(full.take(j - 1)).push(k));

        // Sources of the freshly added connections point at this domain's
        // keys.
        assert forall|i: int|
            pre.conns.len() <= i < st.conns.len() implies st.conns[i].source == k
            && !pre.explored.contains((#[trigger] st.conns[i]).target) && rel_contains_key(
            full,
            st.conns[i].target,
        ) by {
            assert(st.conns[i] == added[i - pre.conns.len()]);
            let t = choose|t: int|
                0 <= t < tags.len() && tags[t].name == added[i - pre.conns.len()].target;
            assert(rel_contains_key(full, full[j - 1].tags[t].name));
        }

        // No unordered pair occurs twice.
        assert forall|a: int, b: int| 0 <= a < b < st.conns.len() implies !same_pair(
            st.conns[a],
            st.conns[b],
        ) by {
            if b < pre.conns.len() {
                assert(st.conns[a] == pre.conns[a]);
                assert(st.conns[b] == pre.conns[b]);
            } else if a >= pre.conns.len() {
                assert(st.conns[a] == added[a - pre.conns.len()]);
                assert(st.conns[b] == added[b - pre.conns.len()]);
                assert(st.conns[a].target != st.conns[b].target);
            } else {
                let c = pre.conns[a];
                let d = added[b - pre.conns.len()];
                assert(st.conns[a] == c);
                assert(st.conns[b] == d);
                if same_pair(c, d) {
                    if c.source == d.source && c.target == d.target {
                        assert(!pre.explored.contains(c.target));
                        assert(entry_keys(full.take(j - 1)).contains(c.source));
                        let idx = choose|idx: int|
                            0 <= idx < entry_keys(full.take(j - 1)).len() && #[trigger] entry_keys(
                                full.take(j - 1),
                            )[idx] == c.source;
                        assert(full[idx].key == full[j - 1].key);
                        assert(false);
                    } else {
                        assert(pre.explored.contains(c.source));
                        assert(c.source == d.target);
                        assert(false);
                    }
                }
            }
        }
    }
}

/// Merging whole domains in turn keeps every connection between explored
/// planets and never repeats an unordered pair.
proof fn lemma_merge_metas_dedup(st0: MergeState, metas: Seq<MetaRelation>)
    requires
        forall|m: int| 0 <= m < metas.len() ==> distinct_keys((#[trigger] metas[m]).entries()),
        forall|m: int|
            0 <= m < metas.len() ==> list_names_distinct((#[trigger] metas[m]).entries()),
        forall|m: int|
            0 <= m < metas.len() ==> neighbours_are_keys((#[trigger] metas[m]).entries()),
        boundary_inv(st0),
        no_duplicate_pairs(st0.conns),
    ensures
        boundary_inv(merge_metas(st0, metas)),
        no_duplicate_pairs(merge_metas(st0, metas).conns),
    decreases metas.len(),
{
    if metas.len() > 0 {
        assert forall|m: int| 0 <= m < metas.drop_last().len() implies distinct_keys(
            (#[trigger] metas.drop_last()[m]).entries(),
        ) && list_names_distinct(metas.drop_last()[m].entries()) && neighbours_are_keys(
            metas.drop_last()[m].entries(),
        ) by {
            assert(metas.drop_last()[m] == metas[m]);
        }
        lemma_merge_metas_dedup(st0, metas.drop_last());
        let pre = merge_metas(st0, metas.drop_last());
        let full = metas.last().entries();
        let flen = full.len() as int;
        assert(metas.last() == metas[metas.len() - 1]);
        lemma_merge_entries_inv(pre, full, flen);
        assert(full.take(flen) =~= full);
        let st = merge_metas(st0, metas);
        assert(st == merge_entries(pre, full));
        assert forall|i: int| 0 <= i < st.conns.len() implies st.explored.contains(
            (#[trigger] st.conns[i]).source,
        ) && st.explored.contains(st.conns[i].target) by {
            if !st.explored.contains(st.conns[i].target) {
                assert(rel_contains_key(full, st.conns[i].target));
                let e = choose|e: int| 0 <= e < full.len() && full[e].key == st.conns[i].target;
                assert(entry_keys(full)[e] == st.conns[i].target);
                assert(entry_keys(full).contains(st.conns[i].target));
                assert(false);
            }
        }
    }
}

/// The dedup guarantee of the merge: in graphs whose neighbour lists name
/// only keys of their own domain, each at most once, the merged model holds
/// at most one connection per unordered pair of planet names, whether the
/// pair recurs within one domain (in either direction) or across domains.
pub proof fn lemma_merged_connections_dedup(metas: Seq<MetaRelation>)
    requires
        forall|m: int| 0 <= m < metas.len() ==> distinct_keys((#[trigger] metas[m]).entries()),
        forall|m: int|
            0 <= m < metas.len() ==> list_names_distinct((#[trigger] metas[m]).entries()),
        forall|m: int|
            0 <= m < metas.len() ==> neighbours_are_keys((#[trigger] metas[m]).entries()),
    ensures
        no_duplicate_pairs(merged_connections(metas)),
{
    lemma_merge_metas_dedup(MergeState { conns: Seq::empty(), explored: Set::empty() }, metas);
}

/// A tag name that is a relation-map key in several domains is represented by
/// exactly one planet — the merged name list holds it exactly once — and that
/// planet's galaxy list names each of those domains.
pub proof fn lemma_planet_in_two_domains(
    metas: Seq<MetaRelation>,
    i: int,
    j: int,
    name: Seq<char>,
)
    requires
        0 <= i < metas.len(),
        0 <= j < metas.len(),
        rel_contains_key(metas[i].entries(), name),
        rel_contains_key(metas[j].entries(), name),
    ensures
        dedup_firsts(all_keys(metas)).contains(name),
        forall|a: int, b: int|
            0 <= a < b < dedup_firsts(all_keys(metas)).len() ==> !(dedup_firsts(
                all_keys(metas),
            )[a] == name && dedup_firsts(all_keys(metas))[b] == name),
        planet_galaxies(metas, name).contains(metas[i].domain@),
        planet_galaxies(metas, name).contains(metas[j].domain@),
{
    lemma_all_keys_contains(metas, i, name);
    lemma_dedup_firsts_contains(all_keys(metas), name);
    lemma_dedup_firsts_distinct(all_keys(metas));
    lemma_planet_galaxies_contains(metas, i, name);
    lemma_planet_galaxies_contains(metas, j, name);
}

} // verus!
