//! Per-domain relation graphs: tags, their ranked neighbour lists, the top-N
//! query and the cheapest-path query.

use vstd::prelude::*;

verus! {

/// One related tag: a neighbour's name together with the co-occurrence count
/// backing the relation.
#[derive(PartialEq, Eq, Hash, Debug)]
pub struct ConnectedTag {
    pub name: String,
    pub count: i32,
}

/// Mathematical model of a [`ConnectedTag`].
pub ghost struct TagModel {
    pub name: Seq<char>,
    pub count: int,
}

impl View for ConnectedTag {
    type V = TagModel;

    open spec fn view(&self) -> TagModel {
        TagModel { name: self.name@, count: self.count as int }
    }
}

impl Clone for ConnectedTag {
    fn clone(&self) -> (r: Self)
        ensures
            r == *self,
    {
        ConnectedTag { name: self.name.clone(), count: self.count }
    }
}

/// The models of a sequence of tags.
pub open spec fn tag_models(tags: Seq<ConnectedTag>) -> Seq<TagModel> {
    tags.map_values(|t: ConnectedTag| t@)
}

/// Model of one relation-map entry: a tag name and its neighbour list.
pub ghost struct EntryModel {
    pub key: Seq<char>,
    pub tags: Seq<TagModel>,
}

/// The models of a sequence of relation-map entries.
pub open spec fn entry_models(es: Seq<(String, Vec<ConnectedTag>)>) -> Seq<EntryModel> {
    es.map_values(
        |e: (String, Vec<ConnectedTag>)| EntryModel { key: e.0@, tags: tag_models(e.1@) },
    )
}

/// Whether `name` occurs as a key among the entries.
pub open spec fn rel_contains_key(es: Seq<EntryModel>, name: Seq<char>) -> bool {
    exists|i: int| 0 <= i < es.len() && es[i].key == name
}

/// The neighbour list stored under `name`; meaningful when the keys are
/// distinct and `name` is present.
pub open spec fn rel_tags_of(es: Seq<EntryModel>, name: Seq<char>) -> Seq<TagModel> {
    let i = choose|i: int| 0 <= i < es.len() && es[i].key == name;
    es[i].tags
}

/// No key occurs twice.
pub open spec fn distinct_keys(es: Seq<EntryModel>) -> bool {
    forall|i: int, j: int| 0 <= i < j < es.len() ==> es[i].key != es[j].key
}

/// Counts are non-increasing: the strongest relation comes first.
pub open spec fn counts_descending(tags: Seq<TagModel>) -> bool {
    forall|i: int, j: int| 0 <= i <= j < tags.len() ==> tags[i].count >= tags[j].count
}

/// Every count is at least one. Zero- or negative-count records are rejected
/// at load time, so edge weights are always defined.
pub open spec fn all_counts_positive(tags: Seq<TagModel>) -> bool {
    forall|i: int| 0 <= i < tags.len() ==> tags[i].count >= 1
}

/// A well-formed neighbour list: only positive counts, ranked descending.
pub open spec fn wf_tag_list(tags: Seq<TagModel>) -> bool {
    &&& all_counts_positive(tags)
    &&& counts_descending(tags)
}

/// The records of a loaded neighbour list that survive validation: those
/// with a positive count.
pub open spec fn positive_counts(tags: Seq<TagModel>) -> Seq<TagModel> {
    tags.filter(|t: TagModel| t.count >= 1)
}

/// The total number of stored neighbour records.
pub open spec fn total_tags(es: Seq<EntryModel>) -> int
    decreases es.len(),
{
    if es.len() == 0 {
        0
    } else {
        total_tags(es.drop_last()) + es.last().tags.len()
    }
}

/// Edge weight derived from a co-occurrence count: stronger relations
/// (higher counts) yield cheaper edges.
pub open spec fn spec_weight(count: int) -> int {
    1000int / count
}

impl ConnectedTag {
    /// The weight of an edge leading to this tag.
    pub fn weight(&self) -> (w: i32)
        requires
            self.count >= 1,
        ensures
            w == spec_weight(self@.count),
            0 <= w <= 1000,
    {
        1000 / self.count
    }
}

/// One domain's relation graph: the domain's name and its relation map from
/// tag name to the ranked list of related tags. Built once by [`MetaRelation::new`]
/// and immutable afterwards.
pub struct MetaRelation {
    pub domain: String,
    pub relation_map: Vec<(String, Vec<ConnectedTag>)>,
}

impl MetaRelation {
    /// The model of the relation map: a sequence of key/neighbour-list entries.
    pub open spec fn entries(&self) -> Seq<EntryModel> {
        entry_models(self.relation_map@)
    }

    /// Whether `name` is one of the map's keys.
    pub open spec fn contains_key(&self, name: Seq<char>) -> bool {
        rel_contains_key(self.entries(), name)
    }

    /// The neighbour list stored under `name`.
    pub open spec fn tags_of(&self, name: Seq<char>) -> Seq<TagModel> {
        rel_tags_of(self.entries(), name)
    }

    /// Well-formedness: keys are distinct and every neighbour list is ranked
    /// by count, descending, with only positive counts.
    pub open spec fn wf(&self) -> bool {
        &&& distinct_keys(self.entries())
        &&& forall|i: int|
            0 <= i < self.entries().len() ==> wf_tag_list(#[trigger] self.entries()[i].tags)
    }

    /// The index of the entry whose key is `name`, if any.
    pub(crate) fn key_index_of(&self, name: &str) -> (r: Option<usize>)
        ensures
            match r {
                Some(i) => i < self.entries().len() && self.entries()[i as int].key == name@,
                None => !self.contains_key(name@),
            },
    {
        let n: usize = self.relation_map.len();
        let mut i: usize = 0;
        while i < n
            invariant
                i <= n,
                n == self.relation_map.len(),
                forall|j: int| 0 <= j < i ==> self.entries()[j].key != name@,
            decreases n - i,
        {
            if str_equal(self.relation_map[i].0.as_str(), name) {
                return Some(i);
            }
            i += 1;
        }
        None
    }

    /// The `n` most strongly related neighbours of `tag_query`, taken from the
    /// front of the ranked neighbour list; all of them when fewer than `n`
    /// exist, and none when `tag_query` is not a key of the map.
    pub fn find_top_n(&self, tag_query: &str, n: usize) -> (r: Vec<ConnectedTag>)
        requires
            self.wf(),
        ensures
            !self.contains_key(tag_query@) ==> r@.len() == 0,
            self.contains_key(tag_query@) ==> {
                let tags = self.tags_of(tag_query@);
                &&& r@.len() == (if n as int <= tags.len() {
                    n as int
                } else {
                    tags.len() as int
                })
                &&& tag_models(r@) =~= tags.take(r@.len() as int)
            },
            forall|i: int, j: int| 0 <= i <= j < r@.len() ==> r@[i].count >= r@[j].count,
    {
        match self.key_index_of(tag_query) {
            None => Vec::new(),
            Some(idx) => {
                proof {
                    self.lemma_key_at_index(idx as int, tag_query@);
                }
                let tags = &self.relation_map[idx].1;
                let m: usize = if n <= tags.len() {
                    n
                } else {
                    tags.len()
                };
                let mut out: Vec<ConnectedTag> = Vec::new();
                let mut i: usize = 0;
                while i < m
                    invariant
                        i <= m,
                        m <= tags.len(),
                        tags@ == self.relation_map@[idx as int].1@,
                        idx < self.entries().len(),
                        tag_models(tags@) == self.tags_of(tag_query@),
                        wf_tag_list(self.tags_of(tag_query@)),
                        out@.len() == i,
                        forall|j: int| 0 <= j < i ==> out@[j] == tags@[j],
                    decreases m - i,
                {
                    out.push(tags[i].clone());
                    i += 1;
                }
                proof {
                    assert(tag_models(out@) =~= self.tags_of(tag_query@).take(m as int));
                    assert forall|i: int, j: int|
                        0 <= i <= j < out@.len() implies out@[i].count >= out@[j].count by {
                        assert(tag_models(tags@)[i] == tags@[i]@);
                        assert(tag_models(tags@)[j] == tags@[j]@);
                    }
                }
                out
            },
        }
    }

    /// When keys are distinct, the entry found at `idx` is the one that
    /// `tags_of` speaks about.
    proof fn lemma_key_at_index(&self, idx: int, name: Seq<char>)
        requires
            self.wf(),
            0 <= idx < self.entries().len(),
            self.entries()[idx].key == name,
        ensures
            self.contains_key(name),
            self.tags_of(name) == self.entries()[idx].tags,
    {
        assert(rel_contains_key(self.entries(), name));
        let w = choose|i: int| 0 <= i < self.entries().len() && self.entries()[i].key == name;
        if w != idx {
            assert(self.entries()[w].key == self.entries()[idx].key);
            assert(false);
        }
    }
}

/// Relies on `str`'s `PartialEq` implementation in std: two string slices
/// compare equal exactly when their character sequences are equal.
#[verifier::external_body]
pub(crate) fn str_equal(a: &str, b: &str) -> (r: bool)
    ensures
        r == (a@ == b@),
{
    a == b
}

/// Whether the tag's name is `goal`.
pub(crate) fn tag_has_name(t: &ConnectedTag, goal: &str) -> (r: bool)
    ensures
        r == (t@.name == goal@),
{
    str_equal(t.name.as_str(), goal)
}

impl ConnectedTag {
    /// The weighted out-edges of this tag: its entry in the relation map,
    /// paired with each edge's weight; empty when the tag is not a key.
    pub fn neighbours(&self, relation_map: &MetaRelation) -> (r: Vec<(ConnectedTag, i32)>)
        requires
            relation_map.wf(),
        ensures
            !relation_map.contains_key(self@.name) ==> r@.len() == 0,
            relation_map.contains_key(self@.name) ==> {
                let tags = relation_map.tags_of(self@.name);
                &&& r@.len() == tags.len()
                &&& forall|i: int|
                    0 <= i < r@.len() ==> (#[trigger] r@[i]).0@ == tags[i] && r@[i].1
                        == spec_weight(tags[i].count)
            },
    {
        match relation_map.key_index_of(self.name.as_str()) {
            None => Vec::new(),
            Some(idx) => {
                proof {
                    relation_map.lemma_key_at_index(idx as int, self@.name);
                }
                let tags = &relation_map.relation_map[idx].1;
                let n: usize = tags.len();
                let mut out: Vec<(ConnectedTag, i32)> = Vec::new();
                let mut i: usize = 0;
                while i < n
                    invariant
                        i <= n,
                        n == tags.len(),
                        tags@ == relation_map.relation_map@[idx as int].1@,
                        idx < relation_map.entries().len(),
                        tag_models(tags@) == relation_map.tags_of(self@.name),
                        wf_tag_list(relation_map.tags_of(self@.name)),
                        out@.len() == i,
                        forall|j: int|
                            0 <= j < i ==> (#[trigger] out@[j]).0@ == tag_models(tags@)[j]
                                && out@[j].1 == spec_weight(tag_models(tags@)[j].count),
                    decreases n - i,
                {
                    proof {
                        assert(tag_models(tags@)[i as int] == tags@[i as int]@);
                    }
                    let t = &tags[i];
                    let w = t.weight();
                    out.push((t.clone(), w));
                    i += 1;
                }
                out
            },
        }
    }
}

/// A path through one domain's graph, as the search sees it: it starts at a
/// synthetic tag for `start` with count zero, each later tag is drawn from
/// the relation-map entry of the tag before it, and the final tag's name is
/// `goal`.
pub open spec fn valid_path(
    es: Seq<EntryModel>,
    p: Seq<TagModel>,
    start: Seq<char>,
    goal: Seq<char>,
) -> bool {
    &&& p.len() >= 1
    &&& p[0] == (TagModel { name: start, count: 0 })
    &&& forall|i: int|
        0 <= i < p.len() - 1 ==> rel_contains_key(es, (#[trigger] p[i]).name) && rel_tags_of(
            es,
            p[i].name,
        ).contains(p[i + 1])
    &&& p.last().name == goal
}

/// The total cost of a path: the sum of the weights of its edges.
pub open spec fn path_cost(p: Seq<TagModel>) -> int
    decreases p.len(),
{
    if p.len() <= 1 {
        0
    } else {
        path_cost(p.drop_last()) + spec_weight(p.last().count)
    }
}

/// A path whose tags (after the synthetic start) all carry positive counts
/// has a non-negative cost.
proof fn lemma_path_cost_nonneg(p: Seq<TagModel>)
    requires
        forall|i: int| 1 <= i < p.len() ==> (#[trigger] p[i]).count >= 1,
    ensures
        path_cost(p) >= 0,
    decreases p.len(),
{
    if p.len() > 1 {
        lemma_path_cost_nonneg(p.drop_last());
    }
}

/// In a well-formed map, every tag a valid path reaches carries a positive
/// count.
proof fn lemma_valid_path_counts(
    es: Seq<EntryModel>,
    p: Seq<TagModel>,
    start: Seq<char>,
    goal: Seq<char>,
)
    requires
        forall|i: int| 0 <= i < es.len() ==> wf_tag_list(#[trigger] es[i].tags),
        valid_path(es, p, start, goal),
    ensures
        forall|i: int| 1 <= i < p.len() ==> (#[trigger] p[i]).count >= 1,
{
    assert forall|i: int| 1 <= i < p.len() implies (#[trigger] p[i]).count >= 1 by {
        assert(rel_contains_key(es, p[i - 1].name) && rel_tags_of(es, p[i - 1].name).contains(
            p[i],
        ));
        let w = choose|k: int| 0 <= k < es.len() && es[k].key == p[i - 1].name;
        let tags = rel_tags_of(es, p[i - 1].name);
        let j = choose|j: int| 0 <= j < tags.len() && tags[j] == p[i];
        assert(wf_tag_list(es[w].tags));
    }
}

/// Relies on pathfinding's `dijkstra`: a uniform-cost search from `start`
/// over the successor function given by [`ConnectedTag::neighbours`], ending
/// at the first node whose name is `goal`. Its documentation and source
/// promise the cheapest such path (edge costs are non-negative here, since
/// every stored count is at least one), comprising both the start and the end
/// node, together with its total cost, and `None` exactly when no node named
/// `goal` can be reached. When the start node itself is named `goal`, the
/// search stops before expanding anything and hands back the one-node path.
/// The bound on the number of stored records keeps every accumulated cost
/// under `i32::MAX` (each edge costs at most 1000), so the sums inside the
/// search cannot overflow.
#[verifier::external_body]
fn dijkstra_search(relation_map: &MetaRelation, start: &ConnectedTag, goal: &str) -> (r: Option<
    (Vec<ConnectedTag>, i32),
>)
    requires
        relation_map.wf(),
        start@.count == 0,
        total_tags(relation_map.entries()) <= 1000000,
    ensures
        match r {
            Some(pc) => {
                &&& valid_path(relation_map.entries(), tag_models(pc.0@), start@.name, goal@)
                &&& pc.1 == path_cost(tag_models(pc.0@))
                &&& forall|q: Seq<TagModel>|
                    valid_path(relation_map.entries(), q, start@.name, goal@) ==> path_cost(q)
                        >= pc.1
                &&& start@.name == goal@ ==> pc.0@.len() == 1
            },
            None => forall|q: Seq<TagModel>|
                !valid_path(relation_map.entries(), q, start@.name, goal@),
        },
{
    pathfinding::prelude::dijkstra(
        start,
        |t: &ConnectedTag| t.neighbours(relation_map),
        |t: &ConnectedTag| tag_has_name(t, goal),
    )
}

impl MetaRelation {
    /// The cheapest path from `start` to `goal`, or `None` when `goal` is not
    /// a key of the relation map (checked up front, so the graph is never
    /// traversed for an unknown goal) or cannot be reached.
    pub fn find_path(&self, start: String, goal: String) -> (r: Option<(Vec<ConnectedTag>, i32)>)
        requires
            self.wf(),
            total_tags(self.entries()) <= 1000000,
        ensures
            !self.contains_key(goal@) ==> r is None,
            self.contains_key(goal@) && start@ == goal@ ==> r is Some,
            match r {
                Some(pc) => {
                    &&& self.contains_key(goal@)
                    &&& valid_path(self.entries(), tag_models(pc.0@), start@, goal@)
                    &&& pc.1 == path_cost(tag_models(pc.0@))
                    &&& pc.1 >= 0
                    &&& forall|q: Seq<TagModel>|
                        valid_path(self.entries(), q, start@, goal@) ==> path_cost(q) >= pc.1
                    &&& start@ == goal@ ==> pc.0@.len() == 1 && pc.1 == 0
                },
                None => self.contains_key(goal@) ==> forall|q: Seq<TagModel>|
                    !valid_path(self.entries(), q, start@, goal@),
            },
    {
        match self.key_index_of(goal.as_str()) {
            None => None,
            Some(_) => {
                let start_tag = ConnectedTag { name: start, count: 0 };
                let r = dijkstra_search(self, &start_tag, goal.as_str());
                proof {
                    match &r {
                        Some(pc) => {
                            lemma_valid_path_counts(
                                self.entries(),
                                tag_models(pc.0@),
                                start_tag@.name,
                                goal@,
                            );
                            lemma_path_cost_nonneg(tag_models(pc.0@));
                            if start_tag@.name == goal@ {
                                let single = seq![TagModel { name: goal@, count: 0 }];
                                assert(valid_path(self.entries(), single, start_tag@.name, goal@));
                                assert(path_cost(single) == 0);
                            }
                        },
                        None => {
                            assert(start_tag@.name == start@);
                            assert(forall|q: Seq<TagModel>|
                                !valid_path(self.entries(), q, start@, goal@));
                            if start@ == goal@ {
                                let single = seq![TagModel { name: goal@, count: 0 }];
                                assert(valid_path(self.entries(), single, start@, goal@));
                                assert(false);
                            }
                        },
                    }
                }
                r
            },
        }
    }
}

/// The records of `tags` with a positive count, in order, as fresh copies.
fn filter_positive(tags: &Vec<ConnectedTag>) -> (r: Vec<ConnectedTag>)
    ensures
        tag_models(r@) == positive_counts(tag_models(tags@)),
{
    let n: usize = tags.len();
    let mut out: Vec<ConnectedTag> = Vec::new();
    let mut i: usize = 0;
    while i < n
        invariant
            i <= n,
            n == tags.len(),
            tag_models(out@) == positive_counts(tag_models(tags@.take(i as int))),
        decreases n - i,
    {
        proof {
            reveal(Seq::filter);
            let m = tag_models(tags@.take(i as int));
            let m1 = tag_models(tags@.take(i + 1));
            assert(m1.drop_last() =~= m);
            assert(m1.last() == tags@[i as int]@);
            if tags@[i as int]@.count >= 1 {
                assert(positive_counts(m1) =~= positive_counts(m).push(tags@[i as int]@));
            } else {
                assert(positive_counts(m1) =~= positive_counts(m));
            }
        }
        if tags[i].count >= 1 {
            out.push(tags[i].clone());
            proof {
                assert(tag_models(out@) =~= positive_counts(
                    tag_models(tags@.take(i as int)),
                ).push(tags@[i as int]@));
            }
        }
        i += 1;
        proof {
            assert(tag_models(out@) =~= positive_counts(tag_models(tags@.take(i as int))));
        }
    }
    proof {
        assert(tags@.take(n as int) =~= tags@);
    }
    out
}

/// Sorts a neighbour list in place, descending by count, at load time.
fn sort_tags_desc(tags: &mut Vec<ConnectedTag>)
    ensures
        tag_models(final(tags)@).to_multiset() == tag_models(old(tags)@).to_multiset(),
        counts_descending(tag_models(final(tags)@)),
{
    broadcast use vstd::seq_lib::group_to_multiset_ensures;

    let ghost orig = tag_models(old(tags)@);
    let mut i: usize = 1;
    while i < tags.len()
        invariant
            1 <= i,
            tag_models(tags@).to_multiset() == orig.to_multiset(),
            forall|p: int, q: int|
                0 <= p <= q < i && q < tags@.len() ==> tag_models(tags@)[p].count >= tag_models(
                    tags@,
                )[q].count,
        decreases tags@.len() - i,
    {
        let key_count: i32 = tags[i].count;
        let mut j: usize = 0;
        while j < i && tags[j].count >= key_count
            invariant
                j <= i,
                i < tags@.len(),
                key_count == tags@[i as int].count,
                forall|p: int| 0 <= p < j ==> tag_models(tags@)[p].count >= key_count as int,
            decreases i - j,
        {
            j += 1;
        }
        if j < i {
            proof {
                assert(tag_models(tags@)[j as int].count < key_count as int);
            }
            let ghost before = tag_models(tags@);
            let t = tags.remove(i);
            tags.insert(j, t);
            proof {
                broadcast use vstd::multiset::group_multiset_axioms;

                let after = tag_models(tags@);
                let x = before[i as int];
                assert(after =~= before.remove(i as int).insert(j as int, x));
                vstd::seq_lib::to_multiset_remove(before, i as int);
                vstd::seq_lib::to_multiset_insert(before.remove(i as int), j as int, x);
                vstd::seq_lib::to_multiset_contains(before, x);
                assert(before.contains(x));
                assert(before.to_multiset().count(x) > 0);
                assert(after.to_multiset() =~= before.to_multiset());
                assert forall|p: int, q: int|
                    0 <= p <= q < i + 1 && q < after.len() implies after[p].count
                    >= after[q].count by {
                    assert(before.remove(i as int) =~= before.take(i as int) + before.skip(
                        i + 1,
                    ));
                    if p < j {
                        assert(after[p] == before[p]);
                    } else if p == j {
                        assert(after[p] == before[i as int]);
                    } else {
                        assert(after[p] == before[p - 1]);
                    }
                    if q < j {
                        assert(after[q] == before[q]);
                    } else if q == j {
                        assert(after[q] == before[i as int]);
                    } else {
                        assert(after[q] == before[q - 1]);
                    }
                }
            }
        }
        i += 1;
    }
}

impl MetaRelation {
    /// Builds one domain's relation graph from loaded data: each neighbour
    /// list is validated (records without a positive count are dropped) and
    /// ranked by count, descending; keys and their order are kept.
    pub fn new(domain: String, data: Vec<(String, Vec<ConnectedTag>)>) -> (r: MetaRelation)
        requires
            distinct_keys(entry_models(data@)),
        ensures
            r.wf(),
            r.domain == domain,
            r.entries().len() == data@.len(),
            forall|i: int|
                0 <= i < data@.len() ==> {
                    &&& (#[trigger] r.entries()[i]).key == entry_models(data@)[i].key
                    &&& r.entries()[i].tags.to_multiset() == positive_counts(
                        entry_models(data@)[i].tags,
                    ).to_multiset()
                    &&& wf_tag_list(r.entries()[i].tags)
                },
    {
        let n: usize = data.len();
        let mut map: Vec<(String, Vec<ConnectedTag>)> = Vec::new();
        let mut i: usize = 0;
        while i < n
            invariant
                i <= n,
                n == data@.len(),
                distinct_keys(entry_models(data@)),
                map@.len() == i,
                forall|j: int|
                    0 <= j < i ==> {
                        &&& (#[trigger] entry_models(map@)[j]).key == entry_models(data@)[j].key
                        &&& entry_models(map@)[j].tags.to_multiset() == positive_counts(
                            entry_models(data@)[j].tags,
                        ).to_multiset()
                        &&& wf_tag_list(entry_models(map@)[j].tags)
                    },
            decreases n - i,
        {
            let key = data[i].0.clone();
            let ghost src_tags = tag_models(data@[i as int].1@);
            let mut tags = filter_positive(&data[i].1);
            proof {
                broadcast use vstd::seq_lib::group_filter_ensures;

                assert forall|k: int|
                    0 <= k < positive_counts(src_tags).len() implies (#[trigger] positive_counts(
                    src_tags,
                )[k]).count >= 1 by {
                    assert(positive_counts(src_tags)[k] == src_tags.filter(
                        |t: TagModel| t.count >= 1,
                    )[k]);
                }
            }
            sort_tags_desc(&mut tags);
            proof {
                lemma_positive_counts_from_multiset(tag_models(tags@), positive_counts(src_tags));
            }
            let ghost prev = map@;
            let ghost gkey = key@;
            let ghost gtags = tag_models(tags@);
            map.push((key, tags));
            proof {
                assert(entry_models(map@) =~= entry_models(prev).push(
                    EntryModel { key: gkey, tags: gtags },
                ));
            }
            i += 1;
        }
        proof {
            assert forall|a: int, b: int|
                0 <= a < b < entry_models(map@).len() implies (#[trigger] entry_models(map@)[a]).key
                != (#[trigger] entry_models(map@)[b]).key by {
                assert(entry_models(map@)[a].key == entry_models(data@)[a].key);
                assert(entry_models(map@)[b].key == entry_models(data@)[b].key);
                assert(entry_models(data@)[a].key != entry_models(data@)[b].key);
            }
        }
        MetaRelation { domain, relation_map: map }
    }
}

/// The domain name a dataset file stands for: the file name up to, but not
/// including, its first `.`; the whole name when it has none.
pub fn domain_from_filename(file_name: &str) -> (r: String)
    ensures
        r@.len() <= file_name@.len(),
        r@ == file_name@.take(r@.len() as int),
        forall|j: int| 0 <= j < r@.len() ==> r@[j] != '.',
        r@.len() < file_name@.len() ==> file_name@[r@.len() as int] == '.',
{
    let n: usize = file_name.unicode_len();
    let mut i: usize = 0;
    while i < n
        invariant
            i <= n,
            n == file_name@.len(),
            forall|j: int| 0 <= j < i ==> file_name@[j] != '.',
        decreases n - i,
    {
        if file_name.get_char(i) == '.' {
            let stem = file_name.substring_char(0, i);
            proof {
                assert(stem@ =~= file_name@.take(i as int));
            }
            return stem.to_owned();
        }
        i += 1;
    }
    let stem = file_name.substring_char(0, n);
    proof {
        assert(stem@ =~= file_name@.take(n as int));
    }
    stem.to_owned()
}

/// Multiset equality with a sequence of positive-count records forces every
/// record to have a positive count.
proof fn lemma_positive_counts_from_multiset(a: Seq<TagModel>, b: Seq<TagModel>)
    requires
        a.to_multiset() == b.to_multiset(),
        all_counts_positive(b),
    ensures
        all_counts_positive(a),
{
    broadcast use vstd::seq_lib::group_to_multiset_ensures;

    assert forall|i: int| 0 <= i < a.len() implies a[i].count >= 1 by {
        assert(a.contains(a[i]));
        assert(a.to_multiset().count(a[i]) > 0);
        assert(b.contains(a[i]));
        let j = choose|j: int| 0 <= j < b.len() && b[j] == a[i];
        assert(b[j].count >= 1);
    }
}

} // verus!
