use crate::coords::Coord;
use crate::tags::Tags;
use std::collections::HashMap;
use vstd::prelude::*;

verus! {

broadcast use vstd::std_specs::hash::group_hash_axioms;

/// The raw identifier of a node in the source network data.
#[derive(Clone, Copy, Debug, PartialEq, Eq, Structural, Hash, PartialOrd, Ord)]
pub struct NodeID(pub i64);

/// The raw identifier of a way in the source network data.
#[derive(Clone, Copy, Debug, PartialEq, Eq, Structural, Hash, PartialOrd, Ord)]
pub struct WayID(pub i64);

// These don't represent array indices / ordering until `compact_ids` is called.
#[derive(Clone, Copy, Debug, PartialEq, Eq, Structural, Hash, PartialOrd, Ord)]
pub struct EdgeID(pub usize);

#[derive(Clone, Copy, Debug, PartialEq, Eq, Structural, Hash, PartialOrd, Ord)]
pub struct IntersectionID(pub usize);

/// A scraped way.
pub struct Way {
    pub id: WayID,
    pub node_ids: Vec<NodeID>,
    pub tags: Tags,
}

pub struct Edge {
    pub id: EdgeID,
    pub src: IntersectionID,
    pub dst: IntersectionID,
    pub osm_way: WayID,
    pub osm_node1: NodeID,
    pub osm_node2: NodeID,
    pub osm_tags: Tags,
    pub linestring: Vec<Coord>,
}

pub struct Intersection {
    pub id: IntersectionID,
    pub edges: Vec<EdgeID>,
    pub osm_node: NodeID,
    pub point: Coord,
}

/// An intermediate helper for splitting raw ways into edges. Edges and
/// intersections are owned slot vectors indexed by their own IDs; a freed
/// slot holds `None`. All cross-references go through IDs, never through
/// direct references. Geometry in a planar frame, and the boundary polygon,
/// are the business of the caller's projection step.
pub struct Graph {
    pub edges: Vec<Option<Edge>>,
    pub intersections: Vec<Option<Intersection>>,
    /// Every raw node that winds up on each split edge.
    pub node_to_edge: Vec<(NodeID, EdgeID)>,
}

/// Some entry of `rem` names the edge slot `idx`.
pub open spec fn spec_removed(rem: Seq<EdgeID>, idx: int) -> bool {
    exists|k: int| 0 <= k < rem.len() && rem[k].0 == idx
}

/// The edge slot `e` currently holds an edge.
pub open spec fn spec_edge_present(edges: Seq<Option<Edge>>, e: EdgeID) -> bool {
    e.0 < edges.len() && edges[e.0 as int] is Some
}

/// The incident list `list` restricted to edges that are still present.
pub open spec fn spec_keep_edges(list: Seq<EdgeID>, edges: Seq<Option<Edge>>) -> Seq<EdgeID>
    decreases list.len(),
{
    if list.len() == 0 {
        Seq::empty()
    } else {
        spec_keep_edges(list.drop_last(), edges) + (if spec_edge_present(edges, list.last()) {
            seq![list.last()]
        } else {
            Seq::empty()
        })
    }
}

/// The node index `list` restricted to entries whose edge is still present.
pub open spec fn spec_keep_node_entries(
    list: Seq<(NodeID, EdgeID)>,
    edges: Seq<Option<Edge>>,
) -> Seq<(NodeID, EdgeID)>
    decreases list.len(),
{
    if list.len() == 0 {
        Seq::empty()
    } else {
        spec_keep_node_entries(list.drop_last(), edges) + (if spec_edge_present(
            edges,
            list.last().1,
        ) {
            seq![list.last()]
        } else {
            Seq::empty()
        })
    }
}

proof fn lemma_keep_edges_elements(list: Seq<EdgeID>, edges: Seq<Option<Edge>>)
    ensures
        forall|i: int|
            0 <= i < spec_keep_edges(list, edges).len() ==> {
                let x = #[trigger] spec_keep_edges(list, edges)[i];
                spec_edge_present(edges, x) && list.contains(x)
            },
    decreases list.len(),
{
    if list.len() > 0 {
        lemma_keep_edges_elements(list.drop_last(), edges);
        assert forall|i: int| 0 <= i < spec_keep_edges(list, edges).len() implies {
            let x = #[trigger] spec_keep_edges(list, edges)[i];
            spec_edge_present(edges, x) && list.contains(x)
        } by {
            let prefix = spec_keep_edges(list.drop_last(), edges);
            let x = spec_keep_edges(list, edges)[i];
            if i < prefix.len() {
                assert(list.drop_last().contains(x));
                let w = choose|w: int| 0 <= w < list.drop_last().len() && list.drop_last()[w] == x;
                assert(list[w] == x);
            } else {
                assert(x == list.last());
                assert(list[list.len() - 1] == x);
            }
        }
    }
}

proof fn lemma_keep_edges_contains(list: Seq<EdgeID>, edges: Seq<Option<Edge>>, x: EdgeID)
    requires
        list.contains(x),
        spec_edge_present(edges, x),
    ensures
        spec_keep_edges(list, edges).contains(x),
    decreases list.len(),
{
    if list.last() == x {
        let keep = spec_keep_edges(list, edges);
        assert(keep[keep.len() - 1] == x);
    } else {
        let w = choose|w: int| 0 <= w < list.len() && list[w] == x;
        assert(list.drop_last()[w] == x);
        assert(list.drop_last().contains(x));
        lemma_keep_edges_contains(list.drop_last(), edges, x);
        let prefix = spec_keep_edges(list.drop_last(), edges);
        let w2 = choose|w2: int| 0 <= w2 < prefix.len() && prefix[w2] == x;
        assert(spec_keep_edges(list, edges)[w2] == x);
    }
}

/// How many of the first `i` slots are occupied: the dense ID a live slot `i`
/// is about to receive.
pub open spec fn rank<T>(s: Seq<Option<T>>, i: int) -> int
    decreases i,
{
    if i <= 0 {
        0
    } else {
        rank(s, i - 1) + (if s[i - 1] is Some {
            1int
        } else {
            0int
        })
    }
}

/// Ranks grow by at most one per slot, and never shrink.
pub proof fn lemma_rank_le<T>(s: Seq<Option<T>>, i: int, j: int)
    requires
        0 <= i <= j,
    ensures
        rank(s, i) <= rank(s, j),
        rank(s, j) <= rank(s, i) + (j - i),
    decreases j - i,
{
    if i < j {
        lemma_rank_le(s, i, j - 1);
    }
}

/// Every dense ID below `rank(s, i)` is the rank of some live slot before `i`.
proof fn lemma_rank_surjective_upto<T>(s: Seq<Option<T>>, i: int, q: int)
    requires
        0 <= i <= s.len(),
        0 <= q < rank(s, i),
    ensures
        exists|p: int| 0 <= p < i && (#[trigger] s[p]) is Some && rank(s, p) == q,
    decreases i,
{
    if i > 0 {
        if s[i - 1] is Some && q == rank(s, i - 1) {
            assert(s[i - 1] is Some && rank(s, i - 1) == q);
        } else {
            lemma_rank_surjective_upto(s, i - 1, q);
            let p0 = choose|p: int| 0 <= p < i - 1 && s[p] is Some && rank(s, p) == q;
            assert(s[p0] is Some && 0 <= p0 < i && rank(s, p0) == q);
        }
    }
}

/// The dense ID of the edge in slot `e`, after compaction.
pub open spec fn remap_edge_id(edges0: Seq<Option<Edge>>, e: EdgeID) -> EdgeID {
    EdgeID(rank(edges0, e.0 as int) as usize)
}

/// The dense ID of the intersection in slot `i`, after compaction.
pub open spec fn remap_inter_id(inters0: Seq<Option<Intersection>>, i: IntersectionID) -> IntersectionID {
    IntersectionID(rank(inters0, i.0 as int) as usize)
}

/// `e2` is `e` with every identifier rewritten by the compaction maps and all
/// other fields kept.
pub open spec fn edge_compacted(
    edges0: Seq<Option<Edge>>,
    inters0: Seq<Option<Intersection>>,
    e: Edge,
    e2: Edge,
) -> bool {
    &&& e2.id == remap_edge_id(edges0, e.id)
    &&& e2.src == remap_inter_id(inters0, e.src)
    &&& e2.dst == remap_inter_id(inters0, e.dst)
    &&& e2.osm_way == e.osm_way
    &&& e2.osm_node1 == e.osm_node1
    &&& e2.osm_node2 == e.osm_node2
    &&& e2.osm_tags == e.osm_tags
    &&& e2.linestring == e.linestring
}

/// `i2` is `inter` with every identifier rewritten by the compaction maps and
/// all other fields kept.
pub open spec fn inter_compacted(
    edges0: Seq<Option<Edge>>,
    inters0: Seq<Option<Intersection>>,
    inter: Intersection,
    i2: Intersection,
) -> bool {
    &&& i2.id == remap_inter_id(inters0, inter.id)
    &&& i2.osm_node == inter.osm_node
    &&& i2.point == inter.point
    &&& i2.edges@ == inter.edges@.map_values(|e: EdgeID| remap_edge_id(edges0, e))
}

/// Rewrite an incident list through the dense edge mapping.
fn remap_edge_list(
    list: &Vec<EdgeID>,
    emap: &Vec<Option<usize>>,
    Ghost(edges0): Ghost<Seq<Option<Edge>>>,
) -> (result: Vec<EdgeID>)
    requires
        emap@.len() == edges0.len(),
        forall|p: int|
            0 <= p < edges0.len() ==> #[trigger] emap@[p] == (if edges0[p] is Some {
                Some(rank(edges0, p) as usize)
            } else {
                None::<usize>
            }),
        forall|w: int| 0 <= w < list@.len() ==> spec_edge_present(edges0, #[trigger] list@[w]),
    ensures
        result@ == list@.map_values(|e: EdgeID| remap_edge_id(edges0, e)),
{
    let m = list.len();
    let mut mapped: Vec<EdgeID> = Vec::new();
    let mut k: usize = 0;
    while k < m
        invariant
            m == list@.len(),
            k <= m,
            mapped@.len() == k,
            emap@.len() == edges0.len(),
            forall|p: int|
                0 <= p < edges0.len() ==> #[trigger] emap@[p] == (if edges0[p] is Some {
                    Some(rank(edges0, p) as usize)
                } else {
                    None::<usize>
                }),
            forall|w: int| 0 <= w < list@.len() ==> spec_edge_present(edges0, #[trigger] list@[w]),
            forall|w: int|
                0 <= w < k ==> #[trigger] mapped@[w] == remap_edge_id(edges0, list@[w]),
        decreases m - k,
    {
        let eid = list[k];
        proof {
            assert(spec_edge_present(edges0, list@[k as int]));
            assert(emap@[eid.0 as int] == Some(rank(edges0, eid.0 as int) as usize));
        }
        let x = match emap[eid.0] {
            Some(x) => x,
            None => vstd::pervasive::unreached(),
        };
        mapped.push(EdgeID(x));
        k = k + 1;
    }
    proof {
        assert(mapped@ =~= list@.map_values(|e: EdgeID| remap_edge_id(edges0, e)));
    }
    mapped
}

/// Rebuild the intersections densely, rewriting their incident lists through
/// the dense edge mapping.
fn compact_intersections(
    inters: &mut Vec<Option<Intersection>>,
    emap: &Vec<Option<usize>>,
    Ghost(edges0): Ghost<Seq<Option<Edge>>>,
) -> (result: Vec<Option<Intersection>>)
    requires
        emap@.len() == edges0.len(),
        forall|p: int|
            0 <= p < edges0.len() ==> #[trigger] emap@[p] == (if edges0[p] is Some {
                Some(rank(edges0, p) as usize)
            } else {
                None::<usize>
            }),
        forall|p: int|
            0 <= p < old(inters)@.len() && old(inters)@[p] is Some ==> ((#[trigger] old(
                inters,
            )@[p])->0).id.0 == p,
        forall|p: int, w: int|
            #![trigger (old(inters)@[p]->0).edges@[w]]
            0 <= p < old(inters)@.len() && old(inters)@[p] is Some && 0 <= w < (old(
                inters,
            )@[p]->0).edges@.len() ==> spec_edge_present(edges0, (old(inters)@[p]->0).edges@[w]),
    ensures
        result@.len() == rank(old(inters)@, old(inters)@.len() as int),
        forall|q: int| 0 <= q < result@.len() ==> (#[trigger] result@[q]) is Some,
        forall|p: int|
            0 <= p < old(inters)@.len() && old(inters)@[p] is Some ==> {
                let q = rank(old(inters)@, p);
                &&& 0 <= q < result@.len()
                &&& inter_compacted(edges0, old(inters)@, (#[trigger] old(inters)@[p])->0, result@[q]->0)
            },
{
    let ghost inters0 = old(inters)@;
    let ni = inters.len();
    let mut result: Vec<Option<Intersection>> = Vec::new();
    let mut j: usize = 0;
    while j < ni
        invariant
            inters0 == old(inters)@,
            ni == inters0.len(),
            inters@.len() == ni,
            j <= ni,
            forall|p: int| j <= p < ni ==> inters@[p] == inters0[p],
            emap@.len() == edges0.len(),
            forall|p: int|
                0 <= p < edges0.len() ==> #[trigger] emap@[p] == (if edges0[p] is Some {
                    Some(rank(edges0, p) as usize)
                } else {
                    None::<usize>
                }),
            forall|p: int|
                0 <= p < ni && inters0[p] is Some ==> ((#[trigger] inters0[p])->0).id.0 == p,
            forall|p: int, w: int|
                #![trigger (inters0[p]->0).edges@[w]]
                0 <= p < ni && inters0[p] is Some && 0 <= w < (inters0[p]->0).edges@.len()
                    ==> spec_edge_present(edges0, (inters0[p]->0).edges@[w]),
            result@.len() == rank(inters0, j as int),
            forall|q: int| 0 <= q < result@.len() ==> (#[trigger] result@[q]) is Some,
            forall|p: int|
                0 <= p < j && inters0[p] is Some ==> {
                    let q = rank(inters0, p);
                    &&& 0 <= q < result@.len()
                    &&& inter_compacted(edges0, inters0, (#[trigger] inters0[p])->0, result@[q]->0)
                },
        decreases ni - j,
    {
        proof {
            lemma_rank_le(inters0, 0, j as int);
        }
        if inters[j].is_some() {
            let inter = take_slot(inters, j);
            proof {
                assert(inters0[j as int]->0 == inter);
                assert forall|w: int| 0 <= w < inter.edges@.len() implies spec_edge_present(
                    edges0,
                    #[trigger] inter.edges@[w],
                ) by {
                    assert((inters0[j as int]->0).edges@[w] == inter.edges@[w]);
                }
            }
            let mapped = remap_edge_list(&inter.edges, emap, Ghost(edges0));
            let new_id = result.len();
            result.push(
                Some(
                    Intersection {
                        id: IntersectionID(new_id),
                        edges: mapped,
                        osm_node: inter.osm_node,
                        point: inter.point,
                    },
                ),
            );
        }
        j = j + 1;
    }
    result
}

/// Move the occupant of slot `i` out, leaving `None`.
fn take_slot<T>(v: &mut Vec<Option<T>>, i: usize) -> (result: T)
    requires
        i < old(v)@.len(),
        old(v)@[i as int] is Some,
    ensures
        final(v)@ == old(v)@.update(i as int, None),
        old(v)@[i as int] == Some(result),
{
    v.push(None);
    let slot = v.swap_remove(i);
    proof {
        assert(v@ =~= old(v)@.update(i as int, None));
    }
    match slot {
        Some(t) => t,
        None => vstd::pervasive::unreached(),
    }
}

proof fn lemma_keep_node_entries_elements(list: Seq<(NodeID, EdgeID)>, edges: Seq<Option<Edge>>)
    ensures
        forall|i: int|
            0 <= i < spec_keep_node_entries(list, edges).len() ==> spec_edge_present(
                edges,
                (#[trigger] spec_keep_node_entries(list, edges)[i]).1,
            ),
    decreases list.len(),
{
    if list.len() > 0 {
        lemma_keep_node_entries_elements(list.drop_last(), edges);
        assert forall|i: int| 0 <= i < spec_keep_node_entries(list, edges).len() implies
        spec_edge_present(edges, (#[trigger] spec_keep_node_entries(list, edges)[i]).1) by {
            let prefix = spec_keep_node_entries(list.drop_last(), edges);
            if i < prefix.len() {
                assert(spec_keep_node_entries(list, edges)[i] == prefix[i]);
            } else {
                assert(spec_keep_node_entries(list, edges)[i] == list.last());
            }
        }
    }
}

impl Graph {
    /// The structural soundness of one edge against this graph's intersections.
    pub open spec fn edge_ok(self, e: Edge) -> bool {
        &&& e.src.0 < self.intersections@.len()
        &&& self.intersections@[e.src.0 as int] is Some
        &&& e.dst.0 < self.intersections@.len()
        &&& self.intersections@[e.dst.0 as int] is Some
        &&& e.linestring@.len() >= 2
        &&& e.linestring@[0] == (self.intersections@[e.src.0 as int]->0).point
        &&& e.linestring@[e.linestring@.len() - 1] == (self.intersections@[e.dst.0 as int]->0).point
        &&& (self.intersections@[e.src.0 as int]->0).edges@.contains(e.id)
        &&& (self.intersections@[e.dst.0 as int]->0).edges@.contains(e.id)
    }

    /// The structural soundness of one intersection against this graph's edges.
    pub open spec fn intersection_ok(self, inter: Intersection) -> bool {
        &&& inter.edges@.len() >= 1
        &&& forall|k: int|
            0 <= k < inter.edges@.len() ==> {
                let e = #[trigger] inter.edges@[k];
                &&& e.0 < self.edges@.len()
                &&& self.edges@[e.0 as int] is Some
                &&& ((self.edges@[e.0 as int]->0).src == inter.id || (self.edges@[e.0 as int]->0).dst == inter.id)
            }
    }

    /// A consistent graph: every live slot holds a record carrying its own
    /// index as its ID, edges and intersections reference each other both
    /// ways, no intersection is isolated, and the node index only names live
    /// edges.
    pub open spec fn wf(self) -> bool {
        &&& forall|j: int|
            0 <= j < self.edges@.len() && self.edges@[j] is Some ==> (#[trigger] (
            self.edges@[j]->0)).id.0 == j && self.edge_ok(self.edges@[j]->0)
        &&& forall|j: int|
            0 <= j < self.intersections@.len() && self.intersections@[j] is Some ==> (#[trigger] (
            self.intersections@[j]->0)).id.0 == j && self.intersection_ok(self.intersections@[j]->0)
        &&& forall|k: int|
            0 <= k < self.node_to_edge@.len() ==> spec_edge_present(
                self.edges@,
                (#[trigger] self.node_to_edge@[k]).1,
            )
    }

    /// This removes the specified edges. Any intersections without any
    /// surviving edges are also removed, and the node index keeps only
    /// entries whose edge survives.
    pub fn remove_edges(&mut self, remove: Vec<EdgeID>)
        requires
            old(self).wf(),
            forall|i: int|
                0 <= i < remove@.len() ==> spec_edge_present(
                    old(self).edges@,
                    #[trigger] remove@[i],
                ),
        ensures
            final(self).wf(),
            final(self).edges@.len() == old(self).edges@.len(),
            forall|j: int|
                0 <= j < old(self).edges@.len() ==> ((#[trigger] final(self).edges@[j]) is None
                    <==> (spec_removed(remove@, j) || old(self).edges@[j] is None)),
            forall|j: int|
                0 <= j < old(self).edges@.len() && !spec_removed(remove@, j)
                    ==> #[trigger] final(self).edges@[j] == old(self).edges@[j],
            final(self).intersections@.len() == old(self).intersections@.len(),
            forall|j: int|
                0 <= j < old(self).intersections@.len() ==> {
                    let before = #[trigger] old(self).intersections@[j];
                    let after = final(self).intersections@[j];
                    match before {
                        None => after is None,
                        Some(inter) => {
                            let kept = spec_keep_edges(inter.edges@, final(self).edges@);
                            if kept.len() == 0 {
                                after is None
                            } else {
                                &&& after is Some
                                &&& (after->0).id == inter.id
                                &&& (after->0).osm_node == inter.osm_node
                                &&& (after->0).point == inter.point
                                &&& (after->0).edges@ == kept
                            }
                        },
                    }
                },
            final(self).node_to_edge@ == spec_keep_node_entries(
                old(self).node_to_edge@,
                final(self).edges@,
            ),
    {
        // Free the named edge slots.
        let nr = remove.len();
        let mut r: usize = 0;
        while r < nr
            invariant
                nr == remove@.len(),
                r <= nr,
                self.intersections == old(self).intersections,
                self.node_to_edge == old(self).node_to_edge,
                self.edges@.len() == old(self).edges@.len(),
                forall|i: int|
                    0 <= i < remove@.len() ==> spec_edge_present(
                        old(self).edges@,
                        #[trigger] remove@[i],
                    ),
                forall|j: int|
                    0 <= j < self.edges@.len() ==> #[trigger] self.edges@[j] == (if spec_removed(
                        remove@.subrange(0, r as int),
                        j,
                    ) {
                        None
                    } else {
                        old(self).edges@[j]
                    }),
            decreases nr - r,
        {
            let e = remove[r];
            self.edges[e.0] = None;
            proof {
                assert forall|j: int| 0 <= j < self.edges@.len() implies #[trigger] self.edges@[j]
                    == (if spec_removed(remove@.subrange(0, r as int + 1), j) {
                    None
                } else {
                    old(self).edges@[j]
                }) by {
                    let pre = remove@.subrange(0, r as int);
                    let cur = remove@.subrange(0, r as int + 1);
                    if spec_removed(pre, j) {
                        let k = choose|k: int| 0 <= k < pre.len() && pre[k].0 == j;
                        assert(cur[k].0 == j);
                    } else if j == e.0 {
                        assert(cur[r as int].0 == j);
                    } else if spec_removed(cur, j) {
                        let k = choose|k: int| 0 <= k < cur.len() && cur[k].0 == j;
                        assert(k < r as int ==> pre[k].0 == j);
                    }
                }
            }
            r = r + 1;
        }
        proof {
            assert(remove@.subrange(0, nr as int) =~= remove@);
        }

        // Restrict every incident list to surviving edges; drop intersections
        // that end up isolated.
        let n_int = self.intersections.len();
        let mut new_inters: Vec<Option<Intersection>> = Vec::new();
        let mut j: usize = 0;
        while j < n_int
            invariant
                n_int == self.intersections@.len(),
                j <= n_int,
                self.intersections == old(self).intersections,
                new_inters@.len() == j,
                forall|w: int|
                    0 <= w < j ==> {
                        let before = #[trigger] self.intersections@[w];
                        let after = new_inters@[w];
                        match before {
                            None => after is None,
                            Some(inter) => {
                                let kept = spec_keep_edges(inter.edges@, self.edges@);
                                if kept.len() == 0 {
                                    after is None
                                } else {
                                    &&& after is Some
                                    &&& (after->0).id == inter.id
                                    &&& (after->0).osm_node == inter.osm_node
                                    &&& (after->0).point == inter.point
                                    &&& (after->0).edges@ == kept
                                }
                            },
                        }
                    },
            decreases n_int - j,
        {
            match &self.intersections[j] {
                None => {
                    new_inters.push(None);
                },
                Some(inter) => {
                    let m = inter.edges.len();
                    let mut kept: Vec<EdgeID> = Vec::new();
                    let mut k: usize = 0;
                    while k < m
                        invariant
                            m == inter.edges@.len(),
                            k <= m,
                            kept@ == spec_keep_edges(inter.edges@.subrange(0, k as int), self.edges@),
                        decreases m - k,
                    {
                        let ghost pre = inter.edges@.subrange(0, k as int);
                        let eid = inter.edges[k];
                        if eid.0 < self.edges.len() && self.edges[eid.0].is_some() {
                            kept.push(eid);
                        }
                        proof {
                            let cur = inter.edges@.subrange(0, k as int + 1);
                            assert(cur.drop_last() =~= pre);
                            assert(cur.last() == inter.edges@[k as int]);
                            assert(kept@ =~= spec_keep_edges(cur, self.edges@));
                        }
                        k = k + 1;
                    }
                    proof {
                        assert(inter.edges@.subrange(0, m as int) =~= inter.edges@);
                    }
                    if kept.len() == 0 {
                        new_inters.push(None);
                    } else {
                        new_inters.push(
                            Some(
                                Intersection {
                                    id: inter.id,
                                    edges: kept,
                                    osm_node: inter.osm_node,
                                    point: inter.point,
                                },
                            ),
                        );
                    }
                },
            }
            j = j + 1;
        }
        self.intersections = new_inters;

        // Keep only node entries whose edge survived.
        let n_nodes = self.node_to_edge.len();
        let mut new_nodes: Vec<(NodeID, EdgeID)> = Vec::new();
        let mut k: usize = 0;
        while k < n_nodes
            invariant
                n_nodes == self.node_to_edge@.len(),
                k <= n_nodes,
                self.node_to_edge == old(self).node_to_edge,
                new_nodes@ == spec_keep_node_entries(
                    self.node_to_edge@.subrange(0, k as int),
                    self.edges@,
                ),
            decreases n_nodes - k,
        {
            let ghost pre = self.node_to_edge@.subrange(0, k as int);
            let entry = self.node_to_edge[k];
            if entry.1.0 < self.edges.len() && self.edges[entry.1.0].is_some() {
                new_nodes.push(entry);
            }
            proof {
                let cur = self.node_to_edge@.subrange(0, k as int + 1);
                assert(cur.drop_last() =~= pre);
                assert(cur.last() == self.node_to_edge@[k as int]);
                assert(new_nodes@ =~= spec_keep_node_entries(cur, self.edges@));
            }
            k = k + 1;
        }
        proof {
            assert(self.node_to_edge@.subrange(0, n_nodes as int) =~= self.node_to_edge@);
        }
        self.node_to_edge = new_nodes;

        proof {
            lemma_keep_node_entries_elements(old(self).node_to_edge@, self.edges@);
            // Surviving edges still see live endpoints carrying them, and kept
            // incident lists still point both ways.
            assert forall|j2: int|
                0 <= j2 < self.edges@.len() && self.edges@[j2] is Some implies (#[trigger] (
            self.edges@[j2]->0)).id.0 == j2 && self.edge_ok(self.edges@[j2]->0) by {
                let e = self.edges@[j2]->0;
                assert(old(self).edges@[j2] == self.edges@[j2]);
                assert(old(self).edge_ok(e));
                let src_old = old(self).intersections@[e.src.0 as int]->0;
                lemma_keep_edges_contains(src_old.edges@, self.edges@, e.id);
                let dst_old = old(self).intersections@[e.dst.0 as int]->0;
                lemma_keep_edges_contains(dst_old.edges@, self.edges@, e.id);
            }
            assert forall|j2: int|
                0 <= j2 < self.intersections@.len() && self.intersections@[j2] is Some implies (
            #[trigger] (self.intersections@[j2]->0)).id.0 == j2 && self.intersection_ok(
                self.intersections@[j2]->0,
            ) by {
                let inter = self.intersections@[j2]->0;
                let before = old(self).intersections@[j2]->0;
                assert(old(self).intersection_ok(before));
                lemma_keep_edges_elements(before.edges@, self.edges@);
                assert forall|k2: int| 0 <= k2 < inter.edges@.len() implies {
                    let e = #[trigger] inter.edges@[k2];
                    &&& e.0 < self.edges@.len()
                    &&& self.edges@[e.0 as int] is Some
                    &&& ((self.edges@[e.0 as int]->0).src == inter.id || (self.edges@[e.0 as int]->0).dst == inter.id)
                } by {
                    let e = inter.edges@[k2];
                    assert(spec_edge_present(self.edges@, e) && before.edges@.contains(e));
                    assert(!spec_removed(remove@, e.0 as int));
                    assert(self.edges@[e.0 as int] == old(self).edges@[e.0 as int]);
                }
            }
        }
    }

    /// EdgeID and IntersectionID are normally opaque, but after calling this,
    /// the IDs are dense indices `0..E` and `0..I`, assigned in ascending
    /// order of the original IDs, with every cross-reference rewritten.
    #[verifier::rlimit(100)]
    pub fn compact_ids(&mut self)
        requires
            old(self).wf(),
        ensures
            final(self).wf(),
            final(self).edges@.len() == rank(old(self).edges@, old(self).edges@.len() as int),
            forall|q: int|
                0 <= q < final(self).edges@.len() ==> (#[trigger] final(self).edges@[q]) is Some,
            final(self).intersections@.len() == rank(
                old(self).intersections@,
                old(self).intersections@.len() as int,
            ),
            forall|q: int|
                0 <= q < final(self).intersections@.len()
                    ==> (#[trigger] final(self).intersections@[q]) is Some,
            forall|p: int|
                0 <= p < old(self).edges@.len() && old(self).edges@[p] is Some ==> {
                    let q = rank(old(self).edges@, p);
                    &&& 0 <= q < final(self).edges@.len()
                    &&& edge_compacted(
                        old(self).edges@,
                        old(self).intersections@,
                        (#[trigger] old(self).edges@[p])->0,
                        final(self).edges@[q]->0,
                    )
                },
            forall|p: int|
                0 <= p < old(self).intersections@.len() && old(self).intersections@[p] is Some
                    ==> {
                    let q = rank(old(self).intersections@, p);
                    &&& 0 <= q < final(self).intersections@.len()
                    &&& inter_compacted(
                        old(self).edges@,
                        old(self).intersections@,
                        (#[trigger] old(self).intersections@[p])->0,
                        final(self).intersections@[q]->0,
                    )
                },
            final(self).node_to_edge@ == old(self).node_to_edge@.map_values(
                |pr: (NodeID, EdgeID)| (pr.0, remap_edge_id(old(self).edges@, pr.1)),
            ),
    {
        let ghost edges0 = self.edges@;
        let ghost inters0 = self.intersections@;

        // First assign dense IDs, in ascending original order.
        let ne = self.edges.len();
        let mut emap: Vec<Option<usize>> = Vec::new();
        let mut ecount: usize = 0;
        let mut j: usize = 0;
        while j < ne
            invariant
                *self == *old(self),
                edges0 == self.edges@,
                ne == edges0.len(),
                j <= ne,
                emap@.len() == j,
                ecount == rank(edges0, j as int),
                forall|p: int|
                    0 <= p < j ==> #[trigger] emap@[p] == (if edges0[p] is Some {
                        Some(rank(edges0, p) as usize)
                    } else {
                        None::<usize>
                    }),
            decreases ne - j,
        {
            proof {
                lemma_rank_le(edges0, 0, j as int);
            }
            if self.edges[j].is_some() {
                emap.push(Some(ecount));
                ecount = ecount + 1;
            } else {
                emap.push(None);
            }
            j = j + 1;
        }

        let ni = self.intersections.len();
        let mut imap: Vec<Option<usize>> = Vec::new();
        let mut icount: usize = 0;
        let mut j2: usize = 0;
        while j2 < ni
            invariant
                *self == *old(self),
                inters0 == self.intersections@,
                ni == inters0.len(),
                j2 <= ni,
                imap@.len() == j2,
                icount == rank(inters0, j2 as int),
                forall|p: int|
                    0 <= p < j2 ==> #[trigger] imap@[p] == (if inters0[p] is Some {
                        Some(rank(inters0, p) as usize)
                    } else {
                        None::<usize>
                    }),
            decreases ni - j2,
        {
            proof {
                lemma_rank_le(inters0, 0, j2 as int);
            }
            if self.intersections[j2].is_some() {
                imap.push(Some(icount));
                icount = icount + 1;
            } else {
                imap.push(None);
            }
            j2 = j2 + 1;
        }

        // Rebuild the edges densely, rewriting src and dst.
        let mut new_edges: Vec<Option<Edge>> = Vec::new();
        let mut j3: usize = 0;
        while j3 < ne
            invariant
                old(self).wf(),
                edges0 == old(self).edges@,
                inters0 == old(self).intersections@,
                self.intersections@ == inters0,
                self.node_to_edge@ == old(self).node_to_edge@,
                ne == edges0.len(),
                self.edges@.len() == ne,
                j3 <= ne,
                forall|p: int| j3 <= p < ne ==> self.edges@[p] == edges0[p],
                ni == inters0.len(),
                imap@.len() == ni,
                icount == rank(inters0, ni as int),
                forall|p: int|
                    0 <= p < ni ==> #[trigger] imap@[p] == (if inters0[p] is Some {
                        Some(rank(inters0, p) as usize)
                    } else {
                        None::<usize>
                    }),
                new_edges@.len() == rank(edges0, j3 as int),
                forall|q: int|
                    0 <= q < new_edges@.len() ==> (#[trigger] new_edges@[q]) is Some,
                forall|p: int|
                    0 <= p < j3 && edges0[p] is Some ==> {
                        let q = rank(edges0, p);
                        &&& 0 <= q < new_edges@.len()
                        &&& edge_compacted(
                            edges0,
                            inters0,
                            (#[trigger] edges0[p])->0,
                            new_edges@[q]->0,
                        )
                    },
            decreases ne - j3,
        {
            proof {
                lemma_rank_le(edges0, 0, j3 as int);
            }
            if self.edges[j3].is_some() {
                let e = take_slot(&mut self.edges, j3);
                proof {
                    assert(old(self).edges@[j3 as int]->0 == e);
                    assert(e.id.0 == j3 && old(self).edge_ok(e));
                    assert(imap@[e.src.0 as int] == Some(rank(inters0, e.src.0 as int) as usize));
                    assert(imap@[e.dst.0 as int] == Some(rank(inters0, e.dst.0 as int) as usize));
                }
                let src_new = match imap[e.src.0] {
                    Some(x) => x,
                    None => vstd::pervasive::unreached(),
                };
                let dst_new = match imap[e.dst.0] {
                    Some(x) => x,
                    None => vstd::pervasive::unreached(),
                };
                let new_id = new_edges.len();
                new_edges.push(
                    Some(
                        Edge {
                            id: EdgeID(new_id),
                            src: IntersectionID(src_new),
                            dst: IntersectionID(dst_new),
                            osm_way: e.osm_way,
                            osm_node1: e.osm_node1,
                            osm_node2: e.osm_node2,
                            osm_tags: e.osm_tags,
                            linestring: e.linestring,
                        },
                    ),
                );
            }
            j3 = j3 + 1;
        }

        // Rebuild the intersections densely, rewriting their incident lists.
        proof {
            assert forall|p: int|
                0 <= p < self.intersections@.len() && self.intersections@[p] is Some implies ((
            #[trigger] self.intersections@[p])->0).id.0 == p by {
                assert(old(self).intersections@[p]->0 == self.intersections@[p]->0);
            }
            assert forall|p: int, w: int|
                #![trigger (self.intersections@[p]->0).edges@[w]]
                0 <= p < self.intersections@.len() && self.intersections@[p] is Some && 0 <= w < (
                self.intersections@[p]->0).edges@.len() implies spec_edge_present(
                edges0,
                (self.intersections@[p]->0).edges@[w],
            ) by {
                let inter = old(self).intersections@[p]->0;
                assert(old(self).intersection_ok(inter));
                assert(inter.edges@[w].0 < edges0.len() && edges0[inter.edges@[w].0 as int] is Some);
            }
        }
        let new_inters = compact_intersections(&mut self.intersections, &emap, Ghost(edges0));

        // Rewrite the node index through the edge mapping.
        let nn = self.node_to_edge.len();
        let mut new_nodes: Vec<(NodeID, EdgeID)> = Vec::new();
        let mut k2: usize = 0;
        while k2 < nn
            invariant
                old(self).wf(),
                edges0 == old(self).edges@,
                self.node_to_edge@ == old(self).node_to_edge@,
                nn == self.node_to_edge@.len(),
                k2 <= nn,
                new_nodes@.len() == k2,
                ne == edges0.len(),
                emap@.len() == ne,
                forall|p: int|
                    0 <= p < ne ==> #[trigger] emap@[p] == (if edges0[p] is Some {
                        Some(rank(edges0, p) as usize)
                    } else {
                        None::<usize>
                    }),
                forall|w: int|
                    0 <= w < k2 ==> #[trigger] new_nodes@[w] == (
                        old(self).node_to_edge@[w].0,
                        remap_edge_id(edges0, old(self).node_to_edge@[w].1),
                    ),
            decreases nn - k2,
        {
            let entry = self.node_to_edge[k2];
            proof {
                assert(spec_edge_present(edges0, old(self).node_to_edge@[k2 as int].1));
                assert(emap@[entry.1.0 as int] == Some(rank(edges0, entry.1.0 as int) as usize));
            }
            let x = match emap[entry.1.0] {
                Some(x) => x,
                None => vstd::pervasive::unreached(),
            };
            new_nodes.push((entry.0, EdgeID(x)));
            k2 = k2 + 1;
        }

        self.edges = new_edges;
        self.intersections = new_inters;
        self.node_to_edge = new_nodes;

        proof {
            assert(self.node_to_edge@ =~= old(self).node_to_edge@.map_values(
                |pr: (NodeID, EdgeID)| (pr.0, remap_edge_id(old(self).edges@, pr.1)),
            ));
            // Every dense edge slot carries its own index and sound
            // cross-references.
            assert forall|q: int|
                0 <= q < self.edges@.len() && self.edges@[q] is Some implies (#[trigger] (
            self.edges@[q]->0)).id.0 == q && self.edge_ok(self.edges@[q]->0) by {
                lemma_rank_surjective_upto(edges0, ne as int, q);
                let p = choose|p: int|
                    0 <= p < ne as int && (#[trigger] edges0[p]) is Some && rank(edges0, p) == q;
                assert(edge_compacted(edges0, inters0, edges0[p]->0, self.edges@[q]->0));
                let e = edges0[p]->0;
                let e2 = self.edges@[q]->0;
                assert(edges0[p]->0 == e && old(self).edge_ok(e) && e.id.0 == p);
                lemma_rank_le(edges0, 0, p);
                // src and dst land on live dense intersections with the same points.
                let sp = e.src.0 as int;
                lemma_rank_le(inters0, 0, sp);
                lemma_rank_le(inters0, sp + 1, ni as int);
                assert(inters0[sp]->0 == inters0[sp]->0 && old(self).intersection_ok(
                    inters0[sp]->0,
                ));
                let i2s = self.intersections@[rank(inters0, sp)]->0;
                assert(inter_compacted(edges0, inters0, inters0[sp]->0, i2s));
                let old_list_s = (inters0[sp]->0).edges@;
                let ws = choose|ws: int| 0 <= ws < old_list_s.len() && old_list_s[ws] == e.id;
                assert(i2s.edges@[ws] == remap_edge_id(edges0, e.id));
                assert(i2s.edges@.contains(e2.id));
                let dp = e.dst.0 as int;
                lemma_rank_le(inters0, 0, dp);
                lemma_rank_le(inters0, dp + 1, ni as int);
                assert(old(self).intersection_ok(inters0[dp]->0));
                let i2d = self.intersections@[rank(inters0, dp)]->0;
                assert(inter_compacted(edges0, inters0, inters0[dp]->0, i2d));
                let old_list_d = (inters0[dp]->0).edges@;
                let wd = choose|wd: int| 0 <= wd < old_list_d.len() && old_list_d[wd] == e.id;
                assert(i2d.edges@[wd] == remap_edge_id(edges0, e.id));
                assert(i2d.edges@.contains(e2.id));
            }
            // Every dense intersection slot carries its own index and a sound
            // incident list.
            assert forall|q: int|
                0 <= q < self.intersections@.len() && self.intersections@[q] is Some implies (
            #[trigger] (self.intersections@[q]->0)).id.0 == q && self.intersection_ok(
                self.intersections@[q]->0,
            ) by {
                lemma_rank_surjective_upto(inters0, ni as int, q);
                let p = choose|p: int|
                    0 <= p < ni as int && (#[trigger] inters0[p]) is Some && rank(inters0, p)
                        == q;
                assert(inter_compacted(edges0, inters0, inters0[p]->0, self.intersections@[q]->0));
                let inter = inters0[p]->0;
                let i2 = self.intersections@[q]->0;
                assert(inters0[p]->0 == inter && old(self).intersection_ok(inter) && inter.id.0
                    == p);
                lemma_rank_le(inters0, 0, p);
                assert forall|w: int| 0 <= w < i2.edges@.len() implies {
                    let e = #[trigger] i2.edges@[w];
                    &&& e.0 < self.edges@.len()
                    &&& self.edges@[e.0 as int] is Some
                    &&& ((self.edges@[e.0 as int]->0).src == i2.id || (self.edges@[e.0 as int]->0).dst
                        == i2.id)
                } by {
                    let old_e = inter.edges@[w];
                    assert(i2.edges@[w] == remap_edge_id(edges0, old_e));
                    let ep = old_e.0 as int;
                    assert(edges0[ep] is Some);
                    lemma_rank_le(edges0, 0, ep);
                    lemma_rank_le(edges0, ep + 1, ne as int);
                    let e_old = edges0[ep]->0;
                    assert(edges0[ep]->0 == e_old && old(self).edge_ok(e_old));
                    assert(edge_compacted(edges0, inters0, e_old, self.edges@[rank(edges0, ep)]->0));
                }
            }
            // The rewritten node index names live dense edges only.
            assert forall|w: int| 0 <= w < self.node_to_edge@.len() implies spec_edge_present(
                self.edges@,
                (#[trigger] self.node_to_edge@[w]).1,
            ) by {
                assert(spec_edge_present(edges0, old(self).node_to_edge@[w].1));
                let ep = old(self).node_to_edge@[w].1.0 as int;
                lemma_rank_le(edges0, 0, ep);
                lemma_rank_le(edges0, ep + 1, ne as int);
            }
        }
    }
}


/// Note this doesn't expose everything a raw feed carries (relations,
/// versions); it hands on decoded nodes and ways, already reduced to plain
/// values.
pub trait OsmReader {
    fn node(&mut self, id: NodeID, pt: Coord, tags: Tags);

    fn way(
        &mut self,
        id: WayID,
        node_ids: &Vec<NodeID>,
        node_mapping: &HashMap<i64, Coord>,
        tags: &Tags,
    );
}

/// Ignores everything.
pub struct NullReader;

impl OsmReader for NullReader {
    fn node(&mut self, _id: NodeID, _pt: Coord, _tags: Tags) {
    }

    fn way(
        &mut self,
        _id: WayID,
        _node_ids: &Vec<NodeID>,
        _node_mapping: &HashMap<i64, Coord>,
        _tags: &Tags,
    ) {
    }
}

/// The coordinate recorded for node `n`.
fn lookup_pt(node_mapping: &HashMap<i64, Coord>, n: NodeID) -> (result: Coord)
    requires
        node_mapping@.contains_key(n.0),
    ensures
        result == node_mapping@[n.0],
{
    match node_mapping.get(&n.0) {
        Some(c) => *c,
        None => vstd::pervasive::unreached(),
    }
}

/// The lookup table from raw node ids to created intersection slots is sound
/// against the slot vector and the coordinate table.
pub open spec fn nti_ok(
    inters: Seq<Option<Intersection>>,
    nti: Map<i64, usize>,
    node_mapping: Map<i64, Coord>,
) -> bool {
    &&& forall|k: i64|
        #[trigger] nti.contains_key(k) ==> {
            let i = nti[k];
            &&& i < inters.len()
            &&& inters[i as int] is Some
            &&& (inters[i as int]->0).osm_node.0 == k
            &&& (inters[i as int]->0).id.0 == i
            &&& node_mapping.contains_key(k)
            &&& (inters[i as int]->0).point == node_mapping[k]
        }
    &&& forall|j: int|
        0 <= j < inters.len() && inters[j] is Some ==> nti.contains_key(
            ((#[trigger] inters[j])->0).osm_node.0,
        ) && nti[(inters[j]->0).osm_node.0] == j
}

/// Reuse the intersection already created for raw node `n`, or create one at
/// `point` with a fresh sequential ID and an empty incident list.
fn get_or_create_intersection(
    inters: &mut Vec<Option<Intersection>>,
    nti: &mut HashMap<i64, usize>,
    n: NodeID,
    point: Coord,
    Ghost(node_mapping): Ghost<Map<i64, Coord>>,
) -> (result: usize)
    requires
        nti_ok(old(inters)@, old(nti)@, node_mapping),
        node_mapping.contains_key(n.0),
        point == node_mapping[n.0],
    ensures
        nti_ok(final(inters)@, final(nti)@, node_mapping),
        final(nti)@ == old(nti)@.insert(n.0, result),
        result < final(inters)@.len(),
        old(inters)@.len() <= final(inters)@.len(),
        forall|j: int| 0 <= j < old(inters)@.len() ==> final(inters)@[j] == old(inters)@[j],
        final(inters)@[result as int] is Some,
        (final(inters)@[result as int]->0).osm_node == n,
        (final(inters)@[result as int]->0).id.0 == result,
        (final(inters)@[result as int]->0).point == point,
        old(nti)@.contains_key(n.0) ==> (final(inters)@ == old(inters)@ && result == old(
            nti,
        )@[n.0]),
        !old(nti)@.contains_key(n.0) ==> (final(inters)@.len() == old(inters)@.len() + 1 && result
            == old(inters)@.len() && (final(inters)@[result as int]->0).edges@.len() == 0),
{
    let existing = match nti.get(&n.0) {
        Some(i) => Some(*i),
        None => None,
    };
    match existing {
        Some(i) => {
            let _ = nti.insert(n.0, i);
            proof {
                assert(final(nti)@ =~= old(nti)@.insert(n.0, i));
            }
            i
        },
        None => {
            let i = inters.len();
            inters.push(
                Some(
                    Intersection {
                        id: IntersectionID(i),
                        edges: Vec::new(),
                        osm_node: n,
                        point,
                    },
                ),
            );
            let _ = nti.insert(n.0, i);
            i
        },
    }
}

/// Append `e` to the incident list of the intersection in slot `i`.
fn push_incident(inters: &mut Vec<Option<Intersection>>, i: usize, e: EdgeID)
    requires
        i < old(inters)@.len(),
        old(inters)@[i as int] is Some,
    ensures
        final(inters)@.len() == old(inters)@.len(),
        forall|j: int|
            0 <= j < old(inters)@.len() && j != i ==> final(inters)@[j] == old(inters)@[j],
        final(inters)@[i as int] is Some,
        (final(inters)@[i as int]->0).id == (old(inters)@[i as int]->0).id,
        (final(inters)@[i as int]->0).osm_node == (old(inters)@[i as int]->0).osm_node,
        (final(inters)@[i as int]->0).point == (old(inters)@[i as int]->0).point,
        (final(inters)@[i as int]->0).edges@ == (old(inters)@[i as int]->0).edges@.push(e),
{
    let mut inter = take_slot(inters, i);
    inter.edges.push(e);
    inters[i] = Some(inter);
}

/// How many entries of `nodes` name the raw node `n`.
pub open spec fn count_in_nodes(nodes: Seq<NodeID>, n: i64) -> int
    decreases nodes.len(),
{
    if nodes.len() == 0 {
        0
    } else {
        count_in_nodes(nodes.drop_last(), n) + (if nodes.last().0 == n {
            1int
        } else {
            0int
        })
    }
}

/// How many times the raw node `n` is referenced across all ways, multiple
/// uses within one way counted separately.
pub open spec fn spec_ref_count(ways: Seq<Way>, n: i64) -> int
    decreases ways.len(),
{
    if ways.len() == 0 {
        0
    } else {
        spec_ref_count(ways.drop_last(), n) + count_in_nodes(ways.last().node_ids@, n)
    }
}

/// Occurrence counts never go negative.
proof fn lemma_counts_nonneg(ways: Seq<Way>, nodes: Seq<NodeID>, n: i64)
    ensures
        count_in_nodes(nodes, n) >= 0,
        spec_ref_count(ways, n) >= 0,
    decreases ways.len(), nodes.len(),
{
    if nodes.len() > 0 {
        lemma_counts_nonneg(ways, nodes.drop_last(), n);
    }
    if ways.len() > 0 {
        lemma_counts_nonneg(ways.drop_last(), ways.last().node_ids@, n);
    }
}

/// `x` clamped to what a machine word holds.
pub open spec fn sat(x: int) -> int {
    if x > usize::MAX {
        usize::MAX as int
    } else {
        x
    }
}

/// The counter table models the reference counts over `ways`, saturated at
/// the machine bound: since the junction test only asks whether a node is
/// referenced more than once, saturation never changes it.
pub open spec fn counter_ok(counter: Map<i64, usize>, ways: Seq<Way>) -> bool {
    forall|n: i64|
        {
            &&& (#[trigger] counter.contains_key(n) ==> counter[n] == sat(
                spec_ref_count(ways, n),
            ))
            &&& (!counter.contains_key(n) ==> spec_ref_count(ways, n) == 0)
        }
}

/// The counter table models the reference counts over the first `w` ways and
/// the first `k` nodes of way `w`, saturated at the machine bound.
pub open spec fn counter_partial_ok(counter: Map<i64, usize>, ways: Seq<Way>, w: int, k: int) -> bool {
    forall|n: i64|
        {
            let total = spec_ref_count(ways.subrange(0, w), n) + count_in_nodes(
                ways[w].node_ids@.subrange(0, k),
                n,
            );
            &&& (#[trigger] counter.contains_key(n) ==> counter[n] == sat(total))
            &&& (!counter.contains_key(n) ==> total == 0)
        }
}

/// The edge `e` is the maximal split piece of way `wi` spanning the node run
/// `a..=b`: its provenance fields name that way and the run's boundary nodes,
/// its geometry is exactly the run's coordinates, its interior nodes are not
/// junctions, and each run boundary is a way endpoint or a junction.
pub open spec fn edge_matches_way(
    e: Edge,
    ways: Seq<Way>,
    wi: int,
    node_mapping: Map<i64, Coord>,
    a: int,
    b: int,
) -> bool {
    &&& 0 <= wi < ways.len()
    &&& 0 <= a < b < ways[wi].node_ids@.len()
    &&& e.osm_way == ways[wi].id
    &&& e.osm_tags.0@ == ways[wi].tags.0@
    &&& e.osm_node1 == ways[wi].node_ids@[a]
    &&& e.osm_node2 == ways[wi].node_ids@[b]
    &&& e.linestring@.len() == b - a + 1
    &&& forall|t: int|
        0 <= t <= b - a ==> e.linestring@[t] == node_mapping[(#[trigger] ways[wi].node_ids@[a + t]).0]
    &&& forall|t: int|
        a < t < b ==> spec_ref_count(ways, (#[trigger] ways[wi].node_ids@[t]).0) <= 1
    &&& (a == 0 || spec_ref_count(ways, ways[wi].node_ids@[a].0) > 1)
    &&& (b == ways[wi].node_ids@.len() - 1 || spec_ref_count(ways, ways[wi].node_ids@[b].0) > 1)
}

/// Every edge of the graph is a maximal split piece of some input way.
pub open spec fn edges_from_ways(
    edges: Seq<Option<Edge>>,
    ways: Seq<Way>,
    node_mapping: Map<i64, Coord>,
) -> bool {
    forall|j: int|
        0 <= j < edges.len() ==> (#[trigger] edges[j]) is Some && exists|wi: int, a: int, b: int|
            edge_matches_way(edges[j]->0, ways, wi, node_mapping, a, b)
}

/// The node index holds an entry for raw node `n`.
pub open spec fn node_indexed(entries: Seq<(NodeID, EdgeID)>, n: NodeID) -> bool {
    exists|m: int| 0 <= m < entries.len() && (#[trigger] entries[m]).0 == n
}

/// Appending an entry keeps every node already indexed.
proof fn lemma_node_indexed_push(entries: Seq<(NodeID, EdgeID)>, x: (NodeID, EdgeID), n: NodeID)
    requires
        node_indexed(entries, n),
    ensures
        node_indexed(entries.push(x), n),
{
    let m = choose|m: int| 0 <= m < entries.len() && entries[m].0 == n;
    assert(entries.push(x)[m].0 == n);
}

/// Appending an element keeps everything a sequence contains.
proof fn lemma_contains_push<T>(s: Seq<T>, x: T, y: T)
    requires
        s.contains(y),
    ensures
        s.push(x).contains(y),
{
    let i = choose|i: int| 0 <= i < s.len() && s[i] == y;
    assert(s.push(x)[i] == y);
}

/// Every way is non-trivial and every node it references has a coordinate.
pub open spec fn ways_ok(ways: Seq<Way>, node_mapping: Map<i64, Coord>) -> bool {
    &&& forall|i: int| 0 <= i < ways.len() ==> (#[trigger] ways[i]).node_ids@.len() >= 2
    &&& forall|i: int, k: int|
        #![trigger ways[i].node_ids@[k]]
        0 <= i < ways.len() && 0 <= k < ways[i].node_ids@.len() ==> node_mapping.contains_key(
            ways[i].node_ids@[k].0,
        )
}

/// The graph holds an intersection created for raw node `n`.
pub open spec fn has_intersection_for(g: Graph, n: NodeID) -> bool {
    exists|j: int|
        0 <= j < g.intersections@.len() && (#[trigger] g.intersections@[j]) is Some && (
        g.intersections@[j]->0).osm_node == n
}

/// Split each way into edges at true topological junctions: a node ends the
/// pending edge iff it is the first or last node of its way, or is referenced
/// more than once across all ways. Intersections are created lazily, one per
/// raw node, with dense sequential IDs; every node visited along an edge is
/// recorded in the node index.
#[verifier::rlimit(100)]
fn split_edges(node_mapping: &HashMap<i64, Coord>, ways: Vec<Way>) -> (result: Graph)
    requires
        ways_ok(ways@, node_mapping@),
    ensures
        result.wf(),
        forall|i: int|
            0 <= i < ways@.len() ==> has_intersection_for(result, (#[trigger] ways@[i]).node_ids@[0])
                && has_intersection_for(
                result,
                ways@[i].node_ids@[ways@[i].node_ids@.len() - 1],
            ),
        forall|i: int, k: int|
            #![trigger ways@[i].node_ids@[k]]
            0 <= i < ways@.len() && 0 <= k < ways@[i].node_ids@.len() && spec_ref_count(
                ways@,
                ways@[i].node_ids@[k].0,
            ) > 1 ==> has_intersection_for(result, ways@[i].node_ids@[k]),
        forall|j1: int, j2: int|
            0 <= j1 < j2 < result.intersections@.len() && result.intersections@[j1] is Some
                && result.intersections@[j2] is Some ==> ((#[trigger] result.intersections@[j1])->0).osm_node
                != ((#[trigger] result.intersections@[j2])->0).osm_node,
        edges_from_ways(result.edges@, ways@, node_mapping@),
        forall|i: int, k: int|
            #![trigger ways@[i].node_ids@[k]]
            0 <= i < ways@.len() && 0 <= k < ways@[i].node_ids@.len() ==> node_indexed(
                result.node_to_edge@,
                ways@[i].node_ids@[k],
            ),
{
    // Count how many times each node is referenced; counts saturate, which
    // leaves the junction test (more than one reference) unchanged.
    let mut node_counter: HashMap<i64, usize> = HashMap::new();
    let nw = ways.len();
    let mut w: usize = 0;
    while w < nw
        invariant
            nw == ways@.len(),
            w <= nw,
            counter_ok(node_counter@, ways@.subrange(0, w as int)),
        decreases nw - w,
    {
        let nn = ways[w].node_ids.len();
        let mut k: usize = 0;
        proof {
            assert forall|n: i64|
                {
                    let total = spec_ref_count(ways@.subrange(0, w as int), n) + count_in_nodes(
                        ways@[w as int].node_ids@.subrange(0, 0),
                        n,
                    );
                    &&& (#[trigger] node_counter@.contains_key(n) ==> node_counter@[n] == sat(
                        total,
                    ))
                    &&& (!node_counter@.contains_key(n) ==> total == 0)
                } by {
                assert(ways@[w as int].node_ids@.subrange(0, 0) =~= Seq::<NodeID>::empty());
            }
        }
        while k < nn
            invariant
                nw == ways@.len(),
                w < nw,
                k <= nn,
                nn == ways@[w as int].node_ids@.len(),
                counter_partial_ok(node_counter@, ways@, w as int, k as int),
            decreases nn - k,
        {
            let node = ways[w].node_ids[k];
            let ghost pre_counter = node_counter@;
            let c = match node_counter.get(&node.0) {
                Some(c) => *c,
                None => 0,
            };
            let c2 = if c < usize::MAX {
                c + 1
            } else {
                c
            };
            let _ = node_counter.insert(node.0, c2);
            proof {
                let ids = ways@[w as int].node_ids@;
                let prev = ids.subrange(0, k as int);
                let cur = ids.subrange(0, k as int + 1);
                assert(cur.drop_last() =~= prev);
                assert(cur.last() == ids[k as int]);
                assert forall|n: i64|
                    {
                        let total = spec_ref_count(ways@.subrange(0, w as int), n)
                            + count_in_nodes(cur, n);
                        &&& (#[trigger] node_counter@.contains_key(n) ==> node_counter@[n] == sat(
                            total,
                        ))
                        &&& (!node_counter@.contains_key(n) ==> total == 0)
                    } by {
                    lemma_counts_nonneg(ways@.subrange(0, w as int), prev, n);
                    if n == node.0 {
                        assert(count_in_nodes(cur, n) == count_in_nodes(prev, n) + 1);
                    } else {
                        assert(count_in_nodes(cur, n) == count_in_nodes(prev, n));
                        assert(node_counter@.contains_key(n) == pre_counter.contains_key(n));
                    }
                }
            }
            k = k + 1;
        }
        proof {
            let prev_ways = ways@.subrange(0, w as int);
            let cur_ways = ways@.subrange(0, w as int + 1);
            assert(cur_ways.drop_last() =~= prev_ways);
            assert(cur_ways.last() == ways@[w as int]);
            assert forall|n: i64|
                {
                    &&& (#[trigger] node_counter@.contains_key(n) ==> node_counter@[n] == sat(
                        spec_ref_count(cur_ways, n),
                    ))
                    &&& (!node_counter@.contains_key(n) ==> spec_ref_count(cur_ways, n) == 0)
                } by {
                assert(ways@[w as int].node_ids@.subrange(0, nn as int) =~= ways@[w as int].node_ids@);
            }
        }
        w = w + 1;
    }
    proof {
        assert(ways@.subrange(0, nw as int) =~= ways@);
    }

    let mut graph = Graph { edges: Vec::new(), intersections: Vec::new(), node_to_edge: Vec::new() };
    let mut nti: HashMap<i64, usize> = HashMap::new();

    let mut w2: usize = 0;
    while w2 < nw
        invariant
            nw == ways@.len(),
            ways_ok(ways@, node_mapping@),
            counter_ok(node_counter@, ways@),
            graph.wf(),
            nti_ok(graph.intersections@, nti@, node_mapping@),
            forall|i: int|
                0 <= i < w2 ==> nti@.contains_key((#[trigger] ways@[i]).node_ids@[0].0)
                    && nti@.contains_key(ways@[i].node_ids@[ways@[i].node_ids@.len() - 1].0),
            forall|i: int, k: int|
                #![trigger ways@[i].node_ids@[k]]
                0 <= i < w2 && 0 <= k < ways@[i].node_ids@.len() && spec_ref_count(
                    ways@,
                    ways@[i].node_ids@[k].0,
                ) > 1 ==> nti@.contains_key(ways@[i].node_ids@[k].0),
            edges_from_ways(graph.edges@, ways@, node_mapping@),
            forall|i: int, k: int|
                #![trigger ways@[i].node_ids@[k]]
                0 <= i < w2 && 0 <= k < ways@[i].node_ids@.len() ==> node_indexed(
                    graph.node_to_edge@,
                    ways@[i].node_ids@[k],
                ),
        decreases nw - w2,
    {
        let way = &ways[w2];
        let num_nodes = way.node_ids.len();
        proof {
            assert(ways@[w2 as int].node_ids@.len() >= 2);
            assert(node_mapping@.contains_key(ways@[w2 as int].node_ids@[0].0));
        }
        let mut node1 = way.node_ids[0];
        let mut pts: Vec<Coord> = Vec::new();
        let mut nodes: Vec<NodeID> = Vec::new();
        // The pending buffer always covers the node run starting here.
        let ghost mut run_start: int = 0;

        let mut idx: usize = 0;
        while idx < num_nodes
            invariant
                nw == ways@.len(),
                w2 < nw,
                way == &ways@[w2 as int],
                num_nodes == way.node_ids@.len(),
                num_nodes >= 2,
                idx <= num_nodes,
                ways_ok(ways@, node_mapping@),
                graph.wf(),
                nti_ok(graph.intersections@, nti@, node_mapping@),
                node_mapping@.contains_key(node1.0),
                idx > 0 ==> pts@.len() >= 1 && pts@[0] == node_mapping@[node1.0],
                idx == 0 ==> pts@.len() == 0 && node1 == ways@[w2 as int].node_ids@[0]
                    && run_start == 0,
                idx > 0 ==> {
                    &&& 0 <= run_start < idx
                    &&& node1 == way.node_ids@[run_start]
                    &&& pts@.len() == idx - run_start
                    &&& forall|t: int|
                        0 <= t < pts@.len() ==> pts@[t] == node_mapping@[(#[trigger] way.node_ids@[run_start + t]).0]
                    &&& forall|t: int|
                        run_start < t < idx ==> spec_ref_count(
                            ways@,
                            (#[trigger] way.node_ids@[t]).0,
                        ) <= 1
                    &&& (run_start == 0 || run_start == num_nodes - 1 || spec_ref_count(
                        ways@,
                        way.node_ids@[run_start].0,
                    ) > 1)
                },
                edges_from_ways(graph.edges@, ways@, node_mapping@),
                forall|i: int, k: int|
                    #![trigger ways@[i].node_ids@[k]]
                    0 <= i < w2 && 0 <= k < ways@[i].node_ids@.len() ==> node_indexed(
                        graph.node_to_edge@,
                        ways@[i].node_ids@[k],
                    ),
                forall|k: int|
                    #![trigger way.node_ids@[k]]
                    0 <= k < idx ==> (node_indexed(graph.node_to_edge@, way.node_ids@[k])
                        || nodes@.contains(way.node_ids@[k])),
                idx == num_nodes ==> nodes@.len() == 0,
                counter_ok(node_counter@, ways@),
                forall|i: int|
                    0 <= i < w2 ==> nti@.contains_key((#[trigger] ways@[i]).node_ids@[0].0)
                        && nti@.contains_key(ways@[i].node_ids@[ways@[i].node_ids@.len() - 1].0),
                forall|i: int, k: int|
                    #![trigger ways@[i].node_ids@[k]]
                    0 <= i < w2 && 0 <= k < ways@[i].node_ids@.len() && spec_ref_count(
                        ways@,
                        ways@[i].node_ids@[k].0,
                    ) > 1 ==> nti@.contains_key(ways@[i].node_ids@[k].0),
                forall|k: int|
                    #![trigger way.node_ids@[k]]
                    1 <= k < idx && spec_ref_count(ways@, way.node_ids@[k].0) > 1
                        ==> nti@.contains_key(way.node_ids@[k].0),
                idx >= 1 ==> (nti@.contains_key(way.node_ids@[0].0) || node1
                    == way.node_ids@[0]),
                idx == num_nodes ==> nti@.contains_key(way.node_ids@[0].0) && nti@.contains_key(
                    way.node_ids@[num_nodes - 1].0,
                ),
            decreases num_nodes - idx,
        {
            let node = way.node_ids[idx];
            proof {
                assert(node == ways@[w2 as int].node_ids@[idx as int]);
                assert(node_mapping@.contains_key(node.0));
            }
            pts.push(lookup_pt(node_mapping, node));
            let ghost nodes_pre = nodes@;
            nodes.push(node);
            proof {
                assert(nodes@.last() == node);
                assert(nodes@.contains(node));
                assert forall|k: int|
                    0 <= k <= idx && (node_indexed(graph.node_to_edge@, way.node_ids@[k])
                        || nodes_pre.contains(#[trigger] way.node_ids@[k])) implies (node_indexed(
                    graph.node_to_edge@,
                    way.node_ids@[k],
                ) || nodes@.contains(way.node_ids@[k])) by {
                    if nodes_pre.contains(way.node_ids@[k]) {
                        lemma_contains_push(nodes_pre, node, way.node_ids@[k]);
                    }
                }
            }
            let count = match node_counter.get(&node.0) {
                Some(c) => *c,
                None => 0,
            };
            proof {
                lemma_counts_nonneg(ways@, Seq::<NodeID>::empty(), node.0);
                assert((count > 1) == (spec_ref_count(ways@, node.0) > 1));
            }
            let is_endpoint = idx == 0 || idx == num_nodes - 1 || count > 1;
            if is_endpoint && pts.len() > 1 {
                let ghost g_pre = graph;
                let edge_idx = graph.edges.len();
                let edge_id = EdgeID(edge_idx);
                let i1 = get_or_create_intersection(
                    &mut graph.intersections,
                    &mut nti,
                    node1,
                    pts[0],
                    Ghost(node_mapping@),
                );
                let last_pt = pts[pts.len() - 1];
                let i2 = get_or_create_intersection(
                    &mut graph.intersections,
                    &mut nti,
                    node,
                    last_pt,
                    Ghost(node_mapping@),
                );
                let linestring = pts;
                graph.edges.push(
                    Some(
                        Edge {
                            id: edge_id,
                            src: IntersectionID(i1),
                            dst: IntersectionID(i2),
                            osm_way: way.id,
                            osm_node1: node1,
                            osm_node2: node,
                            osm_tags: way.tags.clone(),
                            linestring,
                        },
                    ),
                );
                push_incident(&mut graph.intersections, i1, edge_id);
                push_incident(&mut graph.intersections, i2, edge_id);
                // Record every node visited while accumulating this edge.
                let drained = nodes;
                nodes = Vec::new();
                let nd = drained.len();
                let mut d: usize = 0;
                let ghost g_mid = graph;
                while d < nd
                    invariant
                        nd == drained@.len(),
                        d <= nd,
                        w2 < nw,
                        nw == ways@.len(),
                        way == &ways@[w2 as int],
                        num_nodes == way.node_ids@.len(),
                        idx < num_nodes,
                        graph.edges == g_mid.edges,
                        graph.intersections == g_mid.intersections,
                        edge_idx < graph.edges@.len(),
                        graph.edges@[edge_idx as int] is Some,
                        graph.node_to_edge@.len() == g_mid.node_to_edge@.len() + d,
                        forall|j: int|
                            0 <= j < g_mid.node_to_edge@.len() ==> graph.node_to_edge@[j]
                                == g_mid.node_to_edge@[j],
                        forall|j: int|
                            g_mid.node_to_edge@.len() <= j < graph.node_to_edge@.len()
                                ==> (#[trigger] graph.node_to_edge@[j]).1 == edge_id,
                        forall|i: int, k: int|
                            #![trigger ways@[i].node_ids@[k]]
                            0 <= i < w2 && 0 <= k < ways@[i].node_ids@.len() ==> node_indexed(
                                graph.node_to_edge@,
                                ways@[i].node_ids@[k],
                            ),
                        forall|k: int|
                            #![trigger way.node_ids@[k]]
                            0 <= k <= idx ==> (node_indexed(graph.node_to_edge@, way.node_ids@[k])
                                || exists|d2: int|
                                d <= d2 < nd && drained@[d2] == way.node_ids@[k]),
                    decreases nd - d,
                {
                    let ghost entries_pre = graph.node_to_edge@;
                    graph.node_to_edge.push((drained[d], edge_id));
                    proof {
                        assert(graph.node_to_edge@.last() == (drained@[d as int], edge_id));
                        assert(node_indexed(graph.node_to_edge@, drained@[d as int]));
                        assert forall|i: int, k: int|
                            #![trigger ways@[i].node_ids@[k]]
                            0 <= i < w2 && 0 <= k < ways@[i].node_ids@.len() implies node_indexed(
                            graph.node_to_edge@,
                            ways@[i].node_ids@[k],
                        ) by {
                            lemma_node_indexed_push(
                                entries_pre,
                                (drained@[d as int], edge_id),
                                ways@[i].node_ids@[k],
                            );
                        }
                        assert forall|k: int|
                            #![trigger way.node_ids@[k]]
                            0 <= k <= idx implies (node_indexed(
                            graph.node_to_edge@,
                            way.node_ids@[k],
                        ) || exists|d2: int|
                            d + 1 <= d2 < nd && drained@[d2] == way.node_ids@[k]) by {
                            if node_indexed(entries_pre, way.node_ids@[k]) {
                                lemma_node_indexed_push(
                                    entries_pre,
                                    (drained@[d as int], edge_id),
                                    way.node_ids@[k],
                                );
                            } else {
                                let d2 = choose|d2: int|
                                    d <= d2 < nd && drained@[d2] == way.node_ids@[k];
                                if d2 == d {
                                    assert(node_indexed(graph.node_to_edge@, way.node_ids@[k]));
                                } else {
                                    assert(d + 1 <= d2 < nd && drained@[d2] == way.node_ids@[k]);
                                }
                            }
                        }
                    }
                    d = d + 1;
                }
                proof {
                    // Every edge is still a maximal split piece of its way:
                    // the fresh one spans exactly the pending node run.
                    assert forall|j: int|
                        0 <= j < graph.edges@.len() implies (#[trigger] graph.edges@[j]) is Some
                        && exists|wi: int, a: int, b: int|
                        edge_matches_way(graph.edges@[j]->0, ways@, wi, node_mapping@, a, b) by {
                        if j < edge_idx {
                            assert(graph.edges@[j] == g_pre.edges@[j]);
                            let (wi, a, b) = choose|wi: int, a: int, b: int|
                                edge_matches_way(g_pre.edges@[j]->0, ways@, wi, node_mapping@, a, b);
                            assert(edge_matches_way(
                                graph.edges@[j]->0,
                                ways@,
                                wi,
                                node_mapping@,
                                a,
                                b,
                            ));
                        } else {
                            assert(edge_matches_way(
                                graph.edges@[j]->0,
                                ways@,
                                w2 as int,
                                node_mapping@,
                                run_start,
                                idx as int,
                            ));
                        }
                    }
                    // The new edge and the two extended incident lists keep
                    // the graph consistent; nothing else changed.
                    assert forall|j: int|
                        0 <= j < graph.edges@.len() && graph.edges@[j] is Some implies (#[trigger] (
                    graph.edges@[j]->0)).id.0 == j && graph.edge_ok(graph.edges@[j]->0) by {
                        if j < edge_idx {
                            let e = graph.edges@[j]->0;
                            assert(g_pre.edges@[j] == graph.edges@[j]);
                            assert(g_pre.edge_ok(e));
                            let so = (g_pre.intersections@[e.src.0 as int]->0).edges@;
                            let wit = choose|wi: int| 0 <= wi < so.len() && so[wi] == e.id;
                            assert((graph.intersections@[e.src.0 as int]->0).edges@[wit] == e.id);
                            let dd = (g_pre.intersections@[e.dst.0 as int]->0).edges@;
                            let wit2 = choose|wi: int| 0 <= wi < dd.len() && dd[wi] == e.id;
                            assert((graph.intersections@[e.dst.0 as int]->0).edges@[wit2] == e.id);
                        } else {
                            let e = graph.edges@[j]->0;
                            let s_list = (graph.intersections@[i1 as int]->0).edges@;
                            assert(s_list[s_list.len() - (if i1 == i2 { 2int } else { 1int })]
                                == edge_id || s_list[s_list.len() - 1] == edge_id);
                            let d_list = (graph.intersections@[i2 as int]->0).edges@;
                            assert(d_list[d_list.len() - 1] == edge_id);
                        }
                    }
                    assert forall|j: int|
                        0 <= j < graph.intersections@.len() && graph.intersections@[j] is Some
                        implies (#[trigger] (graph.intersections@[j]->0)).id.0 == j
                        && graph.intersection_ok(graph.intersections@[j]->0) by {
                        let inter = graph.intersections@[j]->0;
                        assert forall|k2: int| 0 <= k2 < inter.edges@.len() implies {
                            let e = #[trigger] inter.edges@[k2];
                            &&& e.0 < graph.edges@.len()
                            &&& graph.edges@[e.0 as int] is Some
                            &&& ((graph.edges@[e.0 as int]->0).src == inter.id || (graph.edges@[e.0 as int]->0).dst == inter.id)
                        } by {
                            if j < g_pre.intersections@.len() && g_pre.intersections@[j] is Some {
                                let before = g_pre.intersections@[j]->0;
                                assert(g_pre.intersection_ok(before));
                                if (j == i1 || j == i2) {
                                    if k2 < before.edges@.len() {
                                        assert(inter.edges@[k2] == before.edges@[k2]);
                                    } else {
                                        assert(inter.edges@[k2] == edge_id);
                                    }
                                } else {
                                    assert(graph.intersections@[j] == g_pre.intersections@[j]);
                                    assert(inter.edges@[k2] == before.edges@[k2]);
                                }
                            } else {
                                // A freshly created intersection: its list holds
                                // only the new edge.
                                assert(j == i1 || j == i2);
                                assert(inter.edges@[k2] == edge_id);
                            }
                        }
                    }
                }
                // Start the next edge from this node.
                proof {
                    run_start = idx as int;
                }
                node1 = node;
                pts = Vec::new();
                pts.push(lookup_pt(node_mapping, node));
            }
            idx = idx + 1;
        }
        proof {
            assert forall|i: int, k: int|
                #![trigger ways@[i].node_ids@[k]]
                0 <= i < w2 + 1 && 0 <= k < ways@[i].node_ids@.len() && spec_ref_count(
                    ways@,
                    ways@[i].node_ids@[k].0,
                ) > 1 implies nti@.contains_key(ways@[i].node_ids@[k].0) by {
                if i == w2 as int {
                    if k == 0 {
                        assert(nti@.contains_key(way.node_ids@[0].0));
                    } else {
                        assert(way.node_ids@[k] == ways@[i].node_ids@[k]);
                    }
                }
            }
            assert forall|i: int, k: int|
                #![trigger ways@[i].node_ids@[k]]
                0 <= i < w2 + 1 && 0 <= k < ways@[i].node_ids@.len() implies node_indexed(
                graph.node_to_edge@,
                ways@[i].node_ids@[k],
            ) by {
                if i == w2 as int {
                    assert(way.node_ids@[k] == ways@[i].node_ids@[k]);
                    assert(nodes@.len() == 0);
                    assert(!nodes@.contains(way.node_ids@[k]));
                }
            }
        }
        w2 = w2 + 1;
    }
    proof {
        assert forall|i: int, k: int|
            #![trigger ways@[i].node_ids@[k]]
            0 <= i < ways@.len() && 0 <= k < ways@[i].node_ids@.len() && spec_ref_count(
                ways@,
                ways@[i].node_ids@[k].0,
            ) > 1 implies has_intersection_for(graph, ways@[i].node_ids@[k]) by {
            let n = ways@[i].node_ids@[k].0;
            assert(nti@.contains_key(n));
            assert(graph.intersections@[nti@[n] as int] is Some && (graph.intersections@[nti@[n] as int]->0).osm_node.0 == n);
        }
        // Each raw node has at most one intersection: the lookup table maps
        // its id back to the one slot created for it.
        assert forall|j1: int, j2: int|
            0 <= j1 < j2 < graph.intersections@.len() && graph.intersections@[j1] is Some
                && graph.intersections@[j2] is Some implies ((#[trigger] graph.intersections@[j1])->0).osm_node
            != ((#[trigger] graph.intersections@[j2])->0).osm_node by {
            if (graph.intersections@[j1]->0).osm_node == (graph.intersections@[j2]->0).osm_node {
                let k = (graph.intersections@[j1]->0).osm_node.0;
                assert(nti@[k] == j1 && nti@[k] == j2);
            }
        }
        assert forall|i: int| 0 <= i < ways@.len() implies has_intersection_for(
            graph,
            (#[trigger] ways@[i]).node_ids@[0],
        ) && has_intersection_for(graph, ways@[i].node_ids@[ways@[i].node_ids@.len() - 1]) by {
            let kf = ways@[i].node_ids@[0].0;
            assert(nti@.contains_key(kf));
            assert(graph.intersections@[nti@[kf] as int] is Some && (graph.intersections@[nti@[kf] as int]->0).osm_node.0 == kf);
            let kl = ways@[i].node_ids@[ways@[i].node_ids@.len() - 1].0;
            assert(nti@.contains_key(kl));
            assert(graph.intersections@[nti@[kl] as int] is Some && (graph.intersections@[nti@[kl] as int]->0).osm_node.0 == kl);
        }
    }
    graph
}

impl Graph {
    /// Build the graph from a coordinate lookup for every referenced node and
    /// a list of scraped ways. Projection into a planar frame, and the
    /// boundary polygon, are applied afterwards by the caller.
    pub fn from_scraped_osm(node_mapping: HashMap<i64, Coord>, ways: Vec<Way>) -> (result: Graph)
        requires
            ways_ok(ways@, node_mapping@),
        ensures
            result.wf(),
            forall|i: int|
                0 <= i < ways@.len() ==> has_intersection_for(
                    result,
                    (#[trigger] ways@[i]).node_ids@[0],
                ) && has_intersection_for(
                    result,
                    ways@[i].node_ids@[ways@[i].node_ids@.len() - 1],
                ),
            forall|i: int, k: int|
                #![trigger ways@[i].node_ids@[k]]
                0 <= i < ways@.len() && 0 <= k < ways@[i].node_ids@.len() && spec_ref_count(
                    ways@,
                    ways@[i].node_ids@[k].0,
                ) > 1 ==> has_intersection_for(result, ways@[i].node_ids@[k]),
            forall|j1: int, j2: int|
                0 <= j1 < j2 < result.intersections@.len() && result.intersections@[j1] is Some
                    && result.intersections@[j2] is Some ==> ((#[trigger] result.intersections@[j1])->0).osm_node
                    != ((#[trigger] result.intersections@[j2])->0).osm_node,
            edges_from_ways(result.edges@, ways@, node_mapping@),
    {
        split_edges(&node_mapping, ways)
    }
}

} // verus!

