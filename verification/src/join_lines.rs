use crate::coords::Coord;
use vstd::multiset::Multiset;
use vstd::prelude::*;
use vstd::seq_lib::lemma_multiset_commutative;

verus! {

/// A linestring with a list of IDs in order, and an arbitrary key.
///
/// The ID list records which underlying segments compose the path and in what
/// traversal direction; merging two linestrings always produces a new instance
/// whose ID list is the concatenation of the inputs', with direction flags
/// flipped exactly where a piece's geometry was reversed.
pub struct KeyedLineString<ID> {
    pub linestring: Vec<Coord>,
    /// True if forwards, false if backwards.
    pub ids: Vec<(ID, bool)>,
    pub key: u64,
}

/// A coordinate together with the partition key of the linestring it bounds:
/// two linestring endpoints name the same junction exactly when their
/// `HashedPoint` values are equal.
#[derive(Clone, Copy, Debug, PartialEq, Eq, Structural, Hash)]
pub struct HashedPoint {
    pub x: i64,
    pub y: i64,
    pub key: u64,
}

impl HashedPoint {
    pub fn new(pt: Coord, key: u64) -> (result: Self)
        ensures
            result == (HashedPoint { x: pt.x, y: pt.y, key }),
    {
        HashedPoint { x: pt.x, y: pt.y, key }
    }
}

/// The direction flag of every entry flipped.
pub open spec fn spec_flip<ID>(s: Seq<(ID, bool)>) -> Seq<(ID, bool)> {
    s.map_values(|p: (ID, bool)| (p.0, !p.1))
}

/// The underlying segment of every entry, direction forgotten.
pub open spec fn spec_payloads<ID>(s: Seq<(ID, bool)>) -> Seq<ID> {
    s.map_values(|p: (ID, bool)| p.0)
}

/// Every entry's underlying segment, paired with the partition key it travels
/// under.
pub open spec fn spec_keyed_payloads<ID>(key: u64, s: Seq<(ID, bool)>) -> Seq<(u64, ID)> {
    s.map_values(|p: (ID, bool)| (key, p.0))
}

impl<ID> KeyedLineString<ID> {
    /// A linestring has at least one point.
    pub open spec fn wf(self) -> bool {
        self.linestring@.len() >= 1
    }

    pub open spec fn spec_first_pt(self) -> HashedPoint {
        HashedPoint { x: self.linestring@[0].x, y: self.linestring@[0].y, key: self.key }
    }

    pub open spec fn spec_last_pt(self) -> HashedPoint {
        HashedPoint {
            x: self.linestring@[self.linestring@.len() - 1].x,
            y: self.linestring@[self.linestring@.len() - 1].y,
            key: self.key,
        }
    }

    pub open spec fn spec_other_endpt(self, pt: HashedPoint) -> HashedPoint {
        if self.spec_first_pt() == pt {
            self.spec_last_pt()
        } else {
            self.spec_first_pt()
        }
    }

    /// The multiset of underlying segment IDs this linestring carries.
    pub open spec fn seg_multiset(self) -> Multiset<ID> {
        spec_payloads(self.ids@).to_multiset()
    }

    /// The multiset of (partition key, segment ID) pairs this linestring
    /// carries: a segment can never change key, only direction.
    pub open spec fn keyed_seg_multiset(self) -> Multiset<(u64, ID)> {
        spec_keyed_payloads(self.key, self.ids@).to_multiset()
    }

    pub fn first_pt(&self) -> (result: HashedPoint)
        requires
            self.wf(),
        ensures
            result == self.spec_first_pt(),
    {
        HashedPoint::new(self.linestring[0], self.key)
    }

    pub fn last_pt(&self) -> (result: HashedPoint)
        requires
            self.wf(),
        ensures
            result == self.spec_last_pt(),
    {
        HashedPoint::new(self.linestring[self.linestring.len() - 1], self.key)
    }

    pub fn other_endpt(&self, pt: HashedPoint) -> (result: HashedPoint)
        requires
            self.wf(),
        ensures
            result == self.spec_other_endpt(pt),
    {
        if self.first_pt() == pt {
            self.last_pt()
        } else {
            self.first_pt()
        }
    }
}

/// The two linestrings' endpoints pairwise coincide: together they close a ring.
pub open spec fn spec_is_loop<ID>(l1: KeyedLineString<ID>, l2: KeyedLineString<ID>) -> bool {
    (l1.spec_first_pt() == l2.spec_first_pt() || l1.spec_first_pt() == l2.spec_last_pt())
        && (l1.spec_last_pt() == l2.spec_first_pt() || l1.spec_last_pt() == l2.spec_last_pt())
}

/// The two linestrings share at least one endpoint.
pub open spec fn spec_adjacent<ID>(l1: KeyedLineString<ID>, l2: KeyedLineString<ID>) -> bool {
    ||| l1.spec_first_pt() == l2.spec_first_pt()
    ||| l1.spec_first_pt() == l2.spec_last_pt()
    ||| l1.spec_last_pt() == l2.spec_first_pt()
    ||| l1.spec_last_pt() == l2.spec_last_pt()
}

pub fn is_loop<ID>(line1: &KeyedLineString<ID>, line2: &KeyedLineString<ID>) -> (result: bool)
    requires
        line1.wf(),
        line2.wf(),
    ensures
        result == spec_is_loop(*line1, *line2),
{
    let pt1 = line1.first_pt();
    let pt2 = line1.last_pt();
    let pt3 = line2.first_pt();
    let pt4 = line2.last_pt();
    (pt1 == pt3 || pt1 == pt4) && (pt2 == pt3 || pt2 == pt4)
}

/// The coordinates of the merge of two adjacent linestrings: whichever side
/// must be reversed so the shared point becomes interior is reversed, and the
/// duplicated shared coordinate is dropped.
pub open spec fn spec_join_coords<ID>(l1: KeyedLineString<ID>, l2: KeyedLineString<ID>) -> Seq<
    Coord,
> {
    if l1.spec_first_pt() == l2.spec_first_pt() {
        l1.linestring@.reverse().drop_last() + l2.linestring@
    } else if l1.spec_first_pt() == l2.spec_last_pt() {
        l2.linestring@.drop_last() + l1.linestring@
    } else if l1.spec_last_pt() == l2.spec_first_pt() {
        l1.linestring@.drop_last() + l2.linestring@
    } else {
        l1.linestring@.drop_last() + l2.linestring@.reverse()
    }
}

/// The segment IDs of the merge, concatenated in the corresponding order, with
/// the flags of a reversed side flipped.
pub open spec fn spec_join_ids<ID>(l1: KeyedLineString<ID>, l2: KeyedLineString<ID>) -> Seq<
    (ID, bool),
> {
    if l1.spec_first_pt() == l2.spec_first_pt() {
        spec_flip(l1.ids@.reverse()) + l2.ids@
    } else if l1.spec_first_pt() == l2.spec_last_pt() {
        l2.ids@ + l1.ids@
    } else if l1.spec_last_pt() == l2.spec_first_pt() {
        l1.ids@ + l2.ids@
    } else {
        l1.ids@ + spec_flip(l2.ids@.reverse())
    }
}

/// Flip the direction flag of every entry in place.
pub fn flip_direction<ID: Copy>(ids: &mut Vec<(ID, bool)>)
    ensures
        final(ids)@ == spec_flip(old(ids)@),
{
    let n = ids.len();
    let mut i: usize = 0;
    while i < n
        invariant
            n == ids@.len(),
            i <= n,
            forall|j: int| 0 <= j < i ==> ids@[j] == (old(ids)@[j].0, !old(ids)@[j].1),
            forall|j: int| i <= j < n ==> ids@[j] == old(ids)@[j],
        decreases n - i,
    {
        let pair = ids[i];
        ids[i] = (pair.0, !pair.1);
        i = i + 1;
    }
    proof {
        assert(ids@ =~= spec_flip(old(ids)@));
    }
}

/// Rewrite every occurrence of `from` in `indices` to `to`.
pub fn replace(indices: &mut Vec<usize>, from: usize, to: usize)
    ensures
        final(indices)@ == old(indices)@.map_values(
            |x: usize| if x == from { to } else { x },
        ),
{
    let n = indices.len();
    let mut i: usize = 0;
    while i < n
        invariant
            n == indices@.len(),
            i <= n,
            forall|j: int|
                0 <= j < i ==> indices@[j] == (if old(indices)@[j] == from {
                    to
                } else {
                    old(indices)@[j]
                }),
            forall|j: int| i <= j < n ==> indices@[j] == old(indices)@[j],
        decreases n - i,
    {
        if indices[i] == from {
            indices[i] = to;
        }
        i = i + 1;
    }
    proof {
        assert(indices@ =~= old(indices)@.map_values(|x: usize| if x == from { to } else { x }));
    }
}

/// A copy of `v` in reverse order.
fn reversed<T: Copy>(v: &Vec<T>) -> (result: Vec<T>)
    ensures
        result@ == v@.reverse(),
{
    let n = v.len();
    let mut result: Vec<T> = Vec::new();
    let mut i: usize = 0;
    while i < n
        invariant
            n == v@.len(),
            i <= n,
            result@.len() == i,
            forall|j: int| 0 <= j < i ==> result@[j] == v@[n - 1 - j],
        decreases n - i,
    {
        result.push(v[n - 1 - i]);
        i = i + 1;
    }
    proof {
        assert(result@ =~= v@.reverse());
    }
    result
}

/// Reversing and flipping a list of directed segment IDs keeps the multiset
/// of underlying segments.
proof fn lemma_flip_reverse_multiset<ID>(s: Seq<(ID, bool)>)
    ensures
        spec_payloads(spec_flip(s.reverse())).to_multiset() == spec_payloads(s).to_multiset(),
{
    assert(spec_payloads(spec_flip(s.reverse())) =~= spec_payloads(s).reverse());
    spec_payloads(s).lemma_reverse_to_multiset();
}

/// Concatenating two ID lists adds their segment multisets.
proof fn lemma_payloads_append_multiset<ID>(a: Seq<(ID, bool)>, b: Seq<(ID, bool)>)
    ensures
        spec_payloads(a + b).to_multiset() == spec_payloads(a).to_multiset().add(
            spec_payloads(b).to_multiset(),
        ),
{
    assert(spec_payloads(a + b) =~= spec_payloads(a) + spec_payloads(b));
    lemma_multiset_commutative(spec_payloads(a), spec_payloads(b));
}

/// Reversing and flipping keeps the keyed segment multiset too.
proof fn lemma_keyed_flip_reverse<ID>(key: u64, s: Seq<(ID, bool)>)
    ensures
        spec_keyed_payloads(key, spec_flip(s.reverse())).to_multiset() == spec_keyed_payloads(
            key,
            s,
        ).to_multiset(),
{
    assert(spec_keyed_payloads(key, spec_flip(s.reverse())) =~= spec_keyed_payloads(
        key,
        s,
    ).reverse());
    spec_keyed_payloads(key, s).lemma_reverse_to_multiset();
}

/// Concatenating two ID lists adds their keyed segment multisets.
proof fn lemma_keyed_append<ID>(key: u64, a: Seq<(ID, bool)>, b: Seq<(ID, bool)>)
    ensures
        spec_keyed_payloads(key, a + b).to_multiset() == spec_keyed_payloads(key, a).to_multiset()
            .add(spec_keyed_payloads(key, b).to_multiset()),
{
    assert(spec_keyed_payloads(key, a + b) =~= spec_keyed_payloads(key, a) + spec_keyed_payloads(
        key,
        b,
    ));
    lemma_multiset_commutative(spec_keyed_payloads(key, a), spec_keyed_payloads(key, b));
}

/// Merge two adjacent linestrings into one whose coordinate sequence is the
/// correctly oriented concatenation with the shared point kept once, and whose
/// segment-ID list is the corresponding concatenation with flipped flags on a
/// reversed side.
pub fn join_lines<ID: Copy>(
    line1: KeyedLineString<ID>,
    line2: KeyedLineString<ID>,
) -> (joined: KeyedLineString<ID>)
    requires
        line1.wf(),
        line2.wf(),
        spec_adjacent(line1, line2),
    ensures
        joined.wf(),
        joined.key == line1.key,
        joined.linestring@ == spec_join_coords(line1, line2),
        joined.ids@ == spec_join_ids(line1, line2),
        joined.seg_multiset() == line1.seg_multiset().add(line2.seg_multiset()),
        joined.keyed_seg_multiset() == line1.keyed_seg_multiset().add(line2.keyed_seg_multiset()),
        line2.key == line1.key,
{
    let pt1 = line1.first_pt();
    let pt2 = line1.last_pt();
    let pt3 = line2.first_pt();
    let pt4 = line2.last_pt();

    let joined: KeyedLineString<ID>;
    if pt1 == pt3 {
        let mut coords = reversed(&line1.linestring);
        coords.pop();
        let mut tail = line2.linestring;
        coords.append(&mut tail);
        let mut ids = reversed(&line1.ids);
        flip_direction(&mut ids);
        let mut ids_tail = line2.ids;
        ids.append(&mut ids_tail);
        proof {
            assert(coords@ =~= line1.linestring@.reverse().drop_last() + line2.linestring@);
            assert(ids@ =~= spec_flip(line1.ids@.reverse()) + line2.ids@);
            lemma_payloads_append_multiset(spec_flip(line1.ids@.reverse()), line2.ids@);
            lemma_flip_reverse_multiset(line1.ids@);
            assert(line2.key == line1.key);
            lemma_keyed_append(line1.key, spec_flip(line1.ids@.reverse()), line2.ids@);
            lemma_keyed_flip_reverse(line1.key, line1.ids@);
        }
        joined = KeyedLineString { linestring: coords, ids, key: line1.key };
    } else if pt1 == pt4 {
        let mut coords = line2.linestring;
        coords.pop();
        let mut tail = line1.linestring;
        coords.append(&mut tail);
        let mut ids = line2.ids;
        let mut ids_tail = line1.ids;
        ids.append(&mut ids_tail);
        proof {
            assert(coords@ =~= line2.linestring@.drop_last() + line1.linestring@);
            assert(ids@ =~= line2.ids@ + line1.ids@);
            lemma_payloads_append_multiset(line2.ids@, line1.ids@);
            assert(line1.seg_multiset().add(line2.seg_multiset()) =~= line2.seg_multiset().add(
                line1.seg_multiset(),
            ));
            assert(line2.key == line1.key);
            lemma_keyed_append(line1.key, line2.ids@, line1.ids@);
            assert(line1.keyed_seg_multiset().add(line2.keyed_seg_multiset())
                =~= line2.keyed_seg_multiset().add(line1.keyed_seg_multiset()));
        }
        joined = KeyedLineString { linestring: coords, ids, key: line1.key };
    } else if pt2 == pt3 {
        let mut coords = line1.linestring;
        coords.pop();
        let mut tail = line2.linestring;
        coords.append(&mut tail);
        let mut ids = line1.ids;
        let mut ids_tail = line2.ids;
        ids.append(&mut ids_tail);
        proof {
            assert(coords@ =~= line1.linestring@.drop_last() + line2.linestring@);
            assert(ids@ =~= line1.ids@ + line2.ids@);
            lemma_payloads_append_multiset(line1.ids@, line2.ids@);
            assert(line2.key == line1.key);
            lemma_keyed_append(line1.key, line1.ids@, line2.ids@);
        }
        joined = KeyedLineString { linestring: coords, ids, key: line1.key };
    } else {
        let mut coords = line1.linestring;
        coords.pop();
        let mut tail = reversed(&line2.linestring);
        coords.append(&mut tail);
        let mut ids = line1.ids;
        let mut ids_tail = reversed(&line2.ids);
        flip_direction(&mut ids_tail);
        ids.append(&mut ids_tail);
        proof {
            assert(coords@ =~= line1.linestring@.drop_last() + line2.linestring@.reverse());
            assert(ids@ =~= line1.ids@ + spec_flip(line2.ids@.reverse()));
            lemma_payloads_append_multiset(line1.ids@, spec_flip(line2.ids@.reverse()));
            lemma_flip_reverse_multiset(line2.ids@);
            assert(line1.spec_last_pt() == line2.spec_last_pt());
            assert(line2.key == line1.key);
            lemma_keyed_append(line1.key, line1.ids@, spec_flip(line2.ids@.reverse()));
            lemma_keyed_flip_reverse(line1.key, line2.ids@);
        }
        joined = KeyedLineString { linestring: coords, ids, key: line1.key };
    }
    joined
}

/// The endpoint occurrences a single working-set entry at index `idx`
/// contributes at `pt`: one for its first point, one for its last.
pub open spec fn spec_endpoint_occurrences<ID>(
    entry: Option<KeyedLineString<ID>>,
    idx: usize,
    pt: HashedPoint,
) -> Seq<usize> {
    match entry {
        None => Seq::empty(),
        Some(l) => (if l.spec_first_pt() == pt {
            seq![idx]
        } else {
            Seq::empty()
        }) + (if l.spec_last_pt() == pt {
            seq![idx]
        } else {
            Seq::empty()
        }),
    }
}

/// Every endpoint occurrence at `pt` among the live working-set entries, in
/// index order. Its length is the current degree of the point `pt`.
pub open spec fn spec_slots<ID>(lines: Seq<Option<KeyedLineString<ID>>>, pt: HashedPoint) -> Seq<
    usize,
>
    decreases lines.len(),
{
    if lines.len() == 0 {
        Seq::empty()
    } else {
        spec_slots(lines.drop_last(), pt) + spec_endpoint_occurrences(
            lines.last(),
            (lines.len() - 1) as usize,
            pt,
        )
    }
}

/// `s` names a live entry with `pt` as one of its endpoints.
pub open spec fn valid_slot<ID>(
    lines: Seq<Option<KeyedLineString<ID>>>,
    pt: HashedPoint,
    s: usize,
) -> bool {
    &&& s < lines.len()
    &&& lines[s as int] is Some
    &&& ((lines[s as int]->0).spec_first_pt() == pt || (lines[s as int]->0).spec_last_pt() == pt)
}

proof fn lemma_slots_valid<ID>(lines: Seq<Option<KeyedLineString<ID>>>, pt: HashedPoint)
    requires
        lines.len() <= usize::MAX,
    ensures
        forall|k: int|
            0 <= k < spec_slots(lines, pt).len() ==> #[trigger] valid_slot(
                lines,
                pt,
                spec_slots(lines, pt)[k],
            ),
    decreases lines.len(),
{
    if lines.len() > 0 {
        let prefix = lines.drop_last();
        lemma_slots_valid(prefix, pt);
        assert forall|k: int| 0 <= k < spec_slots(lines, pt).len() implies #[trigger] valid_slot(
            lines,
            pt,
            spec_slots(lines, pt)[k],
        ) by {
            let s = spec_slots(lines, pt)[k];
            if k < spec_slots(prefix, pt).len() {
                assert(valid_slot(prefix, pt, s));
                assert(lines[s as int] == prefix[s as int]);
            } else {
                let idx = (lines.len() - 1) as usize;
                let occ = spec_endpoint_occurrences(lines.last(), idx, pt);
                assert(spec_slots(lines, pt) == spec_slots(prefix, pt) + occ);
                let m = k - spec_slots(prefix, pt).len();
                assert(s == occ[m]);
                match lines.last() {
                    None => {
                        assert(occ.len() == 0);
                    },
                    Some(l) => {
                        let a: Seq<usize> = if l.spec_first_pt() == pt {
                            seq![idx]
                        } else {
                            Seq::empty()
                        };
                        let b: Seq<usize> = if l.spec_last_pt() == pt {
                            seq![idx]
                        } else {
                            Seq::empty()
                        };
                        assert(occ == a + b);
                        if m < a.len() {
                            assert(occ[m] == a[m]);
                            assert(l.spec_first_pt() == pt);
                        } else {
                            assert(occ[m] == b[m - a.len()]);
                            assert(l.spec_last_pt() == pt);
                        }
                        assert(s == idx);
                        assert(lines.last() == lines[lines.len() - 1]);
                    },
                }
            }
        }
    }
}

/// The current endpoint occurrences at `pt`, computed by scanning the live entries.
fn endpoint_slots<ID>(lines: &Vec<Option<KeyedLineString<ID>>>, pt: HashedPoint) -> (slots: Vec<
    usize,
>)
    requires
        forall|j: int| 0 <= j < lines@.len() && lines@[j] is Some ==> (lines@[j]->0).wf(),
    ensures
        slots@ == spec_slots(lines@, pt),
{
    let n = lines.len();
    let mut slots: Vec<usize> = Vec::new();
    let mut i: usize = 0;
    while i < n
        invariant
            n == lines@.len(),
            i <= n,
            forall|j: int| 0 <= j < n && lines@[j] is Some ==> (lines@[j]->0).wf(),
            slots@ == spec_slots(lines@.subrange(0, i as int), pt),
        decreases n - i,
    {
        let ghost pre = lines@.subrange(0, i as int);
        match &lines[i] {
            Some(l) => {
                if l.first_pt() == pt {
                    slots.push(i);
                }
                if l.last_pt() == pt {
                    slots.push(i);
                }
            },
            None => {},
        }
        proof {
            let cur = lines@.subrange(0, i as int + 1);
            assert(cur.drop_last() =~= pre);
            assert(cur.last() == lines@[i as int]);
            assert(slots@ =~= spec_slots(cur, pt));
        }
        i = i + 1;
    }
    proof {
        assert(lines@.subrange(0, n as int) =~= lines@);
    }
    slots
}

/// Borrow the live entry at index `i`.
fn get_line<'a, ID>(lines: &'a Vec<Option<KeyedLineString<ID>>>, i: usize) -> (result:
    &'a KeyedLineString<ID>)
    requires
        i < lines@.len(),
        lines@[i as int] is Some,
    ensures
        *result == lines@[i as int]->0,
{
    match &lines[i] {
        Some(l) => l,
        None => vstd::pervasive::unreached(),
    }
}

/// Move the live entry at index `i` out of the working set, leaving `None`.
fn take_line<ID>(lines: &mut Vec<Option<KeyedLineString<ID>>>, i: usize) -> (result:
    KeyedLineString<ID>)
    requires
        i < old(lines)@.len(),
        old(lines)@[i as int] is Some,
    ensures
        final(lines)@ == old(lines)@.update(i as int, None),
        old(lines)@[i as int] == Some(result),
{
    lines.push(None);
    let slot = lines.swap_remove(i);
    proof {
        assert(lines@ =~= old(lines)@.update(i as int, None));
    }
    match slot {
        Some(l) => l,
        None => vstd::pervasive::unreached(),
    }
}

/// The multiset of underlying segment IDs a whole collection carries.
pub open spec fn collection_multiset<ID>(s: Seq<KeyedLineString<ID>>) -> Multiset<ID>
    decreases s.len(),
{
    if s.len() == 0 {
        Multiset::empty()
    } else {
        collection_multiset(s.drop_last()).add(s.last().seg_multiset())
    }
}

/// The multiset of underlying segment IDs the live working-set entries carry.
pub open spec fn live_multiset<ID>(lines: Seq<Option<KeyedLineString<ID>>>) -> Multiset<ID>
    decreases lines.len(),
{
    if lines.len() == 0 {
        Multiset::empty()
    } else {
        live_multiset(lines.drop_last()).add(
            match lines.last() {
                Some(l) => l.seg_multiset(),
                None => Multiset::empty(),
            },
        )
    }
}

/// The multiset of (key, segment ID) pairs a whole collection carries.
pub open spec fn collection_keyed_multiset<ID>(s: Seq<KeyedLineString<ID>>) -> Multiset<(u64, ID)>
    decreases s.len(),
{
    if s.len() == 0 {
        Multiset::empty()
    } else {
        collection_keyed_multiset(s.drop_last()).add(s.last().keyed_seg_multiset())
    }
}

/// The multiset of (key, segment ID) pairs the live working-set entries carry.
pub open spec fn live_keyed_multiset<ID>(lines: Seq<Option<KeyedLineString<ID>>>) -> Multiset<
    (u64, ID),
>
    decreases lines.len(),
{
    if lines.len() == 0 {
        Multiset::empty()
    } else {
        live_keyed_multiset(lines.drop_last()).add(
            match lines.last() {
                Some(l) => l.keyed_seg_multiset(),
                None => Multiset::empty(),
            },
        )
    }
}

/// The live working-set entries, in index order.
pub open spec fn spec_live<ID>(lines: Seq<Option<KeyedLineString<ID>>>) -> Seq<
    KeyedLineString<ID>,
>
    decreases lines.len(),
{
    if lines.len() == 0 {
        Seq::empty()
    } else {
        spec_live(lines.drop_last()) + (match lines.last() {
            Some(l) => seq![l],
            None => Seq::empty(),
        })
    }
}

proof fn lemma_live_is_collection<ID>(lines: Seq<Option<KeyedLineString<ID>>>)
    ensures
        collection_multiset(spec_live(lines)) == live_multiset(lines),
    decreases lines.len(),
{
    broadcast use vstd::multiset::group_multiset_axioms;

    if lines.len() > 0 {
        lemma_live_is_collection(lines.drop_last());
        match lines.last() {
            Some(l) => {
                let s = spec_live(lines.drop_last()) + seq![l];
                assert(s.drop_last() =~= spec_live(lines.drop_last()));
                assert(s.last() == l);
            },
            None => {
                assert(spec_live(lines) =~= spec_live(lines.drop_last()));
                assert(live_multiset(lines) =~= live_multiset(lines.drop_last()));
            },
        }
    }
}

proof fn lemma_live_keyed_is_collection<ID>(lines: Seq<Option<KeyedLineString<ID>>>)
    ensures
        collection_keyed_multiset(spec_live(lines)) == live_keyed_multiset(lines),
    decreases lines.len(),
{
    broadcast use vstd::multiset::group_multiset_axioms;

    if lines.len() > 0 {
        lemma_live_keyed_is_collection(lines.drop_last());
        match lines.last() {
            Some(l) => {
                let s = spec_live(lines.drop_last()) + seq![l];
                assert(s.drop_last() =~= spec_live(lines.drop_last()));
                assert(s.last() == l);
            },
            None => {
                assert(spec_live(lines) =~= spec_live(lines.drop_last()));
                assert(live_keyed_multiset(lines) =~= live_keyed_multiset(lines.drop_last()));
            },
        }
    }
}

/// Emptying the slot at `i` takes that entry's keyed segments out of the total.
proof fn lemma_live_keyed_update_none<ID>(lines: Seq<Option<KeyedLineString<ID>>>, i: int)
    requires
        0 <= i < lines.len(),
        lines[i] is Some,
    ensures
        live_keyed_multiset(lines.update(i, None)).add((lines[i]->0).keyed_seg_multiset())
            == live_keyed_multiset(lines),
    decreases lines.len(),
{
    broadcast use vstd::multiset::group_multiset_axioms;

    let u = lines.update(i, None);
    if i == lines.len() - 1 {
        assert(u.drop_last() =~= lines.drop_last());
        assert(u.last() is None);
        assert(live_keyed_multiset(u).add((lines[i]->0).keyed_seg_multiset())
            =~= live_keyed_multiset(lines));
    } else {
        assert(u.drop_last() =~= lines.drop_last().update(i, None));
        assert(u.last() == lines.last());
        lemma_live_keyed_update_none(lines.drop_last(), i);
        assert(live_keyed_multiset(u).add((lines[i]->0).keyed_seg_multiset())
            =~= live_keyed_multiset(lines));
    }
}

/// Emptying the slot at `i` takes that entry's segments out of the total.
proof fn lemma_live_update_none<ID>(lines: Seq<Option<KeyedLineString<ID>>>, i: int)
    requires
        0 <= i < lines.len(),
        lines[i] is Some,
    ensures
        live_multiset(lines.update(i, None)).add((lines[i]->0).seg_multiset()) == live_multiset(
            lines,
        ),
    decreases lines.len(),
{
    broadcast use vstd::multiset::group_multiset_axioms;

    let u = lines.update(i, None);
    if i == lines.len() - 1 {
        assert(u.drop_last() =~= lines.drop_last());
        assert(u.last() is None);
        assert(live_multiset(u).add((lines[i]->0).seg_multiset()) =~= live_multiset(lines));
    } else {
        assert(u.drop_last() =~= lines.drop_last().update(i, None));
        assert(u.last() == lines.last());
        lemma_live_update_none(lines.drop_last(), i);
        assert(live_multiset(u).add((lines[i]->0).seg_multiset()) =~= live_multiset(lines));
    }
}

/// A working set holding exactly the entries of `s`, in order, carries the
/// collection's segments.
proof fn lemma_live_of_full<ID>(lines: Seq<Option<KeyedLineString<ID>>>, s: Seq<KeyedLineString<ID>>)
    requires
        lines.len() == s.len(),
        forall|j: int| 0 <= j < lines.len() ==> lines[j] == Some(s[j]),
    ensures
        spec_live(lines) == s,
        live_multiset(lines) == collection_multiset(s),
    decreases lines.len(),
{
    if lines.len() > 0 {
        lemma_live_of_full(lines.drop_last(), s.drop_last());
        assert(lines.last() == Some(s.last()));
        assert(spec_live(lines) =~= s);
    }
}

/// `k` is the partition key of some linestring of `s`.
pub open spec fn key_among<ID>(k: u64, s: Seq<KeyedLineString<ID>>) -> bool {
    exists|q: int| 0 <= q < s.len() && k == (#[trigger] s[q]).key
}

/// The whole input is one two-segment loop: exactly two well-formed
/// linestrings, the first not closed on itself, whose endpoints pairwise
/// coincide.
pub open spec fn spec_two_loop<ID>(s: Seq<KeyedLineString<ID>>) -> bool {
    &&& s.len() == 2
    &&& s[0].wf()
    &&& s[1].wf()
    &&& s[0].spec_first_pt() != s[0].spec_last_pt()
    &&& spec_is_loop(s[0], s[1])
}

/// In a two-segment loop between two distinct junction points, each of the
/// two points sees exactly one endpoint of each linestring, and no other
/// point sees any.
proof fn lemma_two_loop_slots<ID>(in0: KeyedLineString<ID>, in1: KeyedLineString<ID>, pt: HashedPoint)
    requires
        in0.wf(),
        in1.wf(),
        in0.spec_first_pt() != in0.spec_last_pt(),
        spec_is_loop(in0, in1),
    ensures
        (pt == in0.spec_first_pt() || pt == in0.spec_last_pt()) ==> spec_slots(
            seq![Some(in0), Some(in1)],
            pt,
        ) == seq![0usize, 1usize],
        !(pt == in0.spec_first_pt() || pt == in0.spec_last_pt()) ==> spec_slots(
            seq![Some(in0), Some(in1)],
            pt,
        ) == Seq::<usize>::empty(),
{
    let lines = seq![Some(in0), Some(in1)];
    let shorter = lines.drop_last();
    assert(shorter =~= seq![Some(in0)]);
    assert(shorter.drop_last() =~= Seq::<Option<KeyedLineString<ID>>>::empty());
    // The second linestring's endpoints are the first's, one each.
    assert(in1.spec_first_pt() != in1.spec_last_pt());
    let occ0 = spec_endpoint_occurrences(Some(in0), 0usize, pt);
    let occ1 = spec_endpoint_occurrences(Some(in1), 1usize, pt);
    assert(spec_slots(shorter.drop_last(), pt) =~= Seq::<usize>::empty());
    assert(shorter.last() == Some(in0));
    assert((shorter.len() - 1) as usize == 0usize);
    assert(spec_slots(shorter, pt) =~= occ0);
    assert(spec_slots(lines, pt) =~= occ0 + occ1);
    if pt == in0.spec_first_pt() || pt == in0.spec_last_pt() {
        assert(occ0 =~= seq![0usize]);
        assert(occ1 =~= seq![1usize]);
        assert(spec_slots(lines, pt) =~= seq![0usize, 1usize]);
    } else {
        assert(occ0 =~= Seq::<usize>::empty());
        assert(occ1 =~= Seq::<usize>::empty());
        assert(spec_slots(lines, pt) =~= Seq::<usize>::empty());
    }
}

/// The whole input is one two-segment chain: exactly two well-formed
/// linestrings, neither closed on itself, sharing an endpoint without closing
/// a loop.
pub open spec fn spec_two_chain<ID>(s: Seq<KeyedLineString<ID>>) -> bool {
    &&& s.len() == 2
    &&& s[0].wf()
    &&& s[1].wf()
    &&& s[0].spec_first_pt() != s[0].spec_last_pt()
    &&& s[1].spec_first_pt() != s[1].spec_last_pt()
    &&& spec_adjacent(s[0], s[1])
    &&& !spec_is_loop(s[0], s[1])
}

/// The endpoint the two linestrings of a chain share, seen from the first.
pub open spec fn spec_shared_pt<ID>(l1: KeyedLineString<ID>, l2: KeyedLineString<ID>) -> HashedPoint {
    if l1.spec_first_pt() == l2.spec_first_pt() || l1.spec_first_pt() == l2.spec_last_pt() {
        l1.spec_first_pt()
    } else {
        l1.spec_last_pt()
    }
}

/// The occurrences at any point of a two-entry working set are the two
/// entries' own occurrences, in order.
proof fn lemma_pair_slots<ID>(in0: KeyedLineString<ID>, in1: KeyedLineString<ID>, pt: HashedPoint)
    ensures
        spec_slots(seq![Some(in0), Some(in1)], pt) == spec_endpoint_occurrences(
            Some(in0),
            0usize,
            pt,
        ) + spec_endpoint_occurrences(Some(in1), 1usize, pt),
{
    let lines = seq![Some(in0), Some(in1)];
    let shorter = lines.drop_last();
    assert(shorter =~= seq![Some(in0)]);
    assert(spec_slots(shorter.drop_last(), pt) =~= Seq::<usize>::empty());
    assert(shorter.last() == Some(in0));
    assert((shorter.len() - 1) as usize == 0usize);
    assert(spec_slots(shorter, pt) =~= spec_endpoint_occurrences(Some(in0), 0usize, pt));
    assert(lines.last() == Some(in1));
}

/// In a two-segment chain, the shared point sees one endpoint of each
/// linestring; and any point seeing two occurrences is such a point.
proof fn lemma_two_chain_slots<ID>(in0: KeyedLineString<ID>, in1: KeyedLineString<ID>, pt: HashedPoint)
    requires
        spec_two_chain(seq![in0, in1]),
    ensures
        pt == spec_shared_pt(in0, in1) ==> spec_slots(seq![Some(in0), Some(in1)], pt) == seq![
            0usize,
            1usize,
        ],
        spec_slots(seq![Some(in0), Some(in1)], pt).len() == 2 ==> (spec_slots(
            seq![Some(in0), Some(in1)],
            pt,
        ) == seq![0usize, 1usize] && (in0.spec_first_pt() == pt || in0.spec_last_pt() == pt) && (
        in1.spec_first_pt() == pt || in1.spec_last_pt() == pt)),
{
    lemma_pair_slots(in0, in1, pt);
    let s = seq![in0, in1];
    assert(s[0] == in0 && s[1] == in1);
    let occ0 = spec_endpoint_occurrences(Some(in0), 0usize, pt);
    let occ1 = spec_endpoint_occurrences(Some(in1), 1usize, pt);
    if pt == spec_shared_pt(in0, in1) {
        assert(occ0 =~= seq![0usize]);
        assert(occ1 =~= seq![1usize]);
        assert(spec_slots(seq![Some(in0), Some(in1)], pt) =~= seq![0usize, 1usize]);
    }
    if (occ0 + occ1).len() == 2 {
        assert(occ0.len() <= 1 && occ1.len() <= 1);
        assert(occ0 =~= seq![0usize]);
        assert(occ1 =~= seq![1usize]);
        assert(spec_slots(seq![Some(in0), Some(in1)], pt) =~= seq![0usize, 1usize]);
    }
}

/// Merging a chain keeps its two outer endpoints, which stay distinct.
proof fn lemma_join_endpoints<ID>(l1: KeyedLineString<ID>, l2: KeyedLineString<ID>)
    requires
        spec_two_chain(seq![l1, l2]),
    ensures
        spec_join_coords(l1, l2).len() >= 2,
        ({
            let c = spec_join_coords(l1, l2);
            (HashedPoint { x: c[0].x, y: c[0].y, key: l1.key }) != (HashedPoint {
                x: c[c.len() - 1].x,
                y: c[c.len() - 1].y,
                key: l1.key,
            })
        }),
{
    let s = seq![l1, l2];
    assert(s[0] == l1 && s[1] == l2);
    let c1 = l1.linestring@;
    let c2 = l2.linestring@;
    // Neither piece is a single point, else its two endpoints would coincide.
    assert(c1.len() >= 2);
    assert(c2.len() >= 2);
    let c = spec_join_coords(l1, l2);
    if l1.spec_first_pt() == l2.spec_first_pt() {
        assert(c[0] == c1.reverse().drop_last()[0]);
        assert(c1.reverse()[0] == c1[c1.len() - 1]);
        assert(c[c.len() - 1] == c2[c2.len() - 1]);
        assert(l1.key == l2.key);
    } else if l1.spec_first_pt() == l2.spec_last_pt() {
        assert(c[0] == c2.drop_last()[0]);
        assert(c[c.len() - 1] == c1[c1.len() - 1]);
        assert(l1.key == l2.key);
    } else if l1.spec_last_pt() == l2.spec_first_pt() {
        assert(c[0] == c1.drop_last()[0]);
        assert(c[c.len() - 1] == c2[c2.len() - 1]);
        assert(l1.key == l2.key);
    } else {
        assert(l1.spec_last_pt() == l2.spec_last_pt());
        assert(c[0] == c1.drop_last()[0]);
        assert(c[c.len() - 1] == c2.reverse()[c2.len() - 1]);
        assert(c2.reverse()[c2.len() - 1] == c2[0]);
        assert(l1.key == l2.key);
    }
}

/// Takes a network of linestrings. Finds every case of exactly two linestrings
/// meeting at a point, and merges them together. Only linestrings with a
/// matching key are considered (the partition key is part of the hashed
/// point). The linestrings can track an underlying road or edge ID, and the
/// result retains that detailed semantic path. Two pieces of a loop are not
/// collapsed.
pub fn collapse_degree_2<ID: Copy>(input_lines: Vec<KeyedLineString<ID>>) -> (result: Vec<
    KeyedLineString<ID>,
>)
    requires
        forall|i: int| 0 <= i < input_lines@.len() ==> input_lines@[i].wf(),
    ensures
        forall|i: int| 0 <= i < result@.len() ==> result@[i].wf(),
        collection_multiset(result@) == collection_multiset(input_lines@),
        collection_keyed_multiset(result@) == collection_keyed_multiset(input_lines@),
        forall|i: int|
            0 <= i < result@.len() ==> key_among((#[trigger] result@[i]).key, input_lines@),
        forall|i: int|
            0 <= i < result@.len() ==> chain_derived(#[trigger] result@[i], input_lines@),
        spec_two_loop(input_lines@) ==> result@ == input_lines@,
        spec_two_chain(input_lines@) ==> (result@.len() == 1 && result@[0].linestring@
            == spec_join_coords(input_lines@[0], input_lines@[1]) && result@[0].ids@
            == spec_join_ids(input_lines@[0], input_lines@[1]) && result@[0].key
            == input_lines@[0].key),
{
    broadcast use vstd::multiset::group_multiset_axioms;

    let ghost input0 = input_lines@;

    // Give each input a transient internal id: its index in the working set.
    let mut lines: Vec<Option<KeyedLineString<ID>>> = Vec::new();
    let mut rest = input_lines;
    while rest.len() > 0
        invariant
            forall|j: int| 0 <= j < input0.len() ==> input0[j].wf(),
            lines@.len() + rest@.len() == input0.len(),
            forall|j: int| 0 <= j < lines@.len() ==> lines@[j] == Some(input0[j]),
            rest@ =~= input0.subrange(lines@.len() as int, input0.len() as int),
        decreases rest@.len(),
    {
        let l = rest.remove(0);
        lines.push(Some(l));
    }
    proof {
        lemma_live_of_full(lines@, input0);
        lemma_live_keyed_is_collection(lines@);
    }

    // Collect every point where exactly two endpoint occurrences meet. These
    // are the only places a merge can ever happen.
    let n0 = lines.len();
    let mut candidates: Vec<HashedPoint> = Vec::new();
    let ghost mut p_at: int = 0;
    let mut i: usize = 0;
    while i < n0
        invariant
            n0 == lines@.len(),
            i <= n0,
            lines@.len() == input0.len(),
            forall|j: int| 0 <= j < lines@.len() ==> lines@[j] == Some(input0[j]),
            forall|j: int| 0 <= j < input0.len() ==> input0[j].wf(),
            forall|j: int| 0 <= j < lines@.len() && lines@[j] is Some ==> (lines@[j]->0).wf(),
            spec_two_chain(input0) && i >= 1 ==> (0 <= p_at < candidates@.len()
                && candidates@[p_at] == spec_shared_pt(input0[0], input0[1])),
        decreases n0 - i,
    {
        let fp = get_line(&lines, i).first_pt();
        let slots_f = endpoint_slots(&lines, fp);
        proof {
            if spec_two_chain(input0) {
                assert(input0 =~= seq![input0[0], input0[1]]);
                assert(lines@ =~= seq![Some(input0[0]), Some(input0[1])]);
                lemma_two_chain_slots(input0[0], input0[1], fp);
            }
        }
        if slots_f.len() == 2 {
            candidates.push(fp);
            proof {
                if spec_two_chain(input0) && fp == spec_shared_pt(input0[0], input0[1]) {
                    p_at = candidates@.len() - 1;
                }
            }
        }
        let lp = get_line(&lines, i).last_pt();
        let slots_l = endpoint_slots(&lines, lp);
        proof {
            if spec_two_chain(input0) {
                assert(input0 =~= seq![input0[0], input0[1]]);
                assert(lines@ =~= seq![Some(input0[0]), Some(input0[1])]);
                lemma_two_chain_slots(input0[0], input0[1], lp);
            }
        }
        if slots_l.len() == 2 {
            candidates.push(lp);
            proof {
                if spec_two_chain(input0) && lp == spec_shared_pt(input0[0], input0[1]) {
                    p_at = candidates@.len() - 1;
                }
            }
        }
        i = i + 1;
    }

    proof {
        assert forall|j: int| 0 <= j < lines@.len() && lines@[j] is Some implies key_among(
            ((#[trigger] lines@[j])->0).key,
            input0,
        ) by {
            assert(input0[j].key == input0[j].key);
        }
        assert forall|j: int|
            0 <= j < lines@.len() && (#[trigger] lines@[j]) is Some implies chain_derived(
            lines@[j]->0,
            input0,
        ) by {
            assert(lines@[j]->0 == input0[j]);
            assert(derived_from(lines@[j]->0, input0, 0nat));
        }
        if spec_two_loop(input0) {
            assert(lines@ =~= seq![Some(input0[0]), Some(input0[1])]);
        }
        if spec_two_chain(input0) {
            assert(lines@ =~= seq![Some(input0[0]), Some(input0[1])]);
            assert(candidates@[p_at] == spec_shared_pt(input0[0], input0[1]));
        }
    }

    // Merge at each candidate point that still has exactly two occurrences
    // from two distinct linestrings not forming a loop. A merge keeps the
    // degree of every other point unchanged, so one pass suffices.
    let ncand = candidates.len();
    let mut c: usize = 0;
    while c < ncand
        invariant
            ncand == candidates@.len(),
            c <= ncand,
            forall|j: int| 0 <= j < lines@.len() && lines@[j] is Some ==> (lines@[j]->0).wf(),
            live_multiset(lines@) == collection_multiset(input0),
            live_keyed_multiset(lines@) == collection_keyed_multiset(input0),
            forall|j: int|
                0 <= j < lines@.len() && lines@[j] is Some ==> key_among(
                    ((#[trigger] lines@[j])->0).key,
                    input0,
                ),
            forall|j: int|
                0 <= j < lines@.len() && (#[trigger] lines@[j]) is Some ==> chain_derived(
                    lines@[j]->0,
                    input0,
                ),
            spec_two_loop(input0) ==> lines@ == seq![Some(input0[0]), Some(input0[1])],
            spec_two_chain(input0) ==> ((lines@ == seq![Some(input0[0]), Some(input0[1])] && (
            exists|k: int|
                c <= k < candidates@.len() && candidates@[k] == spec_shared_pt(
                    input0[0],
                    input0[1],
                ))) || (spec_closed_pair(lines@, input0[0], input0[1]) && (
            lines@[2]->0).spec_first_pt() != (lines@[2]->0).spec_last_pt())),
        decreases ncand - c,
    {
        let pt = candidates[c];
        // Reading the length here keeps the working set's size visibly within
        // machine bounds for the slot-validity argument below.
        let n_now = lines.len();
        proof {
            assert(lines@.len() == n_now);
        }
        let slots = endpoint_slots(&lines, pt);
        proof {
            if spec_two_chain(input0) {
                assert(input0 =~= seq![input0[0], input0[1]]);
                if lines@.len() == 2 {
                    lemma_two_chain_slots(input0[0], input0[1], pt);
                } else {
                    // In the closed state a point with two occurrences would
                    // have to be both endpoints of the merged line at once.
                    let e0 = lines@.drop_last();
                    let e1 = e0.drop_last();
                    assert(e1.drop_last() =~= Seq::<Option<KeyedLineString<ID>>>::empty());
                    assert(spec_slots(e1.drop_last(), pt) =~= Seq::<usize>::empty());
                    assert(e1.last() is None && e0.last() is None);
                    assert(spec_slots(e1, pt) =~= Seq::<usize>::empty());
                    assert(spec_slots(e0, pt) =~= Seq::<usize>::empty());
                    assert(lines@.last() == lines@[2int]);
                    assert(spec_slots(lines@, pt) =~= spec_endpoint_occurrences(
                        lines@[2int],
                        2usize,
                        pt,
                    ));
                    if spec_slots(lines@, pt).len() == 2 {
                        assert((lines@[2int]->0).spec_first_pt() == pt && (
                        lines@[2int]->0).spec_last_pt() == pt);
                        assert(false);
                    }
                }
            }
        }
        if slots.len() == 2 {
            let i1 = slots[0];
            let i2 = slots[1];
            proof {
                lemma_slots_valid(lines@, pt);
                assert(valid_slot(lines@, pt, i1));
                assert(valid_slot(lines@, pt, i2));
            }
            let keep = is_loop(get_line(&lines, i1), get_line(&lines, i2));
            if !keep {
                // A line paired with itself always forms a loop, so the two
                // slots name distinct lines here.
                proof {
                    assert(i1 != i2);
                    // A bare two-segment loop offers no mergeable point at
                    // all: both its junction points fail the loop test, and
                    // every other point has no occurrences.
                    if spec_two_loop(input0) {
                        lemma_two_loop_slots(input0[0], input0[1], pt);
                        assert(slots@ == seq![0usize, 1usize]);
                        assert(lines@[0int]->0 == input0[0]);
                        assert(lines@[1int]->0 == input0[1]);
                        assert(false);
                    }
                    if spec_two_chain(input0) {
                        assert(slots@ == seq![0usize, 1usize]);
                        assert(i1 == 0 && i2 == 1);
                    }
                }
                let ghost pre = lines@;
                let l1 = take_line(&mut lines, i1);
                let ghost mid = lines@;
                let l2 = take_line(&mut lines, i2);
                let joined = join_lines(l1, l2);
                lines.push(Some(joined));
                proof {
                    assert(key_among(joined.key, input0)) by {
                        assert(pre[i1 as int]->0 == l1 && joined.key == l1.key);
                    }
                    assert forall|j: int| 0 <= j < lines@.len() && lines@[j] is Some implies
                    key_among(((#[trigger] lines@[j])->0).key, input0) by {
                        if j < pre.len() && j != i1 && j != i2 {
                            assert(lines@[j] == pre[j]);
                        }
                    }
                    lemma_live_update_none(pre, i1 as int);
                    lemma_live_update_none(mid, i2 as int);
                    let m1 = l1.seg_multiset();
                    let m2 = l2.seg_multiset();
                    let base = lines@.drop_last();
                    assert(base =~= mid.update(i2 as int, None));
                    assert(lines@.last() == Some(joined));
                    assert(live_multiset(lines@) == live_multiset(base).add(joined.seg_multiset()));
                    assert(live_multiset(base).add(m1.add(m2)) =~= live_multiset(base).add(m2).add(
                        m1,
                    ));
                    assert(live_multiset(lines@) == collection_multiset(input0));
                    lemma_live_keyed_update_none(pre, i1 as int);
                    lemma_live_keyed_update_none(mid, i2 as int);
                    let km1 = l1.keyed_seg_multiset();
                    let km2 = l2.keyed_seg_multiset();
                    assert(live_keyed_multiset(lines@) == live_keyed_multiset(base).add(
                        joined.keyed_seg_multiset(),
                    ));
                    assert(live_keyed_multiset(base).add(km1.add(km2)) =~= live_keyed_multiset(
                        base,
                    ).add(km2).add(km1));
                    assert(live_keyed_multiset(lines@) == collection_keyed_multiset(input0));
                    // The merge joins two derived pieces that share an endpoint
                    // without closing a loop, so it is itself derived.
                    assert(pre[i1 as int]->0 == l1 && pre[i2 as int]->0 == l2);
                    assert(chain_derived(l1, input0) && chain_derived(l2, input0));
                    let d1 = choose|d: nat| derived_from(l1, input0, d);
                    let d2 = choose|d: nat| derived_from(l2, input0, d);
                    let dm = if d1 >= d2 {
                        d1
                    } else {
                        d2
                    };
                    lemma_derived_mono(l1, input0, d1, dm);
                    lemma_derived_mono(l2, input0, d2, dm);
                    assert(chain_merge_of(joined, l1, l2));
                    assert(derived_from(joined, input0, (dm + 1) as nat)) by {
                        assert(derived_from(l1, input0, dm) && derived_from(l2, input0, dm)
                            && chain_merge_of(joined, l1, l2));
                    }
                    assert forall|j: int|
                        0 <= j < lines@.len() && (#[trigger] lines@[j]) is Some implies
                    chain_derived(lines@[j]->0, input0) by {
                        if j == lines@.len() - 1 {
                            assert(lines@[j]->0 == joined);
                        } else if j != i1 && j != i2 {
                            assert(lines@[j] == pre[j]);
                        }
                    }
                    if spec_two_chain(input0) {
                        assert(l1 == input0[0] && l2 == input0[1]);
                        lemma_join_endpoints(input0[0], input0[1]);
                        assert(lines@ =~= seq![
                            Option::<KeyedLineString<ID>>::None,
                            None,
                            Some(joined),
                        ]);
                        assert(spec_closed_pair(lines@, input0[0], input0[1]));
                    }
                }
            }
        }
        proof {
            if spec_two_chain(input0) && lines@.len() == 2 {
                // No merge fired here, so the shared point is still ahead of us.
                let shared = spec_shared_pt(input0[0], input0[1]);
                assert(candidates@[c as int] != shared);
                let k0 = choose|k: int|
                    c <= k < candidates@.len() && candidates@[k] == shared;
                assert(c + 1 <= k0 < candidates@.len() && candidates@[k0] == shared);
            }
        }
        c = c + 1;
    }

    // Hand back all surviving linestrings, merged and untouched, in index order.
    let ghost snap = lines@;
    let nl = lines.len();
    let mut result: Vec<KeyedLineString<ID>> = Vec::new();
    let mut k: usize = 0;
    while k < nl
        invariant
            nl == lines@.len(),
            k <= nl,
            snap.len() == nl,
            forall|j: int| k <= j < nl ==> lines@[j] == snap[j],
            forall|j: int| 0 <= j < snap.len() && snap[j] is Some ==> (snap[j]->0).wf(),
            forall|j: int|
                0 <= j < snap.len() && snap[j] is Some ==> key_among(
                    ((#[trigger] snap[j])->0).key,
                    input0,
                ),
            result@ == spec_live(snap.subrange(0, k as int)),
            forall|j: int| 0 <= j < result@.len() ==> result@[j].wf(),
            forall|j: int|
                0 <= j < result@.len() ==> key_among((#[trigger] result@[j]).key, input0),
            forall|j: int|
                0 <= j < snap.len() && (#[trigger] snap[j]) is Some ==> chain_derived(
                    snap[j]->0,
                    input0,
                ),
            forall|i: int| 0 <= i < result@.len() ==> chain_derived(#[trigger] result@[i], input0),
        decreases nl - k,
    {
        let ghost pre = snap.subrange(0, k as int);
        let ghost pre_result = result@;
        if lines[k].is_some() {
            let l = take_line(&mut lines, k);
            result.push(l);
            proof {
                assert forall|i: int| 0 <= i < result@.len() implies chain_derived(
                    #[trigger] result@[i],
                    input0,
                ) by {
                    if i < pre_result.len() {
                        assert(result@[i] == pre_result[i]);
                    } else {
                        assert(result@[i] == snap[k as int]->0);
                    }
                }
            }
        }
        proof {
            let cur = snap.subrange(0, k as int + 1);
            assert(cur.drop_last() =~= pre);
            assert(cur.last() == snap[k as int]);
            assert(result@ =~= spec_live(cur));
        }
        k = k + 1;
    }
    proof {
        assert(snap.subrange(0, nl as int) =~= snap);
        lemma_live_is_collection(snap);
        lemma_live_keyed_is_collection(snap);
        if spec_two_loop(input0) {
            lemma_live_of_full(snap, input0);
        }
        if spec_two_chain(input0) {
            let e0 = snap.drop_last();
            let e1 = e0.drop_last();
            let e2 = e1.drop_last();
            assert(e2.len() == 0);
            assert(spec_live(e2) =~= Seq::<KeyedLineString<ID>>::empty());
            assert(e1.len() == 1 && e1.last() is None);
            assert(spec_live(e1) =~= Seq::<KeyedLineString<ID>>::empty());
            assert(e0.len() == 2 && e0.last() is None);
            assert(spec_live(e0) =~= Seq::<KeyedLineString<ID>>::empty());
            assert(snap.last() == snap[2]);
            assert(spec_live(snap) =~= seq![snap[2]->0]);
        }
    }
    result
}

/// `l` is the merge of `a` and `b`, which together close a ring.
pub open spec fn loop_join_of<ID>(
    l: KeyedLineString<ID>,
    a: KeyedLineString<ID>,
    b: KeyedLineString<ID>,
) -> bool {
    &&& a.wf()
    &&& b.wf()
    &&& spec_is_loop(a, b)
    &&& l.linestring@ == spec_join_coords(a, b)
    &&& l.ids@ == spec_join_ids(a, b)
    &&& l.key == a.key
}

/// `l` is the merge of the adjacent, non-loop pieces `a` and `b`.
pub open spec fn chain_merge_of<ID>(
    l: KeyedLineString<ID>,
    a: KeyedLineString<ID>,
    b: KeyedLineString<ID>,
) -> bool {
    &&& a.wf()
    &&& b.wf()
    &&& spec_adjacent(a, b)
    &&& !spec_is_loop(a, b)
    &&& l.linestring@ == spec_join_coords(a, b)
    &&& l.ids@ == spec_join_ids(a, b)
    &&& l.key == a.key
}

/// `l` arises from the given linestrings by at most `d` rounds of merging
/// adjacent non-loop pieces.
pub open spec fn derived_from<ID>(l: KeyedLineString<ID>, inputs: Seq<KeyedLineString<ID>>, d: nat) -> bool
    decreases d,
{
    ||| exists|q: int| 0 <= q < inputs.len() && l == inputs[q]
    ||| (d > 0 && exists|a: KeyedLineString<ID>, b: KeyedLineString<ID>|
        derived_from(a, inputs, (d - 1) as nat) && derived_from(b, inputs, (d - 1) as nat)
            && chain_merge_of(l, a, b))
}

/// `l` is one of the given linestrings unchanged, or arose from them by
/// merging adjacent non-loop pieces, chains into chains: nothing else ever
/// leaves the chain pass.
pub open spec fn chain_derived<ID>(l: KeyedLineString<ID>, inputs: Seq<KeyedLineString<ID>>) -> bool {
    exists|d: nat| derived_from(l, inputs, d)
}

/// More rounds derive no less.
proof fn lemma_derived_mono<ID>(
    l: KeyedLineString<ID>,
    inputs: Seq<KeyedLineString<ID>>,
    d1: nat,
    d2: nat,
)
    requires
        d1 <= d2,
        derived_from(l, inputs, d1),
    ensures
        derived_from(l, inputs, d2),
    decreases d1,
{
    if !(exists|q: int| 0 <= q < inputs.len() && l == inputs[q]) {
        let (a, b) = choose|a: KeyedLineString<ID>, b: KeyedLineString<ID>|
            derived_from(a, inputs, (d1 - 1) as nat) && derived_from(b, inputs, (d1 - 1) as nat)
                && chain_merge_of(l, a, b);
        lemma_derived_mono(a, inputs, (d1 - 1) as nat, (d2 - 1) as nat);
        lemma_derived_mono(b, inputs, (d1 - 1) as nat, (d2 - 1) as nat);
        assert(derived_from(a, inputs, (d2 - 1) as nat) && derived_from(b, inputs, (d2 - 1) as nat)
            && chain_merge_of(l, a, b));
    }
}

/// `l` is one of the given linestrings unchanged, or the merge of two
/// distinct ones that close a ring: nothing else ever leaves the loop pass.
pub open spec fn from_inputs<ID>(
    l: KeyedLineString<ID>,
    inputs: Seq<KeyedLineString<ID>>,
) -> bool {
    ||| exists|q: int| 0 <= q < inputs.len() && l == inputs[q]
    ||| exists|q1: int, q2: int|
        0 <= q1 < inputs.len() && 0 <= q2 < inputs.len() && q1 != q2 && loop_join_of(
            l,
            inputs[q1],
            inputs[q2],
        )
}

/// The working set after a two-segment loop has closed: both inputs consumed,
/// one merged ring left.
pub open spec fn spec_closed_pair<ID>(
    lines: Seq<Option<KeyedLineString<ID>>>,
    in0: KeyedLineString<ID>,
    in1: KeyedLineString<ID>,
) -> bool {
    &&& lines.len() == 3
    &&& lines[0] is None
    &&& lines[1] is None
    &&& lines[2] is Some
    &&& (lines[2]->0).linestring@ == spec_join_coords(in0, in1)
    &&& (lines[2]->0).ids@ == spec_join_ids(in0, in1)
    &&& (lines[2]->0).key == in0.key
}

/// Like `collapse_degree_2`, but only combines pairs of input that form a loop.
pub fn collapse_loops<ID: Copy>(input_lines: Vec<KeyedLineString<ID>>) -> (result: Vec<
    KeyedLineString<ID>,
>)
    requires
        forall|i: int| 0 <= i < input_lines@.len() ==> input_lines@[i].wf(),
    ensures
        forall|i: int| 0 <= i < result@.len() ==> result@[i].wf(),
        collection_multiset(result@) == collection_multiset(input_lines@),
        collection_keyed_multiset(result@) == collection_keyed_multiset(input_lines@),
        forall|i: int|
            0 <= i < result@.len() ==> key_among((#[trigger] result@[i]).key, input_lines@),
        forall|i: int|
            0 <= i < result@.len() ==> from_inputs(#[trigger] result@[i], input_lines@),
        spec_two_loop(input_lines@) ==> (result@.len() == 1 && result@[0].linestring@
            == spec_join_coords(input_lines@[0], input_lines@[1]) && result@[0].ids@
            == spec_join_ids(input_lines@[0], input_lines@[1]) && result@[0].key
            == input_lines@[0].key),
{
    broadcast use vstd::multiset::group_multiset_axioms;

    let ghost input0 = input_lines@;

    let mut lines: Vec<Option<KeyedLineString<ID>>> = Vec::new();
    let mut rest = input_lines;
    while rest.len() > 0
        invariant
            forall|j: int| 0 <= j < input0.len() ==> input0[j].wf(),
            lines@.len() + rest@.len() == input0.len(),
            forall|j: int| 0 <= j < lines@.len() ==> lines@[j] == Some(input0[j]),
            rest@ =~= input0.subrange(lines@.len() as int, input0.len() as int),
        decreases rest@.len(),
    {
        let l = rest.remove(0);
        lines.push(Some(l));
    }
    proof {
        lemma_live_of_full(lines@, input0);
        lemma_live_keyed_is_collection(lines@);
    }

    // Find all pairs of lines that close a loop at some degree-2 point.
    let n0 = lines.len();
    let mut loop_pairs: Vec<(usize, usize)> = Vec::new();
    let mut i: usize = 0;
    while i < n0
        invariant
            n0 == lines@.len(),
            i <= n0,
            lines@.len() == input0.len(),
            forall|j: int| 0 <= j < lines@.len() ==> lines@[j] == Some(input0[j]),
            forall|j: int| 0 <= j < input0.len() ==> input0[j].wf(),
            forall|j: int| 0 <= j < lines@.len() && lines@[j] is Some ==> (lines@[j]->0).wf(),
            forall|k: int|
                0 <= k < loop_pairs@.len() ==> ((#[trigger] loop_pairs@[k]).0 < input0.len()
                    && loop_pairs@[k].1 < input0.len()),
            spec_two_loop(input0) ==> forall|k: int|
                0 <= k < loop_pairs@.len() ==> #[trigger] loop_pairs@[k] == (0usize, 1usize),
            spec_two_loop(input0) && i >= 1 ==> loop_pairs@.len() >= 1,
        decreases n0 - i,
    {
        let fp = get_line(&lines, i).first_pt();
        let slots_f = endpoint_slots(&lines, fp);
        proof {
            if spec_two_loop(input0) {
                assert(lines@ =~= seq![Some(input0[0]), Some(input0[1])]);
                lemma_two_loop_slots(input0[0], input0[1], fp);
            }
        }
        if slots_f.len() == 2 {
            proof {
                lemma_slots_valid(lines@, fp);
                assert(valid_slot(lines@, fp, slots_f@[0]));
                assert(valid_slot(lines@, fp, slots_f@[1]));
            }
            let ghost pre_pairs = loop_pairs@;
            if is_loop(get_line(&lines, slots_f[0]), get_line(&lines, slots_f[1])) {
                loop_pairs.push((slots_f[0], slots_f[1]));
                proof {
                    assert forall|k: int| 0 <= k < loop_pairs@.len() implies ((
                    #[trigger] loop_pairs@[k]).0 < input0.len() && loop_pairs@[k].1
                        < input0.len()) by {
                        if k < pre_pairs.len() {
                            assert(loop_pairs@[k] == pre_pairs[k]);
                        }
                    }
                    if spec_two_loop(input0) {
                        assert forall|k: int| 0 <= k < loop_pairs@.len() implies #[trigger] loop_pairs@[k]
                            == (0usize, 1usize) by {
                            if k < pre_pairs.len() {
                                assert(loop_pairs@[k] == pre_pairs[k]);
                            }
                        }
                    }
                }
            }
        }
        let lp = get_line(&lines, i).last_pt();
        let slots_l = endpoint_slots(&lines, lp);
        proof {
            if spec_two_loop(input0) {
                assert(lines@ =~= seq![Some(input0[0]), Some(input0[1])]);
                lemma_two_loop_slots(input0[0], input0[1], lp);
            }
        }
        if slots_l.len() == 2 {
            proof {
                lemma_slots_valid(lines@, lp);
                assert(valid_slot(lines@, lp, slots_l@[0]));
                assert(valid_slot(lines@, lp, slots_l@[1]));
            }
            let ghost pre_pairs = loop_pairs@;
            if is_loop(get_line(&lines, slots_l[0]), get_line(&lines, slots_l[1])) {
                loop_pairs.push((slots_l[0], slots_l[1]));
                proof {
                    assert forall|k: int| 0 <= k < loop_pairs@.len() implies ((
                    #[trigger] loop_pairs@[k]).0 < input0.len() && loop_pairs@[k].1
                        < input0.len()) by {
                        if k < pre_pairs.len() {
                            assert(loop_pairs@[k] == pre_pairs[k]);
                        }
                    }
                    if spec_two_loop(input0) {
                        assert forall|k: int| 0 <= k < loop_pairs@.len() implies #[trigger] loop_pairs@[k]
                            == (0usize, 1usize) by {
                            if k < pre_pairs.len() {
                                assert(loop_pairs@[k] == pre_pairs[k]);
                            }
                        }
                    }
                }
            }
        }
        i = i + 1;
    }
    proof {
        assert forall|j: int| 0 <= j < lines@.len() && lines@[j] is Some implies key_among(
            ((#[trigger] lines@[j])->0).key,
            input0,
        ) by {
            assert(input0[j].key == input0[j].key);
        }
        assert forall|j: int|
            0 <= j < lines@.len() && (#[trigger] lines@[j]) is Some implies from_inputs(
            lines@[j]->0,
            input0,
        ) by {
            assert(lines@[j]->0 == input0[j]);
        }
        if spec_two_loop(input0) {
            assert(lines@ =~= seq![Some(input0[0]), Some(input0[1])]);
        }
    }

    // Each pair shows up twice (once from each shared point) and is merged
    // only the first time, while both members are still live. After merging a
    // loop, no further fix-up is ever necessary.
    let npairs = loop_pairs.len();
    let mut p: usize = 0;
    while p < npairs
        invariant
            npairs == loop_pairs@.len(),
            p <= npairs,
            forall|j: int| 0 <= j < lines@.len() && lines@[j] is Some ==> (lines@[j]->0).wf(),
            live_multiset(lines@) == collection_multiset(input0),
            live_keyed_multiset(lines@) == collection_keyed_multiset(input0),
            forall|j: int|
                0 <= j < lines@.len() && lines@[j] is Some ==> key_among(
                    ((#[trigger] lines@[j])->0).key,
                    input0,
                ),
            lines@.len() >= input0.len(),
            forall|k: int|
                0 <= k < loop_pairs@.len() ==> ((#[trigger] loop_pairs@[k]).0 < input0.len()
                    && loop_pairs@[k].1 < input0.len()),
            forall|j: int|
                0 <= j < input0.len() && lines@[j] is Some ==> (#[trigger] lines@[j])->0
                    == input0[j],
            forall|j: int|
                0 <= j < lines@.len() && (#[trigger] lines@[j]) is Some ==> from_inputs(
                    lines@[j]->0,
                    input0,
                ),
            spec_two_loop(input0) ==> npairs >= 1,
            spec_two_loop(input0) ==> forall|k: int|
                0 <= k < loop_pairs@.len() ==> #[trigger] loop_pairs@[k] == (0usize, 1usize),
            spec_two_loop(input0) ==> ((p == 0 && lines@ == seq![Some(input0[0]), Some(input0[1])])
                || spec_closed_pair(lines@, input0[0], input0[1])),
        decreases npairs - p,
    {
        let (i1, i2) = loop_pairs[p];
        if i1 != i2 && i1 < lines.len() && i2 < lines.len() {
            let live1 = lines[i1].is_some();
            let live2 = lines[i2].is_some();
            if live1 && live2 {
                // A consumed member leaves None behind, so two live slots
                // still hold exactly the linestrings the pair was collected
                // from; re-checking the loop test carries that fact into the
                // merge.
                let still_loop = is_loop(get_line(&lines, i1), get_line(&lines, i2));
                if still_loop {
                    let ghost pre = lines@;
                    let l1 = take_line(&mut lines, i1);
                    let ghost mid = lines@;
                    let l2 = take_line(&mut lines, i2);
                    let joined = join_lines(l1, l2);
                    lines.push(Some(joined));
                    proof {
                        assert(key_among(joined.key, input0)) by {
                            assert(pre[i1 as int]->0 == l1 && joined.key == l1.key);
                        }
                        assert forall|j: int| 0 <= j < lines@.len() && lines@[j] is Some implies
                        key_among(((#[trigger] lines@[j])->0).key, input0) by {
                            if j < pre.len() && j != i1 && j != i2 {
                                assert(lines@[j] == pre[j]);
                            }
                        }
                        lemma_live_update_none(pre, i1 as int);
                        lemma_live_update_none(mid, i2 as int);
                        let m1 = l1.seg_multiset();
                        let m2 = l2.seg_multiset();
                        let base = lines@.drop_last();
                        assert(base =~= mid.update(i2 as int, None));
                        assert(lines@.last() == Some(joined));
                        assert(live_multiset(lines@) == live_multiset(base).add(
                            joined.seg_multiset(),
                        ));
                        assert(live_multiset(base).add(m1.add(m2)) =~= live_multiset(base).add(
                            m2,
                        ).add(m1));
                        assert(live_multiset(lines@) == collection_multiset(input0));
                        lemma_live_keyed_update_none(pre, i1 as int);
                        lemma_live_keyed_update_none(mid, i2 as int);
                        let km1 = l1.keyed_seg_multiset();
                        let km2 = l2.keyed_seg_multiset();
                        assert(live_keyed_multiset(lines@) == live_keyed_multiset(base).add(
                            joined.keyed_seg_multiset(),
                        ));
                        assert(live_keyed_multiset(base).add(km1.add(km2)) =~= live_keyed_multiset(
                            base,
                        ).add(km2).add(km1));
                        assert(live_keyed_multiset(lines@) == collection_keyed_multiset(input0));
                        // The pair named two still-live originals, so the merge
                        // is the loop-join of two distinct inputs.
                        assert(l1 == input0[i1 as int] && l2 == input0[i2 as int]);
                        assert(loop_join_of(joined, input0[i1 as int], input0[i2 as int]));
                        assert(from_inputs(joined, input0));
                        assert forall|j: int|
                            0 <= j < lines@.len() && (#[trigger] lines@[j]) is Some implies
                        from_inputs(lines@[j]->0, input0) by {
                            if j == lines@.len() - 1 {
                                assert(lines@[j]->0 == joined);
                            } else if j != i1 && j != i2 {
                                assert(lines@[j] == pre[j]);
                            }
                        }
                        if spec_two_loop(input0) {
                            // Only the untouched state reaches a merge, so this
                            // closes the one loop the input holds.
                            assert(l1 == input0[0] && l2 == input0[1]);
                            assert(lines@ =~= seq![
                                Option::<KeyedLineString<ID>>::None,
                                None,
                                Some(joined),
                            ]);
                            assert(spec_closed_pair(lines@, input0[0], input0[1]));
                        }
                    }
                }
            }
        }
        p = p + 1;
    }

    let ghost snap = lines@;
    let nl = lines.len();
    let mut result: Vec<KeyedLineString<ID>> = Vec::new();
    let mut k: usize = 0;
    while k < nl
        invariant
            nl == lines@.len(),
            k <= nl,
            snap.len() == nl,
            forall|j: int| k <= j < nl ==> lines@[j] == snap[j],
            forall|j: int| 0 <= j < snap.len() && snap[j] is Some ==> (snap[j]->0).wf(),
            forall|j: int|
                0 <= j < snap.len() && snap[j] is Some ==> key_among(
                    ((#[trigger] snap[j])->0).key,
                    input0,
                ),
            forall|j: int|
                0 <= j < snap.len() && (#[trigger] snap[j]) is Some ==> from_inputs(
                    snap[j]->0,
                    input0,
                ),
            result@ == spec_live(snap.subrange(0, k as int)),
            forall|j: int| 0 <= j < result@.len() ==> result@[j].wf(),
            forall|j: int|
                0 <= j < result@.len() ==> key_among((#[trigger] result@[j]).key, input0),
            forall|i: int| 0 <= i < result@.len() ==> from_inputs(#[trigger] result@[i], input0),
        decreases nl - k,
    {
        let ghost pre = snap.subrange(0, k as int);
        let ghost pre_result = result@;
        if lines[k].is_some() {
            let l = take_line(&mut lines, k);
            result.push(l);
            proof {
                assert forall|i: int| 0 <= i < result@.len() implies from_inputs(
                    #[trigger] result@[i],
                    input0,
                ) by {
                    if i < pre_result.len() {
                        assert(result@[i] == pre_result[i]);
                    } else {
                        assert(result@[i] == snap[k as int]->0);
                    }
                }
            }
        }
        proof {
            let cur = snap.subrange(0, k as int + 1);
            assert(cur.drop_last() =~= pre);
            assert(cur.last() == snap[k as int]);
            assert(result@ =~= spec_live(cur));
        }
        k = k + 1;
    }
    proof {
        assert(snap.subrange(0, nl as int) =~= snap);
        lemma_live_is_collection(snap);
        lemma_live_keyed_is_collection(snap);
        if spec_two_loop(input0) {
            assert(spec_closed_pair(snap, input0[0], input0[1]));
            let e0 = snap.drop_last();
            let e1 = e0.drop_last();
            let e2 = e1.drop_last();
            assert(e2.len() == 0);
            assert(spec_live(e2) =~= Seq::<KeyedLineString<ID>>::empty());
            assert(e1.len() == 1 && e1.last() is None);
            assert(spec_live(e1) =~= Seq::<KeyedLineString<ID>>::empty());
            assert(e0.len() == 2 && e0.last() is None);
            assert(spec_live(e0) =~= Seq::<KeyedLineString<ID>>::empty());
            assert(snap.last() == snap[2]);
            assert(spec_live(snap) =~= seq![snap[2]->0]);
        }
    }
    result
}

} // verus!
