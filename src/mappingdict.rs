//! The identity index: records that pair a Matrix ID with an external ID, reachable by either.
use vstd::prelude::*;
use vstd::std_specs::iter::IteratorSpec;

use crate::text::same_text;

verus! {

/// An ID being either a Matrix ID or an external ID for one object.
#[derive(Debug, Clone, Copy, PartialEq, Eq, Hash)]
pub enum MappingId<'a> {
    /// A reference to the ID of an external object.
    External(&'a str),
    /// A reference to the ID of a Matrix object.
    Matrix(&'a str),
}

/// An ID as plain text, of the kind that it names.
pub enum MappingKey {
    /// The ID of an external object.
    External(Seq<char>),
    /// The ID of a Matrix object.
    Matrix(Seq<char>),
}

impl<'a> View for MappingId<'a> {
    type V = MappingKey;

    open spec fn view(&self) -> MappingKey {
        match self {
            MappingId::External(e) => MappingKey::External(e@),
            MappingId::Matrix(m) => MappingKey::Matrix(m@),
        }
    }
}

/// Represents an object that has both a Matrix ID and an external ID.
///
/// The two IDs are the keys under which a `MappingDict` indexes the object.
pub trait Mappable {
    /// The Matrix ID of this object.
    spec fn matrix_id(&self) -> Seq<char>;

    /// The external ID of this object.
    spec fn external_id(&self) -> Seq<char>;

    /// Get a reference to the Matrix ID of this object.
    fn as_matrix(&self) -> (r: &str)
        ensures
            r@ == self.matrix_id(),
    ;

    /// Convert this object into an owned Matrix ID of this object.
    fn into_matrix(self) -> (r: String)
        ensures
            r@ == self.matrix_id(),
    ;

    /// Get a reference to the external ID of this object.
    fn as_external(&self) -> (r: &str)
        ensures
            r@ == self.external_id(),
    ;

    /// Convert this object into an owned external ID of this object.
    fn into_external(self) -> (r: String)
        ensures
            r@ == self.external_id(),
    ;

    /// Split this object into its owned Matrix ID and external ID.
    fn into_split(self) -> (r: (String, String))
        ensures
            r.0@ == self.matrix_id(),
            r.1@ == self.external_id(),
    ;
}

/// A record that pairs a Matrix ID with an external ID and carries data of the caller's. The IDs
/// are fixed when the record is made; the data may change.
#[derive(Debug, Clone, PartialEq, Eq)]
pub struct Record<T> {
    matrix: String,
    external: String,
    /// The data carried along with the IDs.
    pub data: T,
}

impl<T> Record<T> {
    /// A record of the two IDs and `data`.
    pub fn new(matrix: String, external: String, data: T) -> (r: Self)
        ensures
            r.matrix_id() == matrix@,
            r.external_id() == external@,
            r.carried() == data,
    {
        Record { matrix, external, data }
    }

    /// The data carried along with the IDs.
    pub closed spec fn carried(&self) -> T {
        self.data
    }
}

impl<T> Mappable for Record<T> {
    closed spec fn matrix_id(&self) -> Seq<char> {
        self.matrix@
    }

    closed spec fn external_id(&self) -> Seq<char> {
        self.external@
    }

    fn as_matrix(&self) -> (r: &str) {
        self.matrix.as_str()
    }

    fn into_matrix(self) -> (r: String) {
        self.matrix
    }

    fn as_external(&self) -> (r: &str) {
        self.external.as_str()
    }

    fn into_external(self) -> (r: String) {
        self.external
    }

    fn into_split(self) -> (r: (String, String)) {
        (self.matrix, self.external)
    }
}

/// Whether `v` carries the ID `id` (of the kind that `id` names).
pub open spec fn has_mapping_id<V: Mappable>(v: V, id: MappingKey) -> bool {
    match id {
        MappingKey::Matrix(m) => v.matrix_id() == m,
        MappingKey::External(e) => v.external_id() == e,
    }
}

/// Whether two records share a Matrix ID or an external ID.
pub open spec fn collides<V: Mappable>(a: V, b: V) -> bool {
    a.matrix_id() == b.matrix_id() || a.external_id() == b.external_id()
}

/// No two records of `s` share a Matrix ID, and no two share an external ID.
pub open spec fn keys_unique<V: Mappable>(s: Seq<V>) -> bool {
    forall|i: int, j: int|
        0 <= i < s.len() && 0 <= j < s.len() && i != j ==> {
            &&& #[trigger] s[i].matrix_id() != #[trigger] s[j].matrix_id()
            &&& s[i].external_id() != s[j].external_id()
        }
}

/// Whether some record of `s` carries `id`.
pub open spec fn contains_id<V: Mappable>(s: Seq<V>, id: MappingKey) -> bool {
    exists|i: int| 0 <= i < s.len() && has_mapping_id(#[trigger] s[i], id)
}

/// The first position of a record of `s` that carries `id` (meaningful where one does).
pub open spec fn index_of<V: Mappable>(s: Seq<V>, id: MappingKey) -> int {
    choose|i: int|
        0 <= i < s.len() && has_mapping_id(#[trigger] s[i], id) && forall|j: int|
            0 <= j < i ==> !has_mapping_id(#[trigger] s[j], id)
}

/// The records of `s` that do not collide with `v`, in their order.
pub open spec fn without_collisions<V: Mappable>(s: Seq<V>, v: V) -> Seq<V>
    decreases s.len(),
{
    if s.len() == 0 {
        s
    } else {
        let rest = without_collisions(s.drop_last(), v);
        if collides(s.last(), v) {
            rest
        } else {
            rest.push(s.last())
        }
    }
}

/// The records after `v` is inserted into `s`: every record that shares an ID with `v` is
/// displaced, and `v` is appended.
pub open spec fn inserted<V: Mappable>(s: Seq<V>, v: V) -> Seq<V> {
    without_collisions(s, v).push(v)
}

/// The records after inserting each of `items` in turn into `s`.
pub open spec fn inserted_all<V: Mappable>(s: Seq<V>, items: Seq<V>) -> Seq<V>
    decreases items.len(),
{
    if items.len() == 0 {
        s
    } else {
        inserted(inserted_all(s, items.drop_last()), items.last())
    }
}

proof fn lemma_remove_colliding<V: Mappable>(s: Seq<V>, v: V, i: int)
    requires
        0 <= i < s.len(),
        collides(s[i], v),
    ensures
        without_collisions(s.remove(i), v) == without_collisions(s, v),
    decreases s.len(),
{
    if i == s.len() - 1 {
        assert(s.remove(i) =~= s.drop_last());
    } else {
        let t = s.remove(i);
        assert(t.drop_last() =~= s.drop_last().remove(i));
        assert(t.last() == s.last());
        lemma_remove_colliding(s.drop_last(), v, i);
    }
}

proof fn lemma_no_collisions<V: Mappable>(s: Seq<V>, v: V)
    requires
        forall|k: int| 0 <= k < s.len() ==> !collides(#[trigger] s[k], v),
    ensures
        without_collisions(s, v) == s,
    decreases s.len(),
{
    if s.len() > 0 {
        lemma_no_collisions(s.drop_last(), v);
        assert(s.drop_last().push(s.last()) =~= s);
    }
}

proof fn lemma_remove_keeps_unique<V: Mappable>(s: Seq<V>, i: int)
    requires
        keys_unique(s),
        0 <= i < s.len(),
    ensures
        keys_unique(s.remove(i)),
{
    let t = s.remove(i);
    assert forall|a: int, b: int| 0 <= a < t.len() && 0 <= b < t.len() && a != b implies {
        &&& #[trigger] t[a].matrix_id() != #[trigger] t[b].matrix_id()
        &&& t[a].external_id() != t[b].external_id()
    } by {
        let sa = if a < i { a } else { a + 1 };
        let sb = if b < i { b } else { b + 1 };
        assert(t[a] == s[sa]);
        assert(t[b] == s[sb]);
        assert(s[sa].matrix_id() != s[sb].matrix_id());
    }
}

proof fn lemma_push_keeps_unique<V: Mappable>(s: Seq<V>, v: V)
    requires
        keys_unique(s),
        forall|k: int| 0 <= k < s.len() ==> !collides(#[trigger] s[k], v),
    ensures
        keys_unique(s.push(v)),
{
    let t = s.push(v);
    assert forall|a: int, b: int| 0 <= a < t.len() && 0 <= b < t.len() && a != b implies {
        &&& #[trigger] t[a].matrix_id() != #[trigger] t[b].matrix_id()
        &&& t[a].external_id() != t[b].external_id()
    } by {
        if a < s.len() && b < s.len() {
            assert(t[a] == s[a] && t[b] == s[b]);
            assert(s[a].matrix_id() != s[b].matrix_id());
        } else if a < s.len() {
            assert(t[a] == s[a] && t[b] == v);
            assert(!collides(s[a], v));
        } else {
            assert(t[b] == s[b] && t[a] == v);
            assert(!collides(s[b], v));
        }
    }
}

/// The position of the first record of `s` that carries `id`, where some record does.
proof fn first_with_id<V: Mappable>(s: Seq<V>, id: MappingKey) -> (i: int)
    requires
        contains_id(s, id),
    ensures
        0 <= i < s.len(),
        has_mapping_id(s[i], id),
        forall|j: int| 0 <= j < i ==> !has_mapping_id(#[trigger] s[j], id),
    decreases s.len(),
{
    let d = s.drop_last();
    if exists|w: int| 0 <= w < d.len() && has_mapping_id(#[trigger] d[w], id) {
        let i = first_with_id(d, id);
        assert forall|j: int| 0 <= j < i implies !has_mapping_id(#[trigger] s[j], id) by {
            assert(d[j] == s[j]);
        }
        assert(d[i] == s[i]);
        i
    } else {
        let w = choose|w: int| 0 <= w < s.len() && has_mapping_id(#[trigger] s[w], id);
        assert(w == s.len() - 1) by {
            if w < s.len() - 1 {
                assert(d[w] == s[w]);
            }
        }
        assert forall|j: int| 0 <= j < s.len() - 1 implies !has_mapping_id(#[trigger] s[j], id) by {
            assert(d[j] == s[j]);
        }
        w
    }
}

/// Where some record of `s` carries `id`, `index_of(s, id)` is the position of the first one.
proof fn lemma_index_of_found<V: Mappable>(s: Seq<V>, id: MappingKey)
    requires
        contains_id(s, id),
    ensures
        0 <= index_of(s, id) < s.len(),
        has_mapping_id(s[index_of(s, id)], id),
{
    let i = first_with_id(s, id);
    lemma_index_of_first(s, id, i);
}

/// The first record of `s` that carries `id` sits at `index_of(s, id)`.
proof fn lemma_index_of_first<V: Mappable>(s: Seq<V>, id: MappingKey, i: int)
    requires
        0 <= i < s.len(),
        has_mapping_id(s[i], id),
        forall|j: int| 0 <= j < i ==> !has_mapping_id(#[trigger] s[j], id),
    ensures
        contains_id(s, id),
        index_of(s, id) == i,
{
    let c = index_of(s, id);
    assert(0 <= c < s.len() && has_mapping_id(s[c], id));
    if c < i {
        assert(!has_mapping_id(s[c], id));
    }
    if c > i {
        assert(!has_mapping_id(s[i], id));
    }
}

/// Under unique keys, a record that carries `id` sits at `index_of(s, id)`.
proof fn lemma_index_of_unique<V: Mappable>(s: Seq<V>, id: MappingKey, i: int)
    requires
        keys_unique(s),
        0 <= i < s.len(),
        has_mapping_id(s[i], id),
    ensures
        contains_id(s, id),
        index_of(s, id) == i,
{
    assert forall|j: int| 0 <= j < i implies !has_mapping_id(#[trigger] s[j], id) by {
        assert(s[j].matrix_id() != s[i].matrix_id());
    }
    lemma_index_of_first(s, id, i);
}

proof fn lemma_without_collisions_members<V: Mappable>(s: Seq<V>, v: V)
    ensures
        forall|k: int|
            0 <= k < without_collisions(s, v).len() ==> {
                &&& !collides(#[trigger] without_collisions(s, v)[k], v)
                &&& exists|j: int| 0 <= j < s.len() && s[j] == without_collisions(s, v)[k]
            },
    decreases s.len(),
{
    if s.len() > 0 {
        lemma_without_collisions_members(s.drop_last(), v);
        let rest = without_collisions(s.drop_last(), v);
        assert forall|k: int| 0 <= k < rest.len() implies exists|j: int|
            0 <= j < s.len() && s[j] == #[trigger] rest[k] by {
            let j = choose|j: int| 0 <= j < s.drop_last().len() && s.drop_last()[j] == rest[k];
            assert(s[j] == rest[k]);
        }
        assert(s[s.len() - 1] == s.last());
    }
}

proof fn lemma_without_collisions_unique<V: Mappable>(s: Seq<V>, v: V)
    requires
        keys_unique(s),
    ensures
        keys_unique(without_collisions(s, v)),
    decreases s.len(),
{
    if s.len() > 0 {
        let d = s.drop_last();
        assert(keys_unique(d)) by {
            assert forall|a: int, b: int| 0 <= a < d.len() && 0 <= b < d.len() && a != b implies {
                &&& #[trigger] d[a].matrix_id() != #[trigger] d[b].matrix_id()
                &&& d[a].external_id() != d[b].external_id()
            } by {
                assert(d[a] == s[a] && d[b] == s[b]);
                assert(s[a].matrix_id() != s[b].matrix_id());
            }
        }
        lemma_without_collisions_unique(d, v);
        lemma_without_collisions_members(d, v);
        let rest = without_collisions(d, v);
        if !collides(s.last(), v) {
            let t = rest.push(s.last());
            assert forall|a: int, b: int| 0 <= a < t.len() && 0 <= b < t.len() && a != b implies {
                &&& #[trigger] t[a].matrix_id() != #[trigger] t[b].matrix_id()
                &&& t[a].external_id() != t[b].external_id()
            } by {
                if a < rest.len() && b < rest.len() {
                    assert(t[a] == rest[a] && t[b] == rest[b]);
                    assert(rest[a].matrix_id() != rest[b].matrix_id());
                } else {
                    let k = if a < rest.len() { a } else { b };
                    assert(t[k] == rest[k]);
                    let j = choose|j: int| 0 <= j < d.len() && d[j] == rest[k];
                    assert(d[j] == s[j]);
                    assert(s[j].matrix_id() != s[s.len() - 1].matrix_id());
                }
            }
        }
    }
}

/// Inserting into records with unique IDs keeps the IDs unique.
proof fn lemma_inserted_unique<V: Mappable>(s: Seq<V>, v: V)
    requires
        keys_unique(s),
    ensures
        keys_unique(inserted(s, v)),
{
    lemma_without_collisions_unique(s, v);
    lemma_without_collisions_members(s, v);
    lemma_push_keeps_unique(without_collisions(s, v), v);
}

/// Every record of a well-formed index is reachable through its Matrix ID and through its
/// external ID: looking either up finds that very record.
pub proof fn lemma_live_records_reachable<V: Mappable>(s: Seq<V>, i: int)
    requires
        keys_unique(s),
        0 <= i < s.len(),
    ensures
        contains_id(s, MappingKey::Matrix(s[i].matrix_id())),
        index_of(s, MappingKey::Matrix(s[i].matrix_id())) == i,
        contains_id(s, MappingKey::External(s[i].external_id())),
        index_of(s, MappingKey::External(s[i].external_id())) == i,
{
    lemma_index_of_unique(s, MappingKey::Matrix(s[i].matrix_id()), i);
    lemma_index_of_unique(s, MappingKey::External(s[i].external_id()), i);
}

/// The record at position `i` of `s` is the one found through its Matrix ID and the one found
/// through its external ID.
pub open spec fn reachable_at<V: Mappable>(s: Seq<V>, i: int) -> bool {
    &&& contains_id(s, MappingKey::Matrix(s[i].matrix_id()))
    &&& index_of(s, MappingKey::Matrix(s[i].matrix_id())) == i
    &&& contains_id(s, MappingKey::External(s[i].external_id()))
    &&& index_of(s, MappingKey::External(s[i].external_id())) == i
}

/// One change to an identity index.
pub enum IndexOp<V> {
    /// Inserting a record.
    Insert(V),
    /// Removing the record that carries an ID.
    Remove(MappingKey),
}

/// The records after `op`, as `MappingDict::insert` and `MappingDict::remove` leave them.
pub open spec fn after_op<V: Mappable>(s: Seq<V>, op: IndexOp<V>) -> Seq<V> {
    match op {
        IndexOp::Insert(v) => inserted(s, v),
        IndexOp::Remove(k) => if contains_id(s, k) {
            s.remove(index_of(s, k))
        } else {
            s
        },
    }
}

/// The records after each of `ops` in turn.
pub open spec fn after_ops<V: Mappable>(s: Seq<V>, ops: Seq<IndexOp<V>>) -> Seq<V>
    decreases ops.len(),
{
    if ops.len() == 0 {
        s
    } else {
        after_op(after_ops(s, ops.drop_last()), ops.last())
    }
}

/// Whatever insertions and removals an index has seen since it was empty, no two of its records
/// share an ID, and every record is found through its Matrix ID and through its external ID.
pub proof fn lemma_records_stay_reachable<V: Mappable>(ops: Seq<IndexOp<V>>)
    ensures
        keys_unique(after_ops(Seq::<V>::empty(), ops)),
        forall|i: int|
            0 <= i < after_ops(Seq::<V>::empty(), ops).len() ==> #[trigger] reachable_at(
                after_ops(Seq::<V>::empty(), ops),
                i,
            ),
    decreases ops.len(),
{
    let t = after_ops(Seq::<V>::empty(), ops);
    if ops.len() > 0 {
        lemma_records_stay_reachable(ops.drop_last());
        let s = after_ops(Seq::<V>::empty(), ops.drop_last());
        match ops.last() {
            IndexOp::Insert(v) => lemma_inserted_unique(s, v),
            IndexOp::Remove(k) => if contains_id(s, k) {
                lemma_index_of_found(s, k);
                lemma_remove_keeps_unique(s, index_of(s, k));
            },
        }
    }
    assert forall|i: int| 0 <= i < t.len() implies #[trigger] reachable_at(t, i) by {
        lemma_live_records_reachable(t, i);
    }
}

/// A map comparable to a `HashMap` which contains items that are `Mappable`.
/// The map keeps track of the mapping between both the external ID and the Matrix ID and an
/// object.
///
/// The records are kept in insertion order, and no two of them share a Matrix ID or an external
/// ID. Inserting a record that shares an ID with records already present displaces those
/// records, so every record stays reachable by both of its IDs. Lookups scan the records: the
/// verifier's model of `HashMap` says nothing of maps keyed by `String`, so hashed lookup tables
/// could not carry the index's invariant.
#[derive(Debug, Clone)]
pub struct MappingDict<V: Mappable> {
    items: Vec<V>,
}

/// Relies on `Vec::shrink_to_fit`, which changes the capacity and not the elements.
#[verifier::external_body]
fn shrink_vec<T>(v: &mut Vec<T>)
    ensures
        final(v)@ == old(v)@,
{
    v.shrink_to_fit()
}

impl<V: Mappable> View for MappingDict<V> {
    type V = Seq<V>;

    closed spec fn view(&self) -> Seq<V> {
        self.items@
    }
}

impl<V: Mappable> MappingDict<V> {
    /// The records have pairwise distinct Matrix IDs and pairwise distinct external IDs.
    pub open spec fn wf(&self) -> bool {
        keys_unique(self@)
    }

    /// Create a new empty `MappingDict`.
    pub fn new() -> (r: Self)
        ensures
            r.wf(),
            r@ == Seq::<V>::empty(),
    {
        MappingDict { items: Vec::new() }
    }

    /// Create a new `MappingDict` holding the given items, inserted one by one in their order.
    pub fn from_vec(items: Vec<V>) -> (r: Self)
        ensures
            r.wf(),
            r@ == inserted_all(Seq::<V>::empty(), items@),
    {
        let mut res = MappingDict { items: Vec::with_capacity(items.len()) };
        let mut rest = items;
        let ghost n = items@.len();
        while rest.len() > 0
            invariant
                res.wf(),
                n == items@.len(),
                rest@.len() <= n,
                rest@ == items@.subrange(n - rest@.len(), n as int),
                res@ == inserted_all(Seq::<V>::empty(), items@.subrange(0, n - rest@.len())),
            decreases rest.len(),
        {
            let ghost k = n - rest@.len();
            let v = rest.remove(0);
            proof {
                assert(items@[k] == v);
                assert(items@.subrange(0, k + 1).drop_last() =~= items@.subrange(0, k));
                assert(rest@ =~= items@.subrange(k + 1, n as int));
            }
            res.insert(v);
        }
        assert(items@.subrange(0, n as int) =~= items@);
        res
    }

    /// Inserts the given `item`. Every record that shares its Matrix ID or its external ID with
    /// `item` is taken out first; those records are returned, in their order, beside a reference
    /// to the newly inserted item.
    pub fn insert(&mut self, item: V) -> (r: (&V, Vec<V>))
        ensures
            old(self).wf() ==> final(self).wf(),
            final(self)@ == inserted(old(self)@, item),
            *r.0 == item,
            forall|k: int| 0 <= k < r.1@.len() ==> {
                &&& collides(#[trigger] r.1@[k], item)
                &&& old(self)@.contains(r.1@[k])
            },
            r.1@.len() + without_collisions(old(self)@, item).len() == old(self)@.len(),
    {
        let mut displaced: Vec<V> = Vec::new();
        loop
            invariant
                old(self).wf() ==> self.wf(),
                without_collisions(self@, item) == without_collisions(old(self)@, item),
                forall|k: int| 0 <= k < displaced@.len() ==> {
                    &&& collides(#[trigger] displaced@[k], item)
                    &&& old(self)@.contains(displaced@[k])
                },
                forall|k: int| 0 <= k < self@.len() ==> old(self)@.contains(#[trigger] self@[k]),
                displaced@.len() + self@.len() == old(self)@.len(),
            ensures
                old(self).wf() ==> keys_unique(self@.push(item)),
                self@ == without_collisions(old(self)@, item),
                forall|k: int| 0 <= k < displaced@.len() ==> {
                    &&& collides(#[trigger] displaced@[k], item)
                    &&& old(self)@.contains(displaced@[k])
                },
                displaced@.len() + self@.len() == old(self)@.len(),
            decreases self@.len(),
        {
            let i = match self.find_collision(&item) {
                None => {
                    proof {
                        lemma_no_collisions(self@, item);
                        if old(self).wf() {
                            lemma_push_keeps_unique(self@, item);
                        }
                    }
                    break;
                },
                Some(i) => i,
            };
            proof {
                lemma_remove_colliding(self@, item, i as int);
                if old(self).wf() {
                    lemma_remove_keeps_unique(self@, i as int);
                }
                assert(old(self)@.contains(self@[i as int]));
            }
            let ghost before = self@;
            let old_item = self.items.remove(i);
            proof {
                assert forall|k: int| 0 <= k < self@.len() implies old(self)@.contains(
                    #[trigger] self@[k],
                ) by {
                    let j = if k < i { k } else { k + 1 };
                    assert(self@[k] == before[j]);
                }
            }
            displaced.push(old_item);
        }
        let n = self.items.len();
        self.items.push(item);
        (&self.items[n], displaced)
    }

    /// Finds the position of a record that shares an ID with `item`.
    fn find_collision(&self, item: &V) -> (r: Option<usize>)
        ensures
            r is None ==> forall|k: int| 0 <= k < self@.len() ==> !collides(#[trigger] self@[k], *item),
            r matches Some(i) ==> i < self@.len() && collides(self@[i as int], *item),
    {
        let m = item.as_matrix();
        let e = item.as_external();
        let mut i: usize = 0;
        while i < self.items.len()
            invariant
                0 <= i <= self@.len(),
                m@ == item.matrix_id(),
                e@ == item.external_id(),
                forall|k: int| 0 <= k < i ==> !collides(#[trigger] self@[k], *item),
            decreases self@.len() - i,
        {
            if same_text(self.items[i].as_matrix(), m) || same_text(self.items[i].as_external(), e) {
                return Some(i);
            }
            i = i + 1;
        }
        None
    }

    /// Finds the position of the record that carries `identifier`.
    fn position(&self, identifier: MappingId) -> (r: Option<usize>)
        ensures
            r is Some <==> contains_id(self@, identifier@),
            r matches Some(i) ==> i == index_of(self@, identifier@) && i < self@.len(),
    {
        let mut i: usize = 0;
        while i < self.items.len()
            invariant
                0 <= i <= self@.len(),
                forall|k: int| 0 <= k < i ==> !has_mapping_id(#[trigger] self@[k], identifier@),
            decreases self@.len() - i,
        {
            let hit = match identifier {
                MappingId::Matrix(m) => same_text(self.items[i].as_matrix(), m),
                MappingId::External(x) => same_text(self.items[i].as_external(), x),
            };
            if hit {
                proof {
                    lemma_index_of_first(self@, identifier@, i as int);
                }
                return Some(i);
            }
            i = i + 1;
        }
        None
    }

    /// Returns a reference to the item associated with the given `identifier`, or `None` if no
    /// such item exists.
    pub fn get(&self, identifier: MappingId) -> (r: Option<&V>)
        ensures
            r is Some <==> contains_id(self@, identifier@),
            r matches Some(v) ==> *v == self@[index_of(self@, identifier@)],
    {
        match self.position(identifier) {
            None => None,
            Some(i) => Some(&self.items[i]),
        }
    }

    /// Returns whether or not this `MappingDict` contains an item associated with the given
    /// `identifier`.
    pub fn has(&self, identifier: MappingId) -> (r: bool)
        ensures
            r == contains_id(self@, identifier@),
    {
        self.position(identifier).is_some()
    }

    /// If this `MappingDict` contains an item associated with the given `identifier`, remove it
    /// and return it. If no such item exists, this function returns `None`.
    pub fn remove(&mut self, identifier: MappingId) -> (r: Option<V>)
        ensures
            old(self).wf() ==> final(self).wf(),
            r is Some <==> contains_id(old(self)@, identifier@),
            r is None ==> final(self)@ == old(self)@,
            r matches Some(v) ==> {
                let i = index_of(old(self)@, identifier@);
                &&& v == old(self)@[i]
                &&& final(self)@ == old(self)@.remove(i)
            },
    {
        match self.position(identifier) {
            None => None,
            Some(i) => {
                proof {
                    if old(self).wf() {
                        lemma_remove_keeps_unique(self@, i as int);
                    }
                }
                Some(self.items.remove(i))
            },
        }
    }

    /// Get an iterator over references of the items contained in this `MappingDict`, in
    /// insertion order.
    pub fn iter(&self) -> (r: std::slice::Iter<'_, V>)
        ensures
            r.remaining() == self@.as_ref(),
    {
        broadcast use vstd::std_specs::slice::axiom_spec_slice_iter;

        self.items.as_slice().iter()
    }

    /// Shrinks the capacity of the map as much as possible.
    pub fn shrink_to_fit(&mut self)
        ensures
            final(self)@ == old(self)@,
    {
        shrink_vec(&mut self.items);
    }
}

impl<T> MappingDict<Record<T>> {
    /// Returns a mutable reference to the data of the record associated with the given
    /// `identifier`, or `None` if no such record exists. The IDs of the record stay as they are.
    pub fn get_mut(&mut self, identifier: MappingId) -> (r: Option<&mut T>)
        ensures
            r is Some <==> contains_id(old(self)@, identifier@),
            r is None ==> final(self)@ == old(self)@,
            old(self).wf() ==> final(self).wf(),
            r matches Some(d) ==> {
                let i = index_of(old(self)@, identifier@);
                &&& *d == old(self)@[i].carried()
                &&& final(self)@.len() == old(self)@.len()
                &&& final(self)@[i].matrix_id() == old(self)@[i].matrix_id()
                &&& final(self)@[i].external_id() == old(self)@[i].external_id()
                &&& final(self)@[i].carried() == *final(d)
                &&& forall|j: int|
                    0 <= j < old(self)@.len() && j != i ==> #[trigger] final(self)@[j] == old(
                        self,
                    )@[j]
            },
    {
        match self.position(identifier) {
            None => None,
            Some(i) => {
                proof {
                    let s = self@;
                    assert forall|x: Record<T>|
                        keys_unique(s) && x.matrix_id() == s[i as int].matrix_id()
                            && x.external_id() == s[i as int].external_id() implies
                        #[trigger] keys_unique(s.update(i as int, x)) by {
                        let t = s.update(i as int, x);
                        assert forall|a: int, b: int|
                            0 <= a < t.len() && 0 <= b < t.len() && a != b implies {
                            &&& #[trigger] t[a].matrix_id() != #[trigger] t[b].matrix_id()
                            &&& t[a].external_id() != t[b].external_id()
                        } by {
                            assert(s[a].matrix_id() != s[b].matrix_id());
                        }
                    }
                }
                Some(&mut self.items[i].data)
            },
        }
    }
}

impl<V: Mappable> Default for MappingDict<V> {
    fn default() -> (r: Self)
        ensures
            r.wf(),
            r@ == Seq::<V>::empty(),
    {
        Self::new()
    }
}

} // verus!
