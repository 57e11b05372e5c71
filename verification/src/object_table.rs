//! The object table: one row per `(bucket, key)`, holding a CRDT list of
//! versions. Concurrent writers at different nodes converge because merging
//! rows is commutative and idempotent; after a merge, versions older than
//! the newest complete one are dropped.

use vstd::prelude::*;

use crate::data::{
    bytes_lt, fb32_cmp, fb32_eq, lemma_bytes_lt_irrefl, lemma_bytes_lt_total, lemma_bytes_lt_trans,
    BlockHash, Uuid,
};

verus! {

// ---- Spec-level models -------------------------------------------------
//
// Exec values hold `String` and `Vec`, whose clones are only view-equal,
// so every contract speaks of these abstractions instead.

pub struct HeadersV {
    pub content_type: Seq<char>,
    pub other: Seq<(Seq<char>, Seq<char>)>,
}

pub struct MetaV {
    pub headers: HeadersV,
    pub size: u64,
    pub etag: Seq<char>,
}

pub enum DataV {
    DeleteMarker,
    Inline(MetaV, Seq<u8>),
    FirstBlock(MetaV, Seq<u8>),
}

pub enum StateV {
    Uploading { multipart: bool, headers: HeadersV },
    Complete(DataV),
    Aborted,
}

pub struct VersionV {
    pub uuid: Seq<u8>,
    pub timestamp: u64,
    pub state: StateV,
}

pub struct ObjectV {
    pub bucket_id: Seq<u8>,
    pub key: Seq<char>,
    pub versions: Seq<VersionV>,
}

// ---- Exec types --------------------------------------------------------

/// Extra headers stored with an object version and replayed to readers.
pub struct ObjectVersionHeaders {
    /// Content type of the object
    pub content_type: String,
    /// Any other http headers to send
    pub other: Vec<(String, String)>,
}

/// Metadata about an object version.
pub struct ObjectVersionMeta {
    /// Headers to send to the client
    pub headers: ObjectVersionHeaders,
    /// Size of the object
    pub size: u64,
    /// Etag of the object
    pub etag: String,
}

/// Data stored in an object version.
pub enum ObjectVersionData {
    /// The object was deleted; this version is a tombstone to mark it as such
    DeleteMarker,
    /// The object is short, it is stored inlined
    Inline(ObjectVersionMeta, Vec<u8>),
    /// The object is long: hash of its first block is stored here, the full
    /// block list lives in the version table
    FirstBlock(ObjectVersionMeta, BlockHash),
}

/// State of an object version.
pub enum ObjectVersionState {
    /// The version is being received
    Uploading { multipart: bool, headers: ObjectVersionHeaders },
    /// The version is fully received
    Complete(ObjectVersionData),
    /// The upload contained errors or was explicitly aborted
    Aborted,
}

/// Information about a version of an object.
pub struct ObjectVersion {
    /// Id of the version
    pub uuid: Uuid,
    /// Timestamp of when the object was created
    pub timestamp: u64,
    /// State of the version
    pub state: ObjectVersionState,
}

/// An object: a row of the object table.
pub struct Object {
    /// The bucket in which the object is stored, used as partition key
    pub bucket_id: Uuid,
    /// The key at which the object is stored in its bucket, used as sorting key
    pub key: String,
    /// The list of currently stored versions of the object, strictly sorted
    /// by `(timestamp, uuid)`. Use `Object::new` / `add_version` to keep the
    /// order; readers go through `versions()`.
    pub versions: Vec<ObjectVersion>,
}

// ---- Views -------------------------------------------------------------

impl View for ObjectVersionHeaders {
    type V = HeadersV;

    open spec fn view(&self) -> HeadersV {
        HeadersV {
            content_type: self.content_type@,
            other: Seq::new(self.other@.len(), |i: int| (self.other@[i].0@, self.other@[i].1@)),
        }
    }
}

impl View for ObjectVersionMeta {
    type V = MetaV;

    open spec fn view(&self) -> MetaV {
        MetaV { headers: self.headers@, size: self.size, etag: self.etag@ }
    }
}

impl View for ObjectVersionData {
    type V = DataV;

    open spec fn view(&self) -> DataV {
        match self {
            ObjectVersionData::DeleteMarker => DataV::DeleteMarker,
            ObjectVersionData::Inline(m, b) => DataV::Inline(m@, b@),
            ObjectVersionData::FirstBlock(m, h) => DataV::FirstBlock(m@, h@),
        }
    }
}

impl View for ObjectVersionState {
    type V = StateV;

    open spec fn view(&self) -> StateV {
        match self {
            ObjectVersionState::Uploading { multipart, headers } => StateV::Uploading {
                multipart: *multipart,
                headers: headers@,
            },
            ObjectVersionState::Complete(d) => StateV::Complete(d@),
            ObjectVersionState::Aborted => StateV::Aborted,
        }
    }
}

impl View for ObjectVersion {
    type V = VersionV;

    open spec fn view(&self) -> VersionV {
        VersionV { uuid: self.uuid@, timestamp: self.timestamp, state: self.state@ }
    }
}

impl View for Object {
    type V = ObjectV;

    open spec fn view(&self) -> ObjectV {
        ObjectV {
            bucket_id: self.bucket_id@,
            key: self.key@,
            versions: Seq::new(self.versions@.len(), |i: int| self.versions@[i]@),
        }
    }
}

// ---- Clones ------------------------------------------------------------

impl Clone for ObjectVersionHeaders {
    fn clone(&self) -> (r: Self)
        ensures
            r@ == self@,
    {
        let mut other: Vec<(String, String)> = Vec::new();
        let mut i: usize = 0;
        while i < self.other.len()
            invariant
                0 <= i <= self.other.len(),
                other@.len() == i,
                forall|j: int| 0 <= j < i ==> other@[j].0@ == self.other@[j].0@
                    && other@[j].1@ == self.other@[j].1@,
            decreases self.other.len() - i,
        {
            other.push((self.other[i].0.clone(), self.other[i].1.clone()));
            i = i + 1;
        }
        let r = ObjectVersionHeaders { content_type: self.content_type.clone(), other };
        proof {
            assert(r@.other =~= self@.other);
        }
        r
    }
}

impl Clone for ObjectVersionMeta {
    fn clone(&self) -> (r: Self)
        ensures
            r@ == self@,
    {
        ObjectVersionMeta {
            headers: self.headers.clone(),
            size: self.size,
            etag: self.etag.clone(),
        }
    }
}

impl Clone for ObjectVersionData {
    fn clone(&self) -> (r: Self)
        ensures
            r@ == self@,
    {
        match self {
            ObjectVersionData::DeleteMarker => ObjectVersionData::DeleteMarker,
            ObjectVersionData::Inline(m, b) => {
                let mut bytes: Vec<u8> = Vec::new();
                let mut i: usize = 0;
                while i < b.len()
                    invariant
                        0 <= i <= b.len(),
                        bytes@ =~= b@.take(i as int),
                    decreases b.len() - i,
                {
                    bytes.push(b[i]);
                    i = i + 1;
                }
                proof {
                    assert(bytes@ =~= b@);
                }
                ObjectVersionData::Inline(m.clone(), bytes)
            }
            ObjectVersionData::FirstBlock(m, h) => ObjectVersionData::FirstBlock(m.clone(), *h),
        }
    }
}

impl Clone for ObjectVersionState {
    fn clone(&self) -> (r: Self)
        ensures
            r@ == self@,
    {
        match self {
            ObjectVersionState::Uploading { multipart, headers } => {
                ObjectVersionState::Uploading { multipart: *multipart, headers: headers.clone() }
            }
            ObjectVersionState::Complete(d) => ObjectVersionState::Complete(d.clone()),
            ObjectVersionState::Aborted => ObjectVersionState::Aborted,
        }
    }
}

impl Clone for ObjectVersion {
    fn clone(&self) -> (r: Self)
        ensures
            r@ == self@,
    {
        ObjectVersion { uuid: self.uuid, timestamp: self.timestamp, state: self.state.clone() }
    }
}

impl Clone for Object {
    fn clone(&self) -> (r: Self)
        ensures
            r@ == self@,
    {
        let mut versions: Vec<ObjectVersion> = Vec::new();
        let mut i: usize = 0;
        while i < self.versions.len()
            invariant
                0 <= i <= self.versions.len(),
                versions@.len() == i,
                forall|j: int| 0 <= j < i ==> versions@[j]@ == self.versions@[j]@,
            decreases self.versions.len() - i,
        {
            versions.push(self.versions[i].clone());
            i = i + 1;
        }
        let r = Object { bucket_id: self.bucket_id, key: self.key.clone(), versions };
        proof {
            assert(r@.versions =~= self@.versions);
        }
        r
    }
}

// ---- Version ordering and the map model --------------------------------

/// Sort key of a version: `(timestamp, uuid)`. Ties in wall-clock time are
/// broken by the uuid, so the order is total over distinct versions.
pub open spec fn spec_cmp_key(v: VersionV) -> (u64, Seq<u8>) {
    (v.timestamp, v.uuid)
}

pub open spec fn vkey_lt(a: (u64, Seq<u8>), b: (u64, Seq<u8>)) -> bool {
    a.0 < b.0 || (a.0 == b.0 && bytes_lt(a.1, b.1))
}

pub proof fn lemma_vkey_lt_trans(a: (u64, Seq<u8>), b: (u64, Seq<u8>), c: (u64, Seq<u8>))
    requires
        vkey_lt(a, b),
        vkey_lt(b, c),
    ensures
        vkey_lt(a, c),
{
    if a.0 == b.0 && b.0 == c.0 {
        lemma_bytes_lt_trans(a.1, b.1, c.1);
    }
}

/// Well-formed version lists are strictly sorted by `(timestamp, uuid)`:
/// keys are unique and appear in order.
pub open spec fn versions_sorted(s: Seq<VersionV>) -> bool {
    forall|i: int, j: int|
        0 <= i < j < s.len() ==> vkey_lt(spec_cmp_key(#[trigger] s[i]), spec_cmp_key(#[trigger] s[j]))
}

impl ObjectV {
    pub open spec fn wf(self) -> bool {
        versions_sorted(self.versions)
    }
}

/// The abstract state of an object row: a map from version key to version
/// state. Merging rows is a pointwise join on this map, followed by
/// dropping the versions that precede the newest complete one.
pub open spec fn vmap(s: Seq<VersionV>) -> Map<(u64, Seq<u8>), StateV>
    decreases s.len(),
{
    if s.len() == 0 {
        Map::empty()
    } else {
        vmap(s.drop_last()).insert(spec_cmp_key(s.last()), s.last().state)
    }
}

/// Join of two version states, as the receiving replica computes it:
/// `Aborted` absorbs everything, `Complete` absorbs `Uploading`.
/// On identical version keys the payload of two `Complete` (or two
/// `Uploading`) states is the same data, since the key embeds the
/// version uuid; the join keeps the receiver's copy rather than ranking
/// the payloads, so commutativity is stated under that compatibility
/// (see `states_compatible`).
pub open spec fn state_join(a: StateV, b: StateV) -> StateV {
    match b {
        StateV::Aborted => StateV::Aborted,
        StateV::Complete(bd) => match a {
            StateV::Aborted => StateV::Aborted,
            StateV::Complete(ad) => StateV::Complete(ad),
            StateV::Uploading { .. } => StateV::Complete(bd),
        },
        StateV::Uploading { .. } => a,
    }
}

/// Pointwise join of two version maps.
pub open spec fn map_join(
    m1: Map<(u64, Seq<u8>), StateV>,
    m2: Map<(u64, Seq<u8>), StateV>,
) -> Map<(u64, Seq<u8>), StateV> {
    Map::new(
        |k: (u64, Seq<u8>)| m1.dom().contains(k) || m2.dom().contains(k),
        |k: (u64, Seq<u8>)|
            if m1.dom().contains(k) && m2.dom().contains(k) {
                state_join(m1[k], m2[k])
            } else if m1.dom().contains(k) {
                m1[k]
            } else {
                m2[k]
            },
    )
}

pub open spec fn is_complete_state(s: StateV) -> bool {
    s is Complete
}

/// A version key is obsolete in a map when some complete version with a
/// strictly greater key exists.
pub open spec fn obsolete_in(m: Map<(u64, Seq<u8>), StateV>, k: (u64, Seq<u8>)) -> bool {
    exists|k2: (u64, Seq<u8>)|
        m.dom().contains(k2) && is_complete_state(#[trigger] m[k2]) && vkey_lt(k, k2)
}

/// Drop every version that precedes the newest complete one.
pub open spec fn normalize(m: Map<(u64, Seq<u8>), StateV>) -> Map<(u64, Seq<u8>), StateV> {
    Map::new(|k: (u64, Seq<u8>)| m.dom().contains(k) && !obsolete_in(m, k), |k: (u64, Seq<u8>)| m[k])
}

// ---- vmap lemmas -------------------------------------------------------

pub proof fn lemma_vmap_members(s: Seq<VersionV>)
    ensures
        forall|i: int| 0 <= i < s.len() ==> vmap(s).dom().contains(spec_cmp_key(#[trigger] s[i])),
        forall|k: (u64, Seq<u8>)|
            vmap(s).dom().contains(k) ==> exists|i: int|
                0 <= i < s.len() && spec_cmp_key(#[trigger] s[i]) == k,
    decreases s.len(),
{
    if s.len() > 0 {
        lemma_vmap_members(s.drop_last());
        assert forall|i: int| 0 <= i < s.len() implies vmap(s).dom().contains(
            spec_cmp_key(#[trigger] s[i]),
        ) by {
            if i < s.len() - 1 {
                assert(s.drop_last()[i] == s[i]);
            }
        };
        assert forall|k: (u64, Seq<u8>)| vmap(s).dom().contains(k) implies exists|i: int|
            0 <= i < s.len() && spec_cmp_key(#[trigger] s[i]) == k by {
            if k != spec_cmp_key(s.last()) {
                assert(vmap(s.drop_last()).dom().contains(k));
                let i = choose|i: int|
                    0 <= i < s.drop_last().len() && spec_cmp_key(#[trigger] s.drop_last()[i]) == k;
                assert(s[i] == s.drop_last()[i]);
            } else {
                assert(spec_cmp_key(s[s.len() - 1]) == k);
            }
        };
    }
}

/// In a strictly sorted list, the map holds exactly the listed states.
pub proof fn lemma_vmap_index(s: Seq<VersionV>, i: int)
    requires
        versions_sorted(s),
        0 <= i < s.len(),
    ensures
        vmap(s).dom().contains(spec_cmp_key(s[i])),
        vmap(s)[spec_cmp_key(s[i])] == s[i].state,
    decreases s.len(),
{
    lemma_vmap_members(s);
    if i == s.len() - 1 {
    } else {
        assert(versions_sorted(s.drop_last()));
        assert(s.drop_last()[i] == s[i]);
        lemma_vmap_index(s.drop_last(), i);
        assert(vkey_lt(spec_cmp_key(s[i]), spec_cmp_key(s.last())));
        if spec_cmp_key(s[i]) == spec_cmp_key(s.last()) {
            lemma_bytes_lt_irrefl(spec_cmp_key(s[i]).1);
        }
    }
}

/// Inserting a fresh version at its sorted position inserts its key.
pub proof fn lemma_vmap_insert(s: Seq<VersionV>, v: VersionV, p: int)
    requires
        0 <= p <= s.len(),
        forall|i: int| 0 <= i < s.len() ==> spec_cmp_key(#[trigger] s[i]) != spec_cmp_key(v),
    ensures
        vmap(s.take(p) + seq![v] + s.skip(p)) =~= vmap(s).insert(spec_cmp_key(v), v.state),
    decreases s.len() - p,
{
    let s2 = s.take(p) + seq![v] + s.skip(p);
    if p == s.len() {
        assert(s2 =~= s.push(v));
        assert(s2.drop_last() =~= s);
        assert(vmap(s2) == vmap(s).insert(spec_cmp_key(v), v.state));
    } else {
        lemma_vmap_insert(s.drop_last(), v, p);
        let s2b = s.drop_last().take(p) + seq![v] + s.drop_last().skip(p);
        assert(s2.drop_last() =~= s2b);
        assert(s2.last() == s.last());
        assert(spec_cmp_key(s.last()) != spec_cmp_key(v));
        assert(vmap(s2) == vmap(s2b).insert(spec_cmp_key(s.last()), s.last().state));
        assert(vmap(s2b) =~= vmap(s.drop_last()).insert(spec_cmp_key(v), v.state));
        assert(vmap(s2) =~= vmap(s).insert(spec_cmp_key(v), v.state));
    }
}

/// Replacing the state at one position overwrites its key in the map.
pub proof fn lemma_vmap_update(s: Seq<VersionV>, p: int, v: VersionV)
    requires
        0 <= p < s.len(),
        spec_cmp_key(v) == spec_cmp_key(s[p]),
        forall|i: int|
            0 <= i < s.len() && i != p ==> spec_cmp_key(#[trigger] s[i]) != spec_cmp_key(v),
    ensures
        vmap(s.update(p, v)) =~= vmap(s).insert(spec_cmp_key(v), v.state),
    decreases s.len(),
{
    let s2 = s.update(p, v);
    if p == s.len() - 1 {
        assert(s2.drop_last() =~= s.drop_last());
        assert(s2.last() == v);
    } else {
        assert(s2.drop_last() =~= s.drop_last().update(p, v));
        assert(s.drop_last()[p] == s[p]);
        lemma_vmap_update(s.drop_last(), p, v);
        assert(s2.last() == s.last());
        assert(spec_cmp_key(s.last()) != spec_cmp_key(v));
        assert(vmap(s2) == vmap(s.drop_last().update(p, v)).insert(
            spec_cmp_key(s.last()),
            s.last().state,
        ));
        assert(vmap(s2) =~= vmap(s).insert(spec_cmp_key(v), v.state));
    }
}

/// In a strictly sorted list, all keys are distinct.
pub proof fn lemma_sorted_distinct(s: Seq<VersionV>)
    requires
        versions_sorted(s),
    ensures
        forall|i: int, j: int|
            0 <= i < s.len() && 0 <= j < s.len() && i != j ==> spec_cmp_key(#[trigger] s[i])
                != spec_cmp_key(#[trigger] s[j]),
{
    assert forall|i: int, j: int|
        0 <= i < s.len() && 0 <= j < s.len() && i != j implies spec_cmp_key(#[trigger] s[i])
        != spec_cmp_key(#[trigger] s[j]) by {
        if spec_cmp_key(s[i]) == spec_cmp_key(s[j]) {
            if i < j {
                lemma_bytes_lt_irrefl(spec_cmp_key(s[i]).1);
            } else {
                lemma_bytes_lt_irrefl(spec_cmp_key(s[j]).1);
            }
        }
    };
}

// ---- Convergence laws --------------------------------------------------

/// Two states that may legitimately coexist under one `(timestamp, uuid)`
/// key: since the key embeds the version uuid, two uploads or two completed
/// payloads of the same version are the same data.
pub open spec fn states_compatible(a: StateV, b: StateV) -> bool {
    ((a is Uploading && b is Uploading) ==> a == b) && ((a is Complete && b is Complete) ==> a
        == b)
}

/// Joining version states is commutative on compatible states.
pub proof fn lemma_state_join_commutes(a: StateV, b: StateV)
    requires
        states_compatible(a, b),
    ensures
        state_join(a, b) == state_join(b, a),
{
}

/// Joining a version state with itself changes nothing.
pub proof fn lemma_state_join_idempotent(a: StateV)
    ensures
        state_join(a, a) == a,
{
}

/// Joining version states is associative.
pub proof fn lemma_state_join_assoc(a: StateV, b: StateV, c: StateV)
    ensures
        state_join(state_join(a, b), c) == state_join(a, state_join(b, c)),
{
}

/// Version maps whose shared keys carry compatible states.
pub open spec fn maps_compatible(
    m1: Map<(u64, Seq<u8>), StateV>,
    m2: Map<(u64, Seq<u8>), StateV>,
) -> bool {
    forall|k: (u64, Seq<u8>)|
        m1.dom().contains(k) && m2.dom().contains(k) ==> states_compatible(
            #[trigger] m1[k],
            #[trigger] m2[k],
        )
}

/// The pointwise join of version maps is commutative on compatible maps.
pub proof fn lemma_map_join_commutes(m1: Map<(u64, Seq<u8>), StateV>, m2: Map<(u64, Seq<u8>), StateV>)
    requires
        maps_compatible(m1, m2),
    ensures
        map_join(m1, m2) =~= map_join(m2, m1),
{
}

/// The pointwise join of version maps is associative.
pub proof fn lemma_map_join_assoc(
    m1: Map<(u64, Seq<u8>), StateV>,
    m2: Map<(u64, Seq<u8>), StateV>,
    m3: Map<(u64, Seq<u8>), StateV>,
)
    ensures
        map_join(map_join(m1, m2), m3) =~= map_join(m1, map_join(m2, m3)),
{
}

/// Joining a version map with itself changes nothing.
pub proof fn lemma_map_join_idempotent(m: Map<(u64, Seq<u8>), StateV>)
    ensures
        map_join(m, m) =~= m,
{
}

/// Merging two object rows gives the same abstract state in either order:
/// the order in which replicas exchange rows does not matter.
pub proof fn lemma_object_merge_commutes(
    m1: Map<(u64, Seq<u8>), StateV>,
    m2: Map<(u64, Seq<u8>), StateV>,
)
    requires
        maps_compatible(m1, m2),
    ensures
        normalize(map_join(m1, m2)) =~= normalize(map_join(m2, m1)),
{
    lemma_map_join_commutes(m1, m2);
}

/// Re-applying a row to itself changes nothing: merge is idempotent on
/// rows that are already normalized (as every stored row is).
pub proof fn lemma_object_merge_idempotent(m: Map<(u64, Seq<u8>), StateV>)
    requires
        m =~= normalize(m),
    ensures
        normalize(map_join(m, m)) =~= m,
{
    lemma_map_join_idempotent(m);
    assert(map_join(m, m) =~= m);
}

/// Re-applying an already-applied row changes nothing: merging `b` into
/// a row that already merged `b` leaves the abstract state as it was.
pub proof fn lemma_object_merge_reapply(
    m1: Map<(u64, Seq<u8>), StateV>,
    m2: Map<(u64, Seq<u8>), StateV>,
)
    ensures
        normalize(map_join(map_join(m1, m2), m2)) =~= normalize(map_join(m1, m2)),
{
    lemma_map_join_assoc(m1, m2, m2);
    lemma_map_join_idempotent(m2);
    assert(map_join(map_join(m1, m2), m2) =~= map_join(m1, m2));
}

/// Write ordering: when two replicas each hold one complete version of the
/// same object and the keys differ, the merged row holds exactly the
/// version with the greater `(timestamp, uuid)`; the older one is dropped.
pub proof fn lemma_write_ordering(
    k1: (u64, Seq<u8>),
    s1: StateV,
    k2: (u64, Seq<u8>),
    s2: StateV,
)
    requires
        is_complete_state(s1),
        is_complete_state(s2),
        vkey_lt(k1, k2),
    ensures
        normalize(
            map_join(
                Map::<(u64, Seq<u8>), StateV>::empty().insert(k1, s1),
                Map::<(u64, Seq<u8>), StateV>::empty().insert(k2, s2),
            ),
        ) =~= Map::<(u64, Seq<u8>), StateV>::empty().insert(k2, s2),
{
    let m1 = Map::<(u64, Seq<u8>), StateV>::empty().insert(k1, s1);
    let m2 = Map::<(u64, Seq<u8>), StateV>::empty().insert(k2, s2);
    let j = map_join(m1, m2);
    lemma_bytes_lt_irrefl(k1.1);
    lemma_bytes_lt_irrefl(k2.1);
    if k1 == k2 {
        assert(false);
    }
    assert(j.dom().contains(k2) && is_complete_state(j[k2]));
    assert(obsolete_in(j, k1));
    if obsolete_in(j, k2) {
        let k3 = choose|k3: (u64, Seq<u8>)|
            j.dom().contains(k3) && is_complete_state(#[trigger] j[k3]) && vkey_lt(k2, k3);
        if k3 == k1 {
            lemma_vkey_lt_trans(k1, k2, k1);
            lemma_bytes_lt_irrefl(k1.1);
        }
        assert(false);
    }
    assert(normalize(j) =~= Map::<(u64, Seq<u8>), StateV>::empty().insert(k2, s2));
}

// ---- Exec operations ---------------------------------------------------

impl ObjectVersionState {
    /// CRDT merge of two version states: `Aborted` absorbs everything,
    /// `Complete` absorbs `Uploading`, and between two `Complete` (or two
    /// `Uploading`) states the receiver's copy is kept.
    pub fn merge(&mut self, other: &ObjectVersionState)
        ensures
            final(self)@ == state_join(old(self)@, other@),
    {
        match other {
            ObjectVersionState::Aborted => {
                *self = ObjectVersionState::Aborted;
            }
            ObjectVersionState::Complete(bd) => {
                let overwrite = match self {
                    ObjectVersionState::Uploading { .. } => true,
                    _ => false,
                };
                if overwrite {
                    *self = ObjectVersionState::Complete(bd.clone());
                }
            }
            ObjectVersionState::Uploading { .. } => {}
        }
    }
}

impl ObjectVersion {
    /// Sort key of this version.
    pub fn cmp_key(&self) -> (r: (u64, Uuid))
        ensures
            r.0 == self@.timestamp,
            r.1@ == self@.uuid,
    {
        (self.timestamp, self.uuid)
    }

    /// Is the object version currently being uploaded?
    ///
    /// Matches only multipart uploads if `check_multipart` is `Some(true)`,
    /// only non-multipart uploads if it is `Some(false)`, and both if `None`.
    pub fn is_uploading(&self, check_multipart: Option<bool>) -> (r: bool)
        ensures
            r == spec_is_uploading(self@.state, check_multipart),
    {
        match &self.state {
            ObjectVersionState::Uploading { multipart, .. } => match check_multipart {
                Some(x) => x == *multipart,
                None => true,
            },
            _ => false,
        }
    }

    /// Is the object version completely received?
    pub fn is_complete(&self) -> (r: bool)
        ensures
            r == is_complete_state(self@.state),
    {
        match &self.state {
            ObjectVersionState::Complete(_) => true,
            _ => false,
        }
    }

    /// Is the object version available (received and not a tombstone)?
    pub fn is_data(&self) -> (r: bool)
        ensures
            r == spec_is_data(self@.state),
    {
        match &self.state {
            ObjectVersionState::Complete(ObjectVersionData::DeleteMarker) => false,
            ObjectVersionState::Complete(_) => true,
            _ => false,
        }
    }
}

pub open spec fn spec_is_uploading(s: StateV, check_multipart: Option<bool>) -> bool {
    match s {
        StateV::Uploading { multipart, .. } => match check_multipart {
            Some(x) => x == multipart,
            None => true,
        },
        _ => false,
    }
}

pub open spec fn spec_is_data(s: StateV) -> bool {
    match s {
        StateV::Complete(DataV::DeleteMarker) => false,
        StateV::Complete(_) => true,
        _ => false,
    }
}

/// Order on versions as the exec code compares them.
fn version_lt(a: &ObjectVersion, b: &ObjectVersion) -> (r: bool)
    ensures
        r == vkey_lt(spec_cmp_key(a@), spec_cmp_key(b@)),
{
    if a.timestamp < b.timestamp {
        true
    } else if a.timestamp > b.timestamp {
        false
    } else {
        fb32_cmp(&a.uuid, &b.uuid) == -1
    }
}

fn version_key_eq(a: &ObjectVersion, b: &ObjectVersion) -> (r: bool)
    ensures
        r == (spec_cmp_key(a@) == spec_cmp_key(b@)),
{
    a.timestamp == b.timestamp && fb32_eq(&a.uuid, &b.uuid)
}

impl Object {
    /// Well-formedness: the version list is strictly sorted.
    pub open spec fn wf(&self) -> bool {
        self@.wf()
    }

    /// Where `v`'s key sits in the sorted version list: either the index of
    /// the version with the same key, or the insertion point.
    fn find_position(&self, v: &ObjectVersion) -> (r: (usize, bool))
        requires
            self.wf(),
        ensures
            r.0 <= self@.versions.len(),
            r.1 ==> r.0 < self@.versions.len() && spec_cmp_key(self@.versions[r.0 as int])
                == spec_cmp_key(v@),
            !r.1 ==> forall|j: int|
                0 <= j < r.0 ==> vkey_lt(spec_cmp_key(#[trigger] self@.versions[j]), spec_cmp_key(v@)),
            !r.1 ==> forall|j: int|
                r.0 <= j < self@.versions.len() ==> vkey_lt(
                    spec_cmp_key(v@),
                    spec_cmp_key(#[trigger] self@.versions[j]),
                ),
    {
        let ghost vs = self@.versions;
        let mut i: usize = 0;
        while i < self.versions.len()
            invariant
                0 <= i <= vs.len(),
                vs == self@.versions,
                self.wf(),
                forall|j: int| 0 <= j < i ==> vkey_lt(spec_cmp_key(#[trigger] vs[j]), spec_cmp_key(v@)),
            decreases self.versions.len() - i,
        {
            if version_key_eq(&self.versions[i], v) {
                return (i, true);
            }
            if version_lt(v, &self.versions[i]) {
                assert forall|j: int| i <= j < vs.len() implies vkey_lt(
                    spec_cmp_key(v@),
                    spec_cmp_key(#[trigger] vs[j]),
                ) by {
                    if j > i {
                        lemma_vkey_lt_trans(
                            spec_cmp_key(v@),
                            spec_cmp_key(vs[i as int]),
                            spec_cmp_key(vs[j]),
                        );
                    }
                };
                return (i, false);
            }
            proof {
                let ka = spec_cmp_key(vs[i as int]);
                let kb = spec_cmp_key(v@);
                lemma_bytes_lt_total(ka.1, kb.1);
            }
            i = i + 1;
        }
        (i, false)
    }

    /// Initialize an object from its parts.
    ///
    /// The given versions must have pairwise distinct `(timestamp, uuid)`
    /// keys; a duplicate is a caller bug.
    pub fn new(bucket_id: Uuid, key: String, versions: Vec<ObjectVersion>) -> (r: Object)
        requires
            forall|i: int, j: int|
                0 <= i < versions@.len() && 0 <= j < versions@.len() && i != j ==> spec_cmp_key(
                    #[trigger] versions@[i]@,
                ) != spec_cmp_key(#[trigger] versions@[j]@),
        ensures
            r.wf(),
            r@.bucket_id == bucket_id@,
            r@.key == key@,
            vmap(r@.versions) =~= vmap(Seq::new(versions@.len(), |i: int| versions@[i]@)),
    {
        let ghost given = Seq::new(versions@.len(), |i: int| versions@[i]@);
        let mut ret = Object { bucket_id, key, versions: Vec::new() };
        let mut i: usize = 0;
        proof {
            assert(ret@.versions =~= Seq::<VersionV>::empty());
        }
        while i < versions.len()
            invariant
                0 <= i <= versions@.len(),
                ret.wf(),
                ret@.bucket_id == bucket_id@,
                ret@.key == key@,
                given == Seq::new(versions@.len(), |j: int| versions@[j]@),
                forall|a: int, b: int|
                    0 <= a < given.len() && 0 <= b < given.len() && a != b ==> spec_cmp_key(
                        #[trigger] given[a],
                    ) != spec_cmp_key(#[trigger] given[b]),
                vmap(ret@.versions) =~= vmap(given.take(i as int)),
                forall|k: (u64, Seq<u8>)|
                    vmap(ret@.versions).dom().contains(k) ==> exists|a: int|
                        0 <= a < i && spec_cmp_key(#[trigger] given[a]) == k,
            decreases versions@.len() - i,
        {
            let v = versions[i].clone();
            proof {
                lemma_vmap_members(ret@.versions);
                if vmap(ret@.versions).dom().contains(spec_cmp_key(v@)) {
                    let a = choose|a: int| 0 <= a < i && spec_cmp_key(#[trigger] given[a])
                        == spec_cmp_key(v@);
                    assert(given[a] == versions@[a]@);
                    assert(given[i as int] == versions@[i as int]@);
                    assert(false);
                }
            }
            let res = ret.add_version(v);
            proof {
                assert(given.take(i + 1).drop_last() =~= given.take(i as int));
                assert(given.take(i + 1).last() == given[i as int]);
                assert(vmap(given.take(i + 1)) == vmap(given.take(i as int)).insert(
                    spec_cmp_key(given[i as int]),
                    given[i as int].state,
                ));
            }
            i = i + 1;
        }
        proof {
            assert(given.take(given.len() as int) =~= given);
        }
        ret
    }

    /// Add a version if its key was not already present.
    pub fn add_version(&mut self, new: ObjectVersion) -> (r: Result<(), ()>)
        requires
            old(self).wf(),
        ensures
            final(self).wf(),
            final(self)@.bucket_id == old(self)@.bucket_id,
            final(self)@.key == old(self)@.key,
            r is Ok <==> !vmap(old(self)@.versions).dom().contains(spec_cmp_key(new@)),
            r is Ok ==> vmap(final(self)@.versions) =~= vmap(old(self)@.versions).insert(
                spec_cmp_key(new@),
                new@.state,
            ),
            r is Err ==> final(self)@ == old(self)@,
    {
        let ghost vs = self@.versions;
        let (p, found) = self.find_position(&new);
        if found {
            proof {
                lemma_vmap_index(vs, p as int);
            }
            Err(())
        } else {
            proof {
                lemma_vmap_members(vs);
                lemma_sorted_distinct(vs);
                assert forall|j: int| 0 <= j < vs.len() implies spec_cmp_key(#[trigger] vs[j])
                    != spec_cmp_key(new@) by {
                    lemma_bytes_lt_irrefl(spec_cmp_key(vs[j]).1);
                };
                if vmap(vs).dom().contains(spec_cmp_key(new@)) {
                    assert(false);
                }
            }
            let ghost nv = new@;
            self.versions.insert(p, new);
            proof {
                assert(self@.versions =~= vs.take(p as int) + seq![nv] + vs.skip(p as int));
                lemma_vmap_insert(vs, nv, p as int);
                assert forall|i: int, j: int|
                    0 <= i < j < self@.versions.len() implies vkey_lt(
                    spec_cmp_key(#[trigger] self@.versions[i]),
                    spec_cmp_key(#[trigger] self@.versions[j]),
                ) by {
                    let s2 = self@.versions;
                    if i < p && j == p {
                    } else if i == p && j > p {
                    } else if i < p && j > p {
                        lemma_vkey_lt_trans(
                            spec_cmp_key(s2[i]),
                            spec_cmp_key(nv),
                            spec_cmp_key(s2[j]),
                        );
                    }
                };
            }
            Ok(())
        }
    }

    /// The currently stored versions of the object, sorted by key.
    pub fn versions(&self) -> (r: &Vec<ObjectVersion>)
        ensures
            r@ == self.versions@,
    {
        &self.versions
    }

    /// A row is a tombstone when all that remains is a single delete marker.
    pub fn is_tombstone(&self) -> (r: bool)
        ensures
            r == (self@.versions.len() == 1 && self@.versions[0].state == StateV::Complete(
                DataV::DeleteMarker,
            )),
    {
        if self.versions.len() != 1 {
            return false;
        }
        match &self.versions[0].state {
            ObjectVersionState::Complete(ObjectVersionData::DeleteMarker) => true,
            _ => false,
        }
    }

    /// CRDT merge with a copy of this row received from another node.
    ///
    /// The resulting abstract state is the pointwise join of the two version
    /// maps, with the versions preceding the newest complete one dropped.
    pub fn merge(&mut self, other: &Object)
        requires
            old(self).wf(),
            other.wf(),
        ensures
            final(self).wf(),
            final(self)@.bucket_id == old(self)@.bucket_id,
            final(self)@.key == old(self)@.key,
            vmap(final(self)@.versions) =~= normalize(
                map_join(vmap(old(self)@.versions), vmap(other@.versions)),
            ),
    {
        let ghost m1 = vmap(old(self)@.versions);
        let ghost ovs = other@.versions;
        let mut i: usize = 0;
        proof {
            assert(ovs.take(0) =~= Seq::<VersionV>::empty());
            assert(vmap(self@.versions) =~= map_join(m1, vmap(ovs.take(0))));
        }
        while i < other.versions.len()
            invariant
                0 <= i <= ovs.len(),
                ovs == other@.versions,
                other.wf(),
                self.wf(),
                self@.bucket_id == old(self)@.bucket_id,
                self@.key == old(self)@.key,
                m1 == vmap(old(self)@.versions),
                vmap(self@.versions) =~= map_join(m1, vmap(ovs.take(i as int))),
            decreases ovs.len() - i,
        {
            let ghost m2 = vmap(ovs.take(i as int));
            let ghost k = spec_cmp_key(ovs[i as int]);
            let ghost st = ovs[i as int].state;
            proof {
                // The key of `other.versions[i]` is not among the earlier ones.
                lemma_sorted_distinct(ovs);
                lemma_vmap_members(ovs.take(i as int));
                if m2.dom().contains(k) {
                    let a = choose|a: int|
                        0 <= a < i && spec_cmp_key(#[trigger] ovs.take(i as int)[a]) == k;
                    assert(ovs.take(i as int)[a] == ovs[a]);
                    assert(false);
                }
                assert(ovs.take(i + 1).drop_last() =~= ovs.take(i as int));
                assert(ovs.take(i + 1).last() == ovs[i as int]);
                assert(vmap(ovs.take(i + 1)) == m2.insert(k, st));
            }
            let ghost vs = self@.versions;
            let (p, found) = self.find_position(&other.versions[i]);
            if found {
                proof {
                    lemma_vmap_index(vs, p as int);
                    lemma_sorted_distinct(vs);
                }
                self.versions[p].state.merge(&other.versions[i].state);
                proof {
                    let s2 = self@.versions;
                    assert(s2 =~= vs.update(
                        p as int,
                        VersionV {
                            uuid: vs[p as int].uuid,
                            timestamp: vs[p as int].timestamp,
                            state: state_join(vs[p as int].state, st),
                        },
                    ));
                    lemma_vmap_update(
                        vs,
                        p as int,
                        VersionV {
                            uuid: vs[p as int].uuid,
                            timestamp: vs[p as int].timestamp,
                            state: state_join(vs[p as int].state, st),
                        },
                    );
                    assert forall|i2: int, j2: int| 0 <= i2 < j2 < s2.len() implies vkey_lt(
                        spec_cmp_key(#[trigger] s2[i2]),
                        spec_cmp_key(#[trigger] s2[j2]),
                    ) by {
                        assert(spec_cmp_key(s2[i2]) == spec_cmp_key(vs[i2]));
                        assert(spec_cmp_key(s2[j2]) == spec_cmp_key(vs[j2]));
                    };
                    // The merged map agrees with joining the extended prefix.
                    assert(vmap(s2) =~= map_join(m1, m2.insert(k, st)));
                }
            } else {
                proof {
                    lemma_vmap_members(vs);
                    assert forall|j: int| 0 <= j < vs.len() implies spec_cmp_key(#[trigger] vs[j])
                        != k by {
                        if spec_cmp_key(vs[j]) == k {
                            lemma_bytes_lt_irrefl(k.1);
                        }
                    };
                    if vmap(vs).dom().contains(k) {
                        assert(false);
                    }
                }
                let v = other.versions[i].clone();
                let res = self.add_version(v);
                proof {
                    assert(vmap(self@.versions) =~= map_join(m1, m2).insert(k, st));
                    assert(vmap(self@.versions) =~= map_join(m1, m2.insert(k, st)));
                }
            }
            i = i + 1;
        }
        proof {
            assert(ovs.take(ovs.len() as int) =~= ovs);
        }
        // Drop the versions that precede the newest complete one.
        let ghost full = self@.versions;
        let mut last_complete: usize = 0;
        let mut have_complete: bool = false;
        let mut j: usize = 0;
        while j < self.versions.len()
            invariant
                0 <= j <= self@.versions.len(),
                have_complete ==> last_complete < j && is_complete_state(
                    self@.versions[last_complete as int].state,
                ) && forall|a: int|
                    last_complete < a < j ==> !is_complete_state(
                        (#[trigger] self@.versions[a]).state,
                    ),
                !have_complete ==> forall|a: int|
                    0 <= a < j ==> !is_complete_state((#[trigger] self@.versions[a]).state),
            decreases self.versions.len() - j,
        {
            if self.versions[j].is_complete() {
                last_complete = j;
                have_complete = true;
            }
            j = j + 1;
        }
        if have_complete && last_complete > 0 {
            let mut kept: Vec<ObjectVersion> = Vec::new();
            let mut a: usize = last_complete;
            while a < self.versions.len()
                invariant
                    last_complete <= a <= self@.versions.len(),
                    full == self@.versions,
                    kept@.len() == a - last_complete,
                    forall|b: int|
                        0 <= b < kept@.len() ==> (#[trigger] kept@[b])@ == self@.versions[b
                            + last_complete],
                decreases self.versions.len() - a,
            {
                kept.push(self.versions[a].clone());
                a = a + 1;
            }
            self.versions = kept;
            proof {
                assert(self@.versions =~= full.skip(last_complete as int));
            }
        }
        proof {
            lemma_truncate_is_normalize(
                full,
                self@.versions,
                if have_complete { last_complete as int } else { 0 },
                have_complete,
            );
        }
    }
}

// ---- Filters, counters, and the update hook ----------------------------

/// Filter on object rows, used when listing a table partition.
#[derive(Clone, Copy, Debug)]
pub enum ObjectFilter {
    /// Some version is available (received and not a tombstone)
    IsData,
    /// Some version is currently being uploaded.
    ///
    /// Matches only multipart uploads if `check_multipart` is `Some(true)`,
    /// only non-multipart uploads if it is `Some(false)`, and both if `None`.
    IsUploading { check_multipart: Option<bool> },
}

/// The schema of the object table: partition key is the bucket id, sort key
/// the object key, and rows merge as CRDTs.
pub struct ObjectTable;

pub open spec fn spec_matches_filter(o: ObjectV, filter: ObjectFilter) -> bool {
    match filter {
        ObjectFilter::IsData => exists|i: int|
            0 <= i < o.versions.len() && spec_is_data((#[trigger] o.versions[i]).state),
        ObjectFilter::IsUploading { check_multipart } => exists|i: int|
            0 <= i < o.versions.len() && spec_is_uploading(
                (#[trigger] o.versions[i]).state,
                check_multipart,
            ),
    }
}

impl ObjectTable {
    /// Does this row match the given listing filter?
    pub fn matches_filter(entry: &Object, filter: &ObjectFilter) -> (r: bool)
        ensures
            r == spec_matches_filter(entry@, *filter),
    {
        let mut i: usize = 0;
        while i < entry.versions.len()
            invariant
                0 <= i <= entry@.versions.len(),
                forall|j: int|
                    0 <= j < i ==> match *filter {
                        ObjectFilter::IsData => !spec_is_data(
                            (#[trigger] entry@.versions[j]).state,
                        ),
                        ObjectFilter::IsUploading { check_multipart } => !spec_is_uploading(
                            (#[trigger] entry@.versions[j]).state,
                            check_multipart,
                        ),
                    },
            decreases entry@.versions.len() - i,
        {
            let hit = match filter {
                ObjectFilter::IsData => entry.versions[i].is_data(),
                ObjectFilter::IsUploading { check_multipart } => entry.versions[i].is_uploading(
                    *check_multipart,
                ),
            };
            if hit {
                proof {
                    match *filter {
                        ObjectFilter::IsData => {
                            assert(spec_is_data((entry@.versions[i as int]).state));
                        }
                        ObjectFilter::IsUploading { check_multipart } => {
                            assert(spec_is_uploading(
                                (entry@.versions[i as int]).state,
                                check_multipart,
                            ));
                        }
                    }
                }
                return true;
            }
            i = i + 1;
        }
        false
    }
}

/// Should the version table learn that this old version is gone?  True when
/// the new row no longer has its key, or aborted a version that was not
/// aborted before.
pub open spec fn should_delete_version(news: Seq<VersionV>, v: VersionV) -> bool {
    if exists|j: int| 0 <= j < news.len() && spec_cmp_key(#[trigger] news[j]) == spec_cmp_key(v) {
        let j = choose|j: int|
            0 <= j < news.len() && spec_cmp_key(#[trigger] news[j]) == spec_cmp_key(v);
        news[j].state is Aborted && !(v.state is Aborted)
    } else {
        true
    }
}

/// Should the multipart-upload table drop this upload's row?  True for a
/// multipart upload whose version is gone or no longer uploading.
pub open spec fn should_delete_mpu(news: Seq<VersionV>, v: VersionV) -> bool {
    spec_is_uploading(v.state, Some(true)) && if exists|j: int|
        0 <= j < news.len() && spec_cmp_key(#[trigger] news[j]) == spec_cmp_key(v) {
        let j = choose|j: int|
            0 <= j < news.len() && spec_cmp_key(#[trigger] news[j]) == spec_cmp_key(v);
        !(news[j].state is Uploading)
    } else {
        true
    }
}

/// The version uuids the update hook propagates as deleted, in order.
pub open spec fn version_deletions(olds: Seq<VersionV>, news: Seq<VersionV>) -> Seq<Seq<u8>>
    decreases olds.len(),
{
    if olds.len() == 0 {
        Seq::empty()
    } else {
        version_deletions(olds.drop_last(), news) + if should_delete_version(news, olds.last()) {
            seq![olds.last().uuid]
        } else {
            Seq::empty()
        }
    }
}

/// The `(uuid, timestamp)` pairs of multipart-upload rows the update hook
/// deletes, in order.
pub open spec fn mpu_deletions(olds: Seq<VersionV>, news: Seq<VersionV>) -> Seq<(Seq<u8>, u64)>
    decreases olds.len(),
{
    if olds.len() == 0 {
        Seq::empty()
    } else {
        mpu_deletions(olds.drop_last(), news) + if should_delete_mpu(news, olds.last()) {
            seq![(olds.last().uuid, olds.last().timestamp)]
        } else {
            Seq::empty()
        }
    }
}

/// Deletions that the table's update hook enqueues, in the same local
/// transaction as the row write, when a row changes from `old_entry` to
/// `new_entry`.
pub struct UpdatedActions {
    /// Versions to tombstone in the version table
    pub deleted_versions: Vec<Uuid>,
    /// Multipart uploads (uuid, timestamp) to delete from the mpu table
    pub deleted_mpus: Vec<(Uuid, u64)>,
}

impl ObjectTable {
    /// What the update hook must propagate when an object row is rewritten:
    /// versions that disappeared or were aborted are tombstoned in the
    /// version table, and multipart uploads that finished or aborted lose
    /// their mpu-table row.
    pub fn updated(old_entry: Option<&Object>, new_entry: Option<&Object>) -> (r: UpdatedActions)
        requires
            old_entry matches Some(o) ==> o.wf(),
            new_entry matches Some(n) ==> n.wf(),
        ensures
            match (old_entry, new_entry) {
                (Some(o), Some(n)) => {
                    &&& Seq::new(
                        r.deleted_versions@.len(),
                        |i: int| r.deleted_versions@[i]@,
                    ) =~= version_deletions(o@.versions, n@.versions)
                    &&& Seq::new(
                        r.deleted_mpus@.len(),
                        |i: int| (r.deleted_mpus@[i].0@, r.deleted_mpus@[i].1),
                    ) =~= mpu_deletions(o@.versions, n@.versions)
                },
                _ => r.deleted_versions@.len() == 0 && r.deleted_mpus@.len() == 0,
            },
    {
        let mut r = UpdatedActions { deleted_versions: Vec::new(), deleted_mpus: Vec::new() };
        let (o, n) = match (old_entry, new_entry) {
            (Some(o), Some(n)) => (o, n),
            _ => {
                return r;
            }
        };
        let ghost olds = o@.versions;
        let ghost news = n@.versions;
        let mut i: usize = 0;
        proof {
            assert(olds.take(0) =~= Seq::<VersionV>::empty());
        }
        while i < o.versions.len()
            invariant
                0 <= i <= olds.len(),
                olds == o@.versions,
                news == n@.versions,
                o.wf(),
                n.wf(),
                Seq::new(r.deleted_versions@.len(), |a: int| r.deleted_versions@[a]@)
                    =~= version_deletions(olds.take(i as int), news),
                Seq::new(
                    r.deleted_mpus@.len(),
                    |a: int| (r.deleted_mpus@[a].0@, r.deleted_mpus@[a].1),
                ) =~= mpu_deletions(olds.take(i as int), news),
            decreases olds.len() - i,
        {
            let v = &o.versions[i];
            let (p, found) = n.find_position(v);
            proof {
                lemma_sorted_distinct(news);
                if found {
                    assert(exists|j: int|
                        0 <= j < news.len() && spec_cmp_key(#[trigger] news[j]) == spec_cmp_key(
                            v@,
                        ));
                    let jj = choose|j: int|
                        0 <= j < news.len() && spec_cmp_key(#[trigger] news[j]) == spec_cmp_key(
                            v@,
                        );
                    assert(jj == p as int);
                } else {
                    assert forall|j: int| 0 <= j < news.len() implies spec_cmp_key(
                        #[trigger] news[j],
                    ) != spec_cmp_key(v@) by {
                        lemma_bytes_lt_irrefl(spec_cmp_key(v@).1);
                    };
                }
                assert(olds.take(i + 1).drop_last() =~= olds.take(i as int));
                assert(olds.take(i + 1).last() == olds[i as int]);
            }
            let delete_version = if found {
                let new_aborted = match &n.versions[p].state {
                    ObjectVersionState::Aborted => true,
                    _ => false,
                };
                let old_aborted = match &v.state {
                    ObjectVersionState::Aborted => true,
                    _ => false,
                };
                new_aborted && !old_aborted
            } else {
                true
            };
            if delete_version {
                r.deleted_versions.push(v.uuid);
            }
            let is_mpu = v.is_uploading(Some(true));
            if is_mpu {
                let delete_mpu = if found {
                    match &n.versions[p].state {
                        ObjectVersionState::Uploading { .. } => false,
                        _ => true,
                    }
                } else {
                    true
                };
                if delete_mpu {
                    r.deleted_mpus.push((v.uuid, v.timestamp));
                }
            }
            i = i + 1;
        }
        proof {
            assert(olds.take(olds.len() as int) =~= olds);
        }
        r
    }
}

/// Per-bucket counter contributions of one object row.
pub struct ObjectCounts {
    /// 1 when some version holds live data, else 0
    pub objects: i64,
    /// Number of versions still being uploaded
    pub unfinished_uploads: i64,
    /// Total size of the completed versions' payloads
    pub bytes: i64,
}

pub open spec fn spec_has_data(s: Seq<VersionV>) -> bool {
    exists|i: int| 0 <= i < s.len() && spec_is_data((#[trigger] s[i]).state)
}

pub open spec fn spec_n_uploading(s: Seq<VersionV>) -> int
    decreases s.len(),
{
    if s.len() == 0 {
        0
    } else {
        spec_n_uploading(s.drop_last()) + if spec_is_uploading(s.last().state, None) {
            1int
        } else {
            0int
        }
    }
}

pub open spec fn spec_version_bytes(v: VersionV) -> int {
    match v.state {
        StateV::Complete(DataV::Inline(m, _)) => m.size as int,
        StateV::Complete(DataV::FirstBlock(m, _)) => m.size as int,
        _ => 0,
    }
}

pub open spec fn spec_total_bytes(s: Seq<VersionV>) -> int
    decreases s.len(),
{
    if s.len() == 0 {
        0
    } else {
        spec_total_bytes(s.drop_last()) + spec_version_bytes(s.last())
    }
}

proof fn lemma_prefix_bounds(s: Seq<VersionV>, i: int)
    requires
        0 <= i <= s.len(),
    ensures
        spec_total_bytes(s.take(i)) <= spec_total_bytes(s),
        0 <= spec_total_bytes(s.take(i)),
        spec_n_uploading(s.take(i)) <= spec_n_uploading(s),
        0 <= spec_n_uploading(s.take(i)) <= i,
    decreases s.len() - i,
{
    lemma_counts_nonneg(s.take(i));
    assert(s.take(i).len() == i);
    if i == s.len() {
        assert(s.take(i) =~= s);
        lemma_counts_nonneg(s);
    } else {
        lemma_prefix_bounds(s, i + 1);
        assert(s.take(i + 1).drop_last() =~= s.take(i));
        assert(s.take(i + 1).last() == s[i]);
    }
}

proof fn lemma_counts_nonneg(s: Seq<VersionV>)
    ensures
        0 <= spec_total_bytes(s),
        0 <= spec_n_uploading(s) <= s.len(),
    decreases s.len(),
{
    if s.len() > 0 {
        lemma_counts_nonneg(s.drop_last());
    }
}

impl Object {
    /// The contributions of this row to its bucket's object, upload and
    /// byte counters.
    pub fn counts(&self) -> (r: ObjectCounts)
        requires
            spec_total_bytes(self@.versions) <= i64::MAX,
            self@.versions.len() <= i64::MAX,
        ensures
            r.objects == if spec_has_data(self@.versions) {
                1int
            } else {
                0int
            },
            r.unfinished_uploads == spec_n_uploading(self@.versions),
            r.bytes == spec_total_bytes(self@.versions),
    {
        let ghost vs = self@.versions;
        let mut has_data: bool = false;
        let mut uploads: i64 = 0;
        let mut bytes: i64 = 0;
        let mut i: usize = 0;
        proof {
            assert(vs.take(0) =~= Seq::<VersionV>::empty());
        }
        while i < self.versions.len()
            invariant
                0 <= i <= vs.len(),
                vs == self@.versions,
                spec_total_bytes(vs) <= i64::MAX,
                vs.len() <= i64::MAX,
                has_data == spec_has_data(vs.take(i as int)),
                uploads == spec_n_uploading(vs.take(i as int)),
                bytes == spec_total_bytes(vs.take(i as int)),
            decreases vs.len() - i,
        {
            proof {
                assert(vs.take(i + 1).drop_last() =~= vs.take(i as int));
                assert(vs.take(i + 1).last() == vs[i as int]);
                lemma_prefix_bounds(vs, i + 1);
                lemma_counts_nonneg(vs.take(i as int));
                assert(spec_total_bytes(vs.take(i + 1)) == bytes + spec_version_bytes(
                    vs[i as int],
                ));
                assert(spec_total_bytes(vs.take(i + 1)) <= i64::MAX);
                if spec_has_data(vs.take(i as int)) {
                    let a = choose|a: int|
                        0 <= a < i && spec_is_data((#[trigger] vs.take(i as int)[a]).state);
                    assert(vs.take(i + 1)[a] == vs.take(i as int)[a]);
                }
            }
            if self.versions[i].is_data() {
                has_data = true;
            }
            if self.versions[i].is_uploading(None) {
                uploads = uploads + 1;
            }
            match &self.versions[i].state {
                ObjectVersionState::Complete(ObjectVersionData::Inline(m, _)) => {
                    proof {
                        assert(spec_version_bytes(vs[i as int]) == m.size as int);
                    }
                    bytes = bytes + m.size as i64;
                }
                ObjectVersionState::Complete(ObjectVersionData::FirstBlock(m, _)) => {
                    proof {
                        assert(spec_version_bytes(vs[i as int]) == m.size as int);
                    }
                    bytes = bytes + m.size as i64;
                }
                _ => {}
            }
            proof {
                if !spec_has_data(vs.take(i as int)) && spec_has_data(vs.take(i + 1)) {
                    let a = choose|a: int|
                        0 <= a < i + 1 && spec_is_data((#[trigger] vs.take(i + 1)[a]).state);
                    assert(a == i);
                }
            }
            i = i + 1;
        }
        proof {
            assert(vs.take(vs.len() as int) =~= vs);
        }
        ObjectCounts {
            objects: if has_data {
                1
            } else {
                0
            },
            unfinished_uploads: uploads,
            bytes,
        }
    }
}

impl Object {
    /// The version of an in-progress multipart upload, looked up by its
    /// id: the upload exists here iff such a version is still uploading.
    pub fn find_uploading_version(&self, uuid: &Uuid) -> (r: Option<&ObjectVersion>)
        ensures
            r is Some <==> exists|i: int|
                0 <= i < self@.versions.len() && (#[trigger] self@.versions[i]).uuid == uuid@
                    && spec_is_uploading(self@.versions[i].state, Some(true)),
            r matches Some(v) ==> v@.uuid == uuid@ && spec_is_uploading(v@.state, Some(true)),
    {
        let mut i: usize = 0;
        while i < self.versions.len()
            invariant
                0 <= i <= self@.versions.len(),
                forall|j: int|
                    0 <= j < i ==> !((#[trigger] self@.versions[j]).uuid == uuid@
                        && spec_is_uploading(self@.versions[j].state, Some(true))),
            decreases self@.versions.len() - i,
        {
            let v = &self.versions[i];
            if fb32_eq(&v.uuid, uuid) && v.is_uploading(Some(true)) {
                proof {
                    let ghost ii = i as int;
                    assert(self@.versions[ii].uuid == uuid@ && spec_is_uploading(
                        self@.versions[ii].state,
                        Some(true),
                    ));
                }
                return Some(v);
            }
            i = i + 1;
        }
        None
    }

    /// The newest complete version of this object: what a read or a
    /// server-side copy serves. `None` when nothing complete exists yet.
    pub fn last_complete_version(&self) -> (r: Option<&ObjectVersion>)
        ensures
            r is Some <==> exists|i: int|
                0 <= i < self@.versions.len() && is_complete_state(
                    (#[trigger] self@.versions[i]).state,
                ),
            r matches Some(v) ==> exists|i: int|
                0 <= i < self@.versions.len() && v@ == self@.versions[i] && is_complete_state(
                    (#[trigger] self@.versions[i]).state,
                ) && forall|j: int|
                    i < j < self@.versions.len() ==> !is_complete_state(
                        (#[trigger] self@.versions[j]).state,
                    ),
    {
        let n = self.versions.len();
        let mut k: usize = 0;
        while k < n
            invariant
                0 <= k <= n,
                n == self@.versions.len(),
                forall|j: int|
                    n - k <= j < n ==> !is_complete_state((#[trigger] self@.versions[j]).state),
            decreases n - k,
        {
            let idx = n - 1 - k;
            if self.versions[idx].is_complete() {
                proof {
                    assert(is_complete_state((self@.versions[idx as int]).state));
                }
                return Some(&self.versions[idx]);
            }
            k = k + 1;
        }
        None
    }
}

/// Keeping the suffix that starts at the last complete version computes
/// exactly the normalization of the version map.
proof fn lemma_truncate_is_normalize(full: Seq<VersionV>, kept: Seq<VersionV>, li: int, have: bool)
    requires
        versions_sorted(full),
        have ==> 0 <= li < full.len() && is_complete_state(full[li].state) && forall|a: int|
            li < a < full.len() ==> !is_complete_state((#[trigger] full[a]).state),
        !have ==> forall|a: int| 0 <= a < full.len() ==> !is_complete_state(
            (#[trigger] full[a]).state,
        ),
        have ==> kept =~= full.skip(li),
        !have ==> kept == full,
    ensures
        versions_sorted(kept),
        vmap(kept) =~= normalize(vmap(full)),
{
    lemma_vmap_members(full);
    lemma_sorted_distinct(full);
    if !have {
        // No complete version: nothing is obsolete.
        assert forall|k: (u64, Seq<u8>)| #[trigger] vmap(full).dom().contains(k) implies normalize(
            vmap(full),
        ).dom().contains(k) by {
            if obsolete_in(vmap(full), k) {
                let k2 = choose|k2: (u64, Seq<u8>)|
                    vmap(full).dom().contains(k2) && is_complete_state(#[trigger] vmap(full)[k2])
                        && vkey_lt(k, k2);
                let a = choose|a: int| 0 <= a < full.len() && spec_cmp_key(#[trigger] full[a]) == k2;
                lemma_vmap_index(full, a);
                assert(false);
            }
        };
        assert(vmap(kept) == vmap(full));
        assert(normalize(vmap(full)) =~= vmap(full));
    } else {
        assert(versions_sorted(kept));
        lemma_vmap_members(kept);
        lemma_sorted_distinct(kept);
        assert forall|k: (u64, Seq<u8>)| #![trigger vmap(kept).dom().contains(k)]
            (vmap(kept).dom().contains(k) ==> normalize(vmap(full)).dom().contains(k)) && (
        normalize(vmap(full)).dom().contains(k) ==> vmap(kept).dom().contains(k)) && ((vmap(
            kept,
        ).dom().contains(k) && normalize(vmap(full)).dom().contains(k)) ==> vmap(kept)[k]
            == normalize(vmap(full))[k]) by {
            if vmap(kept).dom().contains(k) {
            let b = choose|b: int| 0 <= b < kept.len() && spec_cmp_key(#[trigger] kept[b]) == k;
            lemma_vmap_index(kept, b);
            assert(kept[b] == full[b + li]);
            lemma_vmap_index(full, b + li);
            // k is not obsolete: any complete entry sits at or before li.
            if obsolete_in(vmap(full), k) {
                let k2 = choose|k2: (u64, Seq<u8>)|
                    vmap(full).dom().contains(k2) && is_complete_state(#[trigger] vmap(full)[k2])
                        && vkey_lt(k, k2);
                let a = choose|a: int| 0 <= a < full.len() && spec_cmp_key(#[trigger] full[a]) == k2;
                lemma_vmap_index(full, a);
                assert(a <= li);
                if a < b + li {
                    // then k2 < k, contradicting k < k2
                    assert(vkey_lt(k2, k));
                    lemma_vkey_lt_trans(k, k2, k);
                    lemma_bytes_lt_irrefl(k.1);
                } else {
                    assert(a == b + li);
                    lemma_bytes_lt_irrefl(k.1);
                }
                assert(false);
            }
            }
            if normalize(vmap(full)).dom().contains(k) {
                let a = choose|a: int| 0 <= a < full.len() && spec_cmp_key(#[trigger] full[a]) == k;
                if a < li {
                    lemma_vmap_index(full, li);
                    assert(vkey_lt(k, spec_cmp_key(full[li])));
                    assert(obsolete_in(vmap(full), k));
                    assert(false);
                } else {
                    assert(kept[a - li] == full[a]);
                    lemma_vmap_index(kept, a - li);
                }
            }
        };
        assert(vmap(kept) =~= normalize(vmap(full)));
    }
}

} // verus!
