//! The key-value store engine: a map from byte keys to stored entries, with
//! expiration-aware reads. Time enters only as an argument, so every caller
//! — and every test — supplies the clock.
use crate::bytes::bytes_eq;
use crate::bytes::clone_bytes;
use vstd::prelude::*;

verus! {

/// A stored value: bytes plus an optional absolute expiration instant in
/// milliseconds. No expiration means the entry never expires.
#[derive(Debug)]
pub struct RedisStoredValue {
    value: Vec<u8>,
    expiration: Option<u64>,
}

/// Mathematical shape of a stored entry.
pub struct StoredModel {
    pub value: Seq<u8>,
    pub expiration: Option<u64>,
}

impl View for RedisStoredValue {
    type V = StoredModel;

    closed spec fn view(&self) -> StoredModel {
        StoredModel { value: self.value@, expiration: self.expiration }
    }
}

impl RedisStoredValue {
    pub fn new(value: Vec<u8>, expiration: Option<u64>) -> (r: RedisStoredValue)
        ensures
            r@ == (StoredModel { value: value@, expiration }),
    {
        RedisStoredValue { value, expiration }
    }

    pub fn value(&self) -> (r: &Vec<u8>)
        ensures
            r@ == self@.value,
    {
        &self.value
    }

    pub fn expiration(&self) -> (r: Option<u64>)
        ensures
            r == self@.expiration,
    {
        self.expiration
    }

    /// An owned copy with the same contents.
    pub fn duplicate(&self) -> (r: RedisStoredValue)
        ensures
            r@ == self@,
    {
        RedisStoredValue { value: clone_bytes(&self.value), expiration: self.expiration }
    }
}

/// Reserved for future validation of writes; no operation in this command
/// set produces one.
#[derive(Debug, PartialEq, Eq)]
pub enum StoreError {
    Rejected,
}

/// An entry is readable at `now` while its expiration, if any, lies in the
/// future.
pub open spec fn live(e: StoredModel, now: u64) -> bool {
    match e.expiration {
        Option::None => true,
        Option::Some(t) => t > now,
    }
}

/// What a read of `k` at time `now` returns from store contents `m`.
pub open spec fn spec_get(m: Map<Seq<u8>, StoredModel>, k: Seq<u8>, now: u64) -> Option<Seq<u8>> {
    if m.contains_key(k) && live(m[k], now) {
        Option::Some(m[k].value)
    } else {
        Option::None
    }
}

pub open spec fn ok_reply() -> Seq<u8> {
    seq![79u8, 75u8]
}

/// The shared store: one mapping for the whole process. Connection handlers
/// must reach a single instance of it through one serialization point, so a
/// write by one is seen by all.
#[derive(Debug)]
pub struct RedisInternalState {
    entries: Vec<(Vec<u8>, RedisStoredValue)>,
}

pub open spec fn uniq_keys(es: Seq<(Vec<u8>, RedisStoredValue)>) -> bool {
    forall|i: int, j: int| 0 <= i < j < es.len() ==> (#[trigger] es[i]).0@ != (#[trigger] es[j]).0@
}

pub open spec fn map_of(es: Seq<(Vec<u8>, RedisStoredValue)>) -> Map<Seq<u8>, StoredModel>
    decreases es.len(),
{
    if es.len() == 0 {
        Map::empty()
    } else {
        map_of(es.drop_last()).insert(es.last().0@, es.last().1@)
    }
}

impl View for RedisInternalState {
    type V = Map<Seq<u8>, StoredModel>;

    closed spec fn view(&self) -> Map<Seq<u8>, StoredModel> {
        map_of(self.entries@)
    }
}

proof fn lemma_map_of_idx(es: Seq<(Vec<u8>, RedisStoredValue)>, i: int)
    requires
        uniq_keys(es),
        0 <= i < es.len(),
    ensures
        map_of(es).contains_key(es[i].0@),
        map_of(es)[es[i].0@] == es[i].1@,
    decreases es.len(),
{
    if i == es.len() - 1 {
    } else {
        assert(uniq_keys(es.drop_last())) by {
            assert(forall|x: int, y: int|
                0 <= x < y < es.drop_last().len() ==> es.drop_last()[x] == es[x]
                    && es.drop_last()[y] == es[y]);
        }
        assert(es.drop_last()[i] == es[i]);
        lemma_map_of_idx(es.drop_last(), i);
        assert(es[i].0@ != es.last().0@);
    }
}

proof fn lemma_map_of_no_key(es: Seq<(Vec<u8>, RedisStoredValue)>, k: Seq<u8>)
    requires
        forall|i: int| 0 <= i < es.len() ==> (#[trigger] es[i]).0@ != k,
    ensures
        !map_of(es).contains_key(k),
    decreases es.len(),
{
    if es.len() > 0 {
        assert(forall|i: int|
            0 <= i < es.drop_last().len() ==> es.drop_last()[i] == es[i]);
        lemma_map_of_no_key(es.drop_last(), k);
        assert(es.last() == es[es.len() - 1]);
    }
}

proof fn lemma_map_of_update(
    es: Seq<(Vec<u8>, RedisStoredValue)>,
    i0: int,
    p: (Vec<u8>, RedisStoredValue),
)
    requires
        uniq_keys(es),
        0 <= i0 < es.len(),
        p.0@ == es[i0].0@,
    ensures
        uniq_keys(es.update(i0, p)),
        map_of(es.update(i0, p)) == map_of(es).insert(p.0@, p.1@),
    decreases es.len(),
{
    let new = es.update(i0, p);
    assert(forall|j: int| 0 <= j < es.len() ==> (#[trigger] new[j]).0@ == es[j].0@);
    assert(uniq_keys(new));
    if i0 == es.len() - 1 {
        assert(new.drop_last() =~= es.drop_last());
        assert(new.last() == p);
        assert(map_of(new) == map_of(es.drop_last()).insert(p.0@, p.1@));
        assert(map_of(es).insert(p.0@, p.1@) =~= map_of(es.drop_last()).insert(p.0@, p.1@));
    } else {
        assert(uniq_keys(es.drop_last())) by {
            assert(forall|x: int, y: int|
                0 <= x < y < es.drop_last().len() ==> es.drop_last()[x] == es[x]
                    && es.drop_last()[y] == es[y]);
        }
        assert(es.drop_last()[i0] == es[i0]);
        lemma_map_of_update(es.drop_last(), i0, p);
        assert(new.drop_last() =~= es.drop_last().update(i0, p));
        assert(new.last() == es.last());
        assert(map_of(new) == map_of(es.drop_last()).insert(p.0@, p.1@).insert(
            es.last().0@,
            es.last().1@,
        ));
        assert(es.last().0@ != p.0@) by {
            assert(es[i0].0@ != es[es.len() - 1].0@);
        }
        assert(map_of(es.drop_last()).insert(p.0@, p.1@).insert(es.last().0@, es.last().1@)
            =~= map_of(es.drop_last()).insert(es.last().0@, es.last().1@).insert(p.0@, p.1@));
    }
}

impl RedisInternalState {
    /// Store well-formedness: each key appears at most once.
    pub closed spec fn wf(&self) -> bool {
        uniq_keys(self.entries@)
    }

    /// An empty store.
    pub fn new() -> (r: RedisInternalState)
        ensures
            r.wf(),
            r@ == Map::<Seq<u8>, StoredModel>::empty(),
    {
        RedisInternalState { entries: Vec::new() }
    }

    /// Expiration-aware read: the stored bytes while the entry is present
    /// and not yet expired at `now_millis`, and nothing otherwise. An entry
    /// whose expiration instant has been reached reads as absent.
    pub fn get(&self, key: &Vec<u8>, now_millis: u64) -> (r: Option<Vec<u8>>)
        requires
            self.wf(),
        ensures
            match spec_get(self@, key@, now_millis) {
                Option::Some(v) => r matches Some(b) && b@ == v,
                Option::None => r is None,
            },
    {
        let n = self.entries.len();
        let mut i: usize = 0;
        while i < n
            invariant
                self.wf(),
                n == self.entries@.len(),
                0 <= i <= n,
                forall|j: int| 0 <= j < i ==> (#[trigger] self.entries@[j]).0@ != key@,
            decreases n - i,
        {
            if bytes_eq(&self.entries[i].0, key) {
                proof {
                    lemma_map_of_idx(self.entries@, i as int);
                }
                let sv = &self.entries[i].1;
                match sv.expiration() {
                    Some(t) => {
                        if t <= now_millis {
                            return None;
                        } else {
                            return Some(clone_bytes(sv.value()));
                        }
                    },
                    None => {
                        return Some(clone_bytes(sv.value()));
                    },
                }
            }
            i = i + 1;
        }
        proof {
            lemma_map_of_no_key(self.entries@, key@);
        }
        None
    }

    /// Unconditional insert-or-replace. The new entry's expiration is
    /// exactly the one given: any prior expiration under the key is
    /// discarded. Always succeeds with an acknowledgment.
    pub fn set(&mut self, key: &Vec<u8>, value: &RedisStoredValue) -> (r: Result<
        Vec<u8>,
        StoreError,
    >)
        requires
            old(self).wf(),
        ensures
            final(self).wf(),
            final(self)@ == old(self)@.insert(key@, value@),
            r matches Ok(ack) && ack@ == ok_reply(),
    {
        let n = self.entries.len();
        let mut i: usize = 0;
        while i < n
            invariant
                self == old(self),
                self.wf(),
                n == self.entries@.len(),
                0 <= i <= n,
                forall|j: int| 0 <= j < i ==> (#[trigger] self.entries@[j]).0@ != key@,
            decreases n - i,
        {
            if bytes_eq(&self.entries[i].0, key) {
                let pair = (clone_bytes(key), value.duplicate());
                proof {
                    lemma_map_of_update(self.entries@, i as int, pair);
                }
                self.entries.set(i, pair);
                let ack: Vec<u8> = vec![79u8, 75u8];
                return Ok(ack);
            }
            i = i + 1;
        }
        let pair = (clone_bytes(key), value.duplicate());
        proof {
            let es = self.entries@;
            let pushed = es.push(pair);
            assert(pushed.drop_last() =~= es);
            assert(pushed.last() == pair);
            assert(map_of(pushed) == map_of(es).insert(pair.0@, pair.1@));
            assert(forall|x: int, y: int|
                0 <= x < y < pushed.len() ==> (#[trigger] pushed[x]).0@ != (
                #[trigger] pushed[y]).0@) by {
                assert(forall|x: int| 0 <= x < es.len() ==> pushed[x] == es[x]);
                assert(pushed[pushed.len() - 1] == pair);
            }
        }
        self.entries.push(pair);
        let ack: Vec<u8> = vec![79u8, 75u8];
        Ok(ack)
    }
}

// ---------------------------------------------------------------------------
// Laws of the store
// ---------------------------------------------------------------------------

/// Writes are read back: once `k` maps to `e`, a read of `k` at any instant
/// at which `e` is live returns `e`'s bytes — for every reader and however
/// often it is repeated, since reads do not change the store — and reads of
/// every other key are untouched by the write.
pub proof fn lemma_set_then_get(m: Map<Seq<u8>, StoredModel>, k: Seq<u8>, e: StoredModel, now: u64)
    ensures
        live(e, now) ==> spec_get(m.insert(k, e), k, now) == Option::Some(e.value),
        !live(e, now) ==> spec_get(m.insert(k, e), k, now) is None,
        forall|k2: Seq<u8>| k2 != k ==> spec_get(m.insert(k, e), k2, now) == spec_get(m, k2, now),
{
}

/// Expiration: an entry written with expiration instant `t` reads back
/// before `t` and reads as absent from `t` on.
pub proof fn lemma_expiration(
    m: Map<Seq<u8>, StoredModel>,
    k: Seq<u8>,
    v: Seq<u8>,
    t: u64,
    now: u64,
)
    ensures
        now < t ==> spec_get(
            m.insert(k, StoredModel { value: v, expiration: Option::Some(t) }),
            k,
            now,
        ) == Option::Some(v),
        t <= now ==> spec_get(
            m.insert(k, StoredModel { value: v, expiration: Option::Some(t) }),
            k,
            now,
        ) is None,
{
}

/// Replacement: a second write under the same key governs alone; with no
/// expiration on the new entry the old entry's expiration has no effect at
/// any later instant.
pub proof fn lemma_replacement(
    m: Map<Seq<u8>, StoredModel>,
    k: Seq<u8>,
    e1: StoredModel,
    e2: StoredModel,
    now: u64,
)
    requires
        e2.expiration is None,
    ensures
        spec_get(m.insert(k, e1).insert(k, e2), k, now) == Option::Some(e2.value),
{
}

} // verus!
