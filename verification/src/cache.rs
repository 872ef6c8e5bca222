//! The TTL-bounded body cache: a map from message identity to a previously
//! fetched payload. An entry is visible only while `now - created_at < ttl`;
//! expiry is checked lazily on read, and mutating IMAP commands invalidate
//! entries through `invalidate` and `invalidate_mailbox`.

use vstd::prelude::*;
use crate::bytes::{bytes_eq, subvec};

verus! {

/// Identity of one cacheable unit: mailbox, message number (a UID when
/// `by_uid`, else a sequence number) and the body-section criterion the
/// client asked for.
pub struct MessageKey {
    pub mailbox: Vec<u8>,
    pub num: u32,
    pub by_uid: bool,
    pub section: Vec<u8>,
}

/// Mathematical image of a `MessageKey`.
#[verifier::ext_equal]
pub struct KeyModel {
    pub mailbox: Seq<u8>,
    pub num: u32,
    pub by_uid: bool,
    pub section: Seq<u8>,
}

/// The model a `MessageKey` denotes.
pub open spec fn key_model(k: MessageKey) -> KeyModel {
    KeyModel { mailbox: k.mailbox@, num: k.num, by_uid: k.by_uid, section: k.section@ }
}

/// Whether two keys denote the same identity.
pub fn key_matches(a: &MessageKey, b: &MessageKey) -> (r: bool)
    ensures
        r == (key_model(*a) == key_model(*b)),
{
    let r = bytes_eq(&a.mailbox, &b.mailbox) && a.num == b.num && a.by_uid == b.by_uid && bytes_eq(
        &a.section,
        &b.section,
    );
    proof {
        if r {
            assert(key_model(*a) =~= key_model(*b));
        }
    }
    r
}

/// A copy of `k`.
pub fn clone_key(k: &MessageKey) -> (r: MessageKey)
    ensures
        key_model(r) == key_model(*k),
{
    let r = MessageKey {
        mailbox: subvec(&k.mailbox, 0, k.mailbox.len()),
        num: k.num,
        by_uid: k.by_uid,
        section: subvec(&k.section, 0, k.section.len()),
    };
    proof {
        assert(k.mailbox@.subrange(0, k.mailbox@.len() as int) =~= k.mailbox@);
        assert(k.section@.subrange(0, k.section@.len() as int) =~= k.section@);
        assert(key_model(r) =~= key_model(*k));
    }
    r
}

/// One stored entry together with its key.
pub struct CacheSlot {
    pub key: MessageKey,
    pub payload: Vec<u8>,
    pub created_at: u64,
}

/// Mathematical image of a `CacheSlot`.
#[verifier::ext_equal]
pub struct SlotModel {
    pub key: KeyModel,
    pub payload: Seq<u8>,
    pub created_at: u64,
}

/// The model a `CacheSlot` denotes.
pub open spec fn slot_model(s: CacheSlot) -> SlotModel {
    SlotModel { key: key_model(s.key), payload: s.payload@, created_at: s.created_at }
}

/// The models of a whole slot vector.
pub open spec fn slots_model(s: Seq<CacheSlot>) -> Seq<SlotModel> {
    s.map_values(|c: CacheSlot| slot_model(c))
}

/// First slot of `m` whose key is `k`, if any.
pub open spec fn lookup(m: Seq<SlotModel>, k: KeyModel) -> Option<SlotModel>
    decreases m.len(),
{
    if m.len() == 0 {
        None
    } else if m[0].key == k {
        Some(m[0])
    } else {
        lookup(m.drop_first(), k)
    }
}

/// How many slots of `m` carry the key `k`.
pub open spec fn count_key(m: Seq<SlotModel>, k: KeyModel) -> nat
    decreases m.len(),
{
    if m.len() == 0 {
        0
    } else {
        count_key(m.drop_first(), k) + if m[0].key == k {
            1nat
        } else {
            0nat
        }
    }
}

/// Well-formedness: every key occurs at most once.
pub open spec fn wf_slots(m: Seq<SlotModel>) -> bool
    decreases m.len(),
{
    m.len() == 0 || (lookup(m.drop_first(), m[0].key) is None && wf_slots(m.drop_first()))
}

/// Whether an entry created at `created` is still visible at `now` under `ttl`.
pub open spec fn fresh(created: u64, now: u64, ttl: u64) -> bool {
    now < created + ttl
}

/// `m` after an overwriting insert of `(k, p, t)`: the first slot keyed `k`
/// is replaced in place, or a new slot is appended.
pub open spec fn put_model(m: Seq<SlotModel>, k: KeyModel, p: Seq<u8>, t: u64) -> Seq<SlotModel>
    decreases m.len(),
{
    if m.len() == 0 {
        seq![SlotModel { key: k, payload: p, created_at: t }]
    } else if m[0].key == k {
        seq![SlotModel { key: k, payload: p, created_at: t }] + m.drop_first()
    } else {
        seq![m[0]] + put_model(m.drop_first(), k, p, t)
    }
}

/// `m` with its first slot keyed `k` removed, if there is one.
pub open spec fn remove_key_model(m: Seq<SlotModel>, k: KeyModel) -> Seq<SlotModel>
    decreases m.len(),
{
    if m.len() == 0 {
        m
    } else if m[0].key == k {
        m.drop_first()
    } else {
        seq![m[0]] + remove_key_model(m.drop_first(), k)
    }
}

/// `m` with every slot of mailbox `mb` removed.
pub open spec fn drop_mailbox_model(m: Seq<SlotModel>, mb: Seq<u8>) -> Seq<SlotModel>
    decreases m.len(),
{
    if m.len() == 0 {
        m
    } else if m[0].key.mailbox == mb {
        drop_mailbox_model(m.drop_first(), mb)
    } else {
        seq![m[0]] + drop_mailbox_model(m.drop_first(), mb)
    }
}

/// Whether a slot key addresses this message: same mailbox, same number,
/// same addressing mode (UID or sequence), any section.
pub open spec fn key_of_message(k: KeyModel, mb: Seq<u8>, num: u32, by_uid: bool) -> bool {
    k.mailbox == mb && k.num == num && k.by_uid == by_uid
}

/// `m` with every slot of one message removed, whatever its section.
pub open spec fn drop_message_model(
    m: Seq<SlotModel>,
    mb: Seq<u8>,
    num: u32,
    by_uid: bool,
) -> Seq<SlotModel>
    decreases m.len(),
{
    if m.len() == 0 {
        m
    } else if key_of_message(m[0].key, mb, num, by_uid) {
        drop_message_model(m.drop_first(), mb, num, by_uid)
    } else {
        seq![m[0]] + drop_message_model(m.drop_first(), mb, num, by_uid)
    }
}

/// Dropping a message leaves no entry for any of its keys.
pub proof fn lemma_lookup_drop_message(
    m: Seq<SlotModel>,
    mb: Seq<u8>,
    num: u32,
    by_uid: bool,
    k: KeyModel,
)
    requires
        key_of_message(k, mb, num, by_uid),
    ensures
        lookup(drop_message_model(m, mb, num, by_uid), k) is None,
    decreases m.len(),
{
    if m.len() > 0 {
        lemma_lookup_drop_message(m.drop_first(), mb, num, by_uid, k);
        if !key_of_message(m[0].key, mb, num, by_uid) {
            assert((seq![m[0]] + drop_message_model(m.drop_first(), mb, num, by_uid)).drop_first()
                =~= drop_message_model(m.drop_first(), mb, num, by_uid));
        }
    }
}

/// Dropping a message leaves every other key's entry as it was.
pub proof fn lemma_lookup_drop_message_other(
    m: Seq<SlotModel>,
    mb: Seq<u8>,
    num: u32,
    by_uid: bool,
    k: KeyModel,
)
    requires
        !key_of_message(k, mb, num, by_uid),
    ensures
        lookup(drop_message_model(m, mb, num, by_uid), k) == lookup(m, k),
    decreases m.len(),
{
    if m.len() > 0 {
        lemma_lookup_drop_message_other(m.drop_first(), mb, num, by_uid, k);
        if !key_of_message(m[0].key, mb, num, by_uid) {
            assert((seq![m[0]] + drop_message_model(m.drop_first(), mb, num, by_uid)).drop_first()
                =~= drop_message_model(m.drop_first(), mb, num, by_uid));
        }
    }
}

/// A key absent before a message drop is absent after it.
pub proof fn lemma_lookup_drop_message_none(
    m: Seq<SlotModel>,
    mb: Seq<u8>,
    num: u32,
    by_uid: bool,
    k: KeyModel,
)
    requires
        lookup(m, k) is None,
    ensures
        lookup(drop_message_model(m, mb, num, by_uid), k) is None,
    decreases m.len(),
{
    if m.len() > 0 {
        lemma_lookup_drop_message_none(m.drop_first(), mb, num, by_uid, k);
        if !key_of_message(m[0].key, mb, num, by_uid) {
            assert((seq![m[0]] + drop_message_model(m.drop_first(), mb, num, by_uid)).drop_first()
                =~= drop_message_model(m.drop_first(), mb, num, by_uid));
        }
    }
}

/// Dropping a message keeps keys unique.
pub proof fn lemma_wf_drop_message(m: Seq<SlotModel>, mb: Seq<u8>, num: u32, by_uid: bool)
    requires
        wf_slots(m),
    ensures
        wf_slots(drop_message_model(m, mb, num, by_uid)),
    decreases m.len(),
{
    if m.len() > 0 {
        lemma_wf_drop_message(m.drop_first(), mb, num, by_uid);
        if !key_of_message(m[0].key, mb, num, by_uid) {
            lemma_lookup_drop_message_none(m.drop_first(), mb, num, by_uid, m[0].key);
            assert((seq![m[0]] + drop_message_model(m.drop_first(), mb, num, by_uid)).drop_first()
                =~= drop_message_model(m.drop_first(), mb, num, by_uid));
        }
    }
}

/// After a put, the inserted key maps to exactly the new payload and stamp.
pub proof fn lemma_lookup_put(m: Seq<SlotModel>, k: KeyModel, p: Seq<u8>, t: u64)
    ensures
        lookup(put_model(m, k, p, t), k) == Some(SlotModel { key: k, payload: p, created_at: t }),
    decreases m.len(),
{
    let new = SlotModel { key: k, payload: p, created_at: t };
    if m.len() == 0 {
    } else if m[0].key == k {
        assert((seq![new] + m.drop_first()).drop_first() =~= m.drop_first());
    } else {
        lemma_lookup_put(m.drop_first(), k, p, t);
        assert((seq![m[0]] + put_model(m.drop_first(), k, p, t)).drop_first() =~= put_model(
            m.drop_first(),
            k,
            p,
            t,
        ));
    }
}

/// A put leaves every other key's entry exactly as it was.
pub proof fn lemma_lookup_put_other(m: Seq<SlotModel>, k: KeyModel, p: Seq<u8>, t: u64, k2: KeyModel)
    requires
        k2 != k,
    ensures
        lookup(put_model(m, k, p, t), k2) == lookup(m, k2),
    decreases m.len(),
{
    reveal_with_fuel(lookup, 3);
    reveal_with_fuel(count_key, 3);
    reveal_with_fuel(wf_slots, 3);
    let new = SlotModel { key: k, payload: p, created_at: t };
    if m.len() == 0 {
        assert(seq![new].drop_first() =~= Seq::<SlotModel>::empty());
    } else if m[0].key == k {
        assert((seq![new] + m.drop_first()).drop_first() =~= m.drop_first());
    } else {
        lemma_lookup_put_other(m.drop_first(), k, p, t, k2);
        assert((seq![m[0]] + put_model(m.drop_first(), k, p, t)).drop_first() =~= put_model(
            m.drop_first(),
            k,
            p,
            t,
        ));
    }
}

/// A put keeps keys unique.
pub proof fn lemma_wf_put(m: Seq<SlotModel>, k: KeyModel, p: Seq<u8>, t: u64)
    requires
        wf_slots(m),
    ensures
        wf_slots(put_model(m, k, p, t)),
    decreases m.len(),
{
    reveal_with_fuel(lookup, 3);
    reveal_with_fuel(count_key, 3);
    reveal_with_fuel(wf_slots, 3);
    let new = SlotModel { key: k, payload: p, created_at: t };
    if m.len() == 0 {
        assert(seq![new].drop_first() =~= Seq::<SlotModel>::empty());
    } else if m[0].key == k {
        assert((seq![new] + m.drop_first()).drop_first() =~= m.drop_first());
    } else {
        lemma_wf_put(m.drop_first(), k, p, t);
        lemma_lookup_put_other(m.drop_first(), k, p, t, m[0].key);
        assert((seq![m[0]] + put_model(m.drop_first(), k, p, t)).drop_first() =~= put_model(
            m.drop_first(),
            k,
            p,
            t,
        ));
    }
}

/// After a put there is exactly one slot for the inserted key.
pub proof fn lemma_count_put(m: Seq<SlotModel>, k: KeyModel, p: Seq<u8>, t: u64)
    requires
        wf_slots(m),
    ensures
        count_key(put_model(m, k, p, t), k) == 1,
    decreases m.len(),
{
    reveal_with_fuel(lookup, 3);
    reveal_with_fuel(count_key, 3);
    reveal_with_fuel(wf_slots, 3);
    let new = SlotModel { key: k, payload: p, created_at: t };
    if m.len() == 0 {
        assert(seq![new].drop_first() =~= Seq::<SlotModel>::empty());
    } else if m[0].key == k {
        assert((seq![new] + m.drop_first()).drop_first() =~= m.drop_first());
        lemma_count_none(m.drop_first(), k);
    } else {
        lemma_count_put(m.drop_first(), k, p, t);
        assert((seq![m[0]] + put_model(m.drop_first(), k, p, t)).drop_first() =~= put_model(
            m.drop_first(),
            k,
            p,
            t,
        ));
    }
}

/// A key that `lookup` misses occurs zero times.
pub proof fn lemma_count_none(m: Seq<SlotModel>, k: KeyModel)
    requires
        lookup(m, k) is None,
    ensures
        count_key(m, k) == 0,
    decreases m.len(),
{
    if m.len() > 0 {
        lemma_count_none(m.drop_first(), k);
    }
}

/// Removing a key leaves no entry for it, when keys were unique.
pub proof fn lemma_lookup_remove(m: Seq<SlotModel>, k: KeyModel)
    requires
        wf_slots(m),
    ensures
        lookup(remove_key_model(m, k), k) is None,
    decreases m.len(),
{
    if m.len() == 0 {
    } else if m[0].key == k {
    } else {
        lemma_lookup_remove(m.drop_first(), k);
        assert((seq![m[0]] + remove_key_model(m.drop_first(), k)).drop_first()
            =~= remove_key_model(m.drop_first(), k));
    }
}

/// Removing one key leaves every other key's entry as it was.
pub proof fn lemma_lookup_remove_other(m: Seq<SlotModel>, k: KeyModel, k2: KeyModel)
    requires
        k2 != k,
    ensures
        lookup(remove_key_model(m, k), k2) == lookup(m, k2),
    decreases m.len(),
{
    if m.len() == 0 {
    } else if m[0].key == k {
    } else {
        lemma_lookup_remove_other(m.drop_first(), k, k2);
        assert((seq![m[0]] + remove_key_model(m.drop_first(), k)).drop_first()
            =~= remove_key_model(m.drop_first(), k));
    }
}

/// Removing a key keeps keys unique.
pub proof fn lemma_wf_remove(m: Seq<SlotModel>, k: KeyModel)
    requires
        wf_slots(m),
    ensures
        wf_slots(remove_key_model(m, k)),
    decreases m.len(),
{
    if m.len() == 0 {
    } else if m[0].key == k {
    } else {
        lemma_wf_remove(m.drop_first(), k);
        lemma_lookup_remove_other(m.drop_first(), k, m[0].key);
        assert((seq![m[0]] + remove_key_model(m.drop_first(), k)).drop_first()
            =~= remove_key_model(m.drop_first(), k));
    }
}

/// Dropping a mailbox leaves no entry for any key of that mailbox.
pub proof fn lemma_lookup_drop_mailbox(m: Seq<SlotModel>, mb: Seq<u8>, k: KeyModel)
    requires
        k.mailbox == mb,
    ensures
        lookup(drop_mailbox_model(m, mb), k) is None,
    decreases m.len(),
{
    if m.len() == 0 {
    } else if m[0].key.mailbox == mb {
        lemma_lookup_drop_mailbox(m.drop_first(), mb, k);
    } else {
        lemma_lookup_drop_mailbox(m.drop_first(), mb, k);
        assert((seq![m[0]] + drop_mailbox_model(m.drop_first(), mb)).drop_first()
            =~= drop_mailbox_model(m.drop_first(), mb));
    }
}

/// Dropping a mailbox leaves every other mailbox's entries as they were.
pub proof fn lemma_lookup_drop_mailbox_other(m: Seq<SlotModel>, mb: Seq<u8>, k: KeyModel)
    requires
        k.mailbox != mb,
    ensures
        lookup(drop_mailbox_model(m, mb), k) == lookup(m, k),
    decreases m.len(),
{
    if m.len() == 0 {
    } else if m[0].key.mailbox == mb {
        lemma_lookup_drop_mailbox_other(m.drop_first(), mb, k);
    } else {
        lemma_lookup_drop_mailbox_other(m.drop_first(), mb, k);
        assert((seq![m[0]] + drop_mailbox_model(m.drop_first(), mb)).drop_first()
            =~= drop_mailbox_model(m.drop_first(), mb));
    }
}

/// Dropping a mailbox keeps keys unique.
pub proof fn lemma_wf_drop_mailbox(m: Seq<SlotModel>, mb: Seq<u8>)
    requires
        wf_slots(m),
    ensures
        wf_slots(drop_mailbox_model(m, mb)),
    decreases m.len(),
{
    if m.len() == 0 {
    } else if m[0].key.mailbox == mb {
        lemma_wf_drop_mailbox(m.drop_first(), mb);
    } else {
        lemma_wf_drop_mailbox(m.drop_first(), mb);
        if m[0].key.mailbox == mb {
        } else {
            if lookup(m.drop_first(), m[0].key) is None {
                lemma_lookup_drop_none(m.drop_first(), mb, m[0].key);
            }
        }
        assert((seq![m[0]] + drop_mailbox_model(m.drop_first(), mb)).drop_first()
            =~= drop_mailbox_model(m.drop_first(), mb));
    }
}

/// A key absent before a mailbox drop is absent after it.
pub proof fn lemma_lookup_drop_none(m: Seq<SlotModel>, mb: Seq<u8>, k: KeyModel)
    requires
        lookup(m, k) is None,
    ensures
        lookup(drop_mailbox_model(m, mb), k) is None,
    decreases m.len(),
{
    if m.len() == 0 {
    } else {
        lemma_lookup_drop_none(m.drop_first(), mb, k);
        if m[0].key.mailbox != mb {
            assert((seq![m[0]] + drop_mailbox_model(m.drop_first(), mb)).drop_first()
                =~= drop_mailbox_model(m.drop_first(), mb));
        }
    }
}

/// The keyed, TTL-bounded store. At most one entry per key; insert
/// overwrites; expired entries are evicted lazily by `get`.
pub struct Cache {
    pub slots: Vec<CacheSlot>,
    pub ttl: u64,
}

impl Cache {
    /// The model of the current contents.
    pub open spec fn model(self) -> Seq<SlotModel> {
        slots_model(self.slots@)
    }

    /// Keys are unique.
    pub open spec fn wf(self) -> bool {
        wf_slots(self.model())
    }

    /// An empty cache with the given time-to-live.
    pub fn new(ttl: u64) -> (r: Cache)
        ensures
            r.wf(),
            r.ttl == ttl,
            r.model().len() == 0,
    {
        let r = Cache { slots: Vec::new(), ttl };
        proof {
            assert(r.model() =~= Seq::<SlotModel>::empty());
        }
        r
    }

    /// Index of the first slot keyed like `k`, searched from `i` on, with the
    /// facts `lookup` needs.
    fn find_from(&self, k: &MessageKey, i: usize) -> (r: Option<usize>)
        requires
            i <= self.slots@.len(),
        ensures
            r matches Some(j) ==> i <= j < self.slots@.len() && self.model()[j as int].key
                == key_model(*k) && lookup(self.model().skip(i as int), key_model(*k)) == Some(
                self.model()[j as int],
            ) && (forall|x: int| i <= x < j ==> self.model()[x].key != key_model(*k)),
            r is None ==> lookup(self.model().skip(i as int), key_model(*k)) is None,
        decreases self.slots@.len() - i,
    {
        let m = Ghost(self.model());
        if i == self.slots.len() {
            proof {
                assert(m@.skip(i as int) =~= Seq::<SlotModel>::empty());
            }
            None
        } else if key_matches(&self.slots[i].key, k) {
            proof {
                assert(m@.skip(i as int)[0] == m@[i as int]);
            }
            Some(i)
        } else {
            let r = self.find_from(k, i + 1);
            proof {
                assert(m@.skip(i as int)[0] == m@[i as int]);
                assert(m@.skip(i as int).drop_first() =~= m@.skip(i + 1 as int));
            }
            r
        }
    }

    /// Cached payload for `k` if present and unexpired at `now`. An expired
    /// entry is removed as a side effect; nothing else changes.
    pub fn get(&mut self, k: &MessageKey, now: u64) -> (r: Option<Vec<u8>>)
        requires
            old(self).wf(),
        ensures
            final(self).wf(),
            final(self).ttl == old(self).ttl,
            r is Some <==> (lookup(old(self).model(), key_model(*k)) matches Some(s) && fresh(
                s.created_at,
                now,
                old(self).ttl,
            )),
            r matches Some(p) ==> (lookup(old(self).model(), key_model(*k)) matches Some(s) && p@
                == s.payload) && *final(self) == *old(self),
            r is None ==> lookup(final(self).model(), key_model(*k)) is None && (forall|
                k2: KeyModel,
            |
                k2 != key_model(*k) ==> lookup(final(self).model(), k2) == lookup(
                    old(self).model(),
                    k2,
                )),
    {
        let ghost m0 = self.model();
        let found = self.find_from(k, 0);
        proof {
            assert(m0.skip(0) =~= m0);
        }
        match found {
            Option::None => {
                proof {
                    assert(forall|k2: KeyModel| lookup(self.model(), k2) == lookup(m0, k2));
                }
                None
            },
            Option::Some(j) => {
                let created = self.slots[j].created_at;
                let still = if now >= created {
                    now - created < self.ttl
                } else {
                    true
                };
                proof {
                    lemma_lookup_at(m0, j as int, key_model(*k));
                }
                if still {
                    let p = subvec(&self.slots[j].payload, 0, self.slots[j].payload.len());
                    proof {
                        let s = m0[j as int];
                        assert(s.payload.subrange(0, s.payload.len() as int) =~= s.payload);
                    }
                    Some(p)
                } else {
                    self.slots.remove(j);
                    proof {
                        lemma_remove_is_remove_key(m0, j as int, key_model(*k));
                        assert(self.model() =~= m0.remove(j as int));
                        lemma_lookup_remove(m0, key_model(*k));
                        lemma_wf_remove(m0, key_model(*k));
                        assert(forall|k2: KeyModel|
                            k2 != key_model(*k) ==> lookup(self.model(), k2) == lookup(m0, k2))
                            by {
                            assert forall|k2: KeyModel| k2 != key_model(*k) implies lookup(
                                self.model(),
                                k2,
                            ) == lookup(m0, k2) by {
                                lemma_lookup_remove_other(m0, key_model(*k), k2);
                            }
                        }
                    }
                    None
                }
            },
        }
    }

    /// Unconditional overwrite insert with the stamp `now`.
    pub fn put(&mut self, k: MessageKey, payload: Vec<u8>, now: u64)
        requires
            old(self).wf(),
        ensures
            final(self).wf(),
            final(self).ttl == old(self).ttl,
            final(self).model() == put_model(old(self).model(), key_model(k), payload@, now),
            lookup(final(self).model(), key_model(k)) == Some(
                SlotModel { key: key_model(k), payload: payload@, created_at: now },
            ),
            count_key(final(self).model(), key_model(k)) == 1,
            forall|k2: KeyModel|
                k2 != key_model(k) ==> lookup(final(self).model(), k2) == lookup(
                    old(self).model(),
                    k2,
                ),
    {
        let ghost m0 = self.model();
        let ghost km = key_model(k);
        let found = self.find_from(&k, 0);
        proof {
            assert(m0.skip(0) =~= m0);
        }
        let slot = CacheSlot { key: k, payload, created_at: now };
        match found {
            Option::None => {
                self.slots.push(slot);
                proof {
                    lemma_push_is_put(m0, km, slot_model(slot));
                    assert(self.model() =~= m0.push(slot_model(slot)));
                }
            },
            Option::Some(j) => {
                self.slots.set(j, slot);
                proof {
                    lemma_update_is_put(m0, j as int, km, slot_model(slot));
                    assert(self.model() =~= m0.update(j as int, slot_model(slot)));
                }
            },
        }
        proof {
            lemma_lookup_put(m0, km, slot_model(slot).payload, now);
            lemma_wf_put(m0, km, slot_model(slot).payload, now);
            lemma_count_put(m0, km, slot_model(slot).payload, now);
            assert forall|k2: KeyModel| k2 != km implies lookup(self.model(), k2) == lookup(
                m0,
                k2,
            ) by {
                lemma_lookup_put_other(m0, km, slot_model(slot).payload, now, k2);
            }
        }
    }

    /// Remove the entry for `k`, if any.
    pub fn invalidate(&mut self, k: &MessageKey)
        requires
            old(self).wf(),
        ensures
            final(self).wf(),
            final(self).ttl == old(self).ttl,
            lookup(final(self).model(), key_model(*k)) is None,
            forall|k2: KeyModel|
                k2 != key_model(*k) ==> lookup(final(self).model(), k2) == lookup(
                    old(self).model(),
                    k2,
                ),
    {
        let ghost m0 = self.model();
        let found = self.find_from(k, 0);
        proof {
            assert(m0.skip(0) =~= m0);
        }
        match found {
            Option::None => {
                proof {
                    lemma_lookup_remove(m0, key_model(*k));
                    lemma_remove_key_absent(m0, key_model(*k));
                }
            },
            Option::Some(j) => {
                self.slots.remove(j);
                proof {
                    lemma_remove_is_remove_key(m0, j as int, key_model(*k));
                    assert(self.model() =~= m0.remove(j as int));
                    lemma_lookup_remove(m0, key_model(*k));
                    lemma_wf_remove(m0, key_model(*k));
                }
            },
        }
        proof {
            assert forall|k2: KeyModel| k2 != key_model(*k) implies lookup(self.model(), k2)
                == lookup(m0, k2) by {
                lemma_lookup_remove_other(m0, key_model(*k), k2);
            }
        }
    }

    /// Remove every entry of the mailbox `mb`.
    pub fn invalidate_mailbox(&mut self, mb: &Vec<u8>)
        requires
            old(self).wf(),
        ensures
            final(self).wf(),
            final(self).ttl == old(self).ttl,
            forall|k: KeyModel|
                k.mailbox == mb@ ==> lookup(final(self).model(), k) is None,
            forall|k: KeyModel|
                k.mailbox != mb@ ==> lookup(final(self).model(), k) == lookup(
                    old(self).model(),
                    k,
                ),
    {
        let ghost m0 = self.model();
        let kept = keep_other_mailboxes(&self.slots, mb, 0);
        proof {
            assert(m0.skip(0) =~= m0);
        }
        self.slots = kept;
        proof {
            lemma_wf_drop_mailbox(m0, mb@);
            assert forall|k: KeyModel| k.mailbox == mb@ implies lookup(self.model(), k)
                is None by {
                lemma_lookup_drop_mailbox(m0, mb@, k);
            }
            assert forall|k: KeyModel| k.mailbox != mb@ implies lookup(self.model(), k) == lookup(
                m0,
                k,
            ) by {
                lemma_lookup_drop_mailbox_other(m0, mb@, k);
            }
        }
    }
}

impl Cache {
    /// Remove every entry of one message — same mailbox, same number under
    /// the same addressing mode, any section. Used when a STORE names its
    /// targets exactly.
    pub fn invalidate_message(&mut self, mb: &Vec<u8>, num: u32, by_uid: bool)
        requires
            old(self).wf(),
        ensures
            final(self).wf(),
            final(self).ttl == old(self).ttl,
            forall|k: KeyModel|
                key_of_message(k, mb@, num, by_uid) ==> lookup(final(self).model(), k) is None,
            forall|k: KeyModel|
                !key_of_message(k, mb@, num, by_uid) ==> lookup(final(self).model(), k) == lookup(
                    old(self).model(),
                    k,
                ),
    {
        let ghost m0 = self.model();
        let kept = keep_other_messages(&self.slots, mb, num, by_uid, 0);
        proof {
            assert(m0.skip(0) =~= m0);
        }
        self.slots = kept;
        proof {
            lemma_wf_drop_message(m0, mb@, num, by_uid);
            assert forall|k: KeyModel| key_of_message(k, mb@, num, by_uid) implies lookup(
                self.model(),
                k,
            ) is None by {
                lemma_lookup_drop_message(m0, mb@, num, by_uid, k);
            }
            assert forall|k: KeyModel| !key_of_message(k, mb@, num, by_uid) implies lookup(
                self.model(),
                k,
            ) == lookup(m0, k) by {
                lemma_lookup_drop_message_other(m0, mb@, num, by_uid, k);
            }
        }
    }
}

/// Copy of the slots of `v` from `i` on that do not address this message.
fn keep_other_messages(v: &Vec<CacheSlot>, mb: &Vec<u8>, num: u32, by_uid: bool, i: usize) -> (
    r: Vec<CacheSlot>)
    requires
        i <= v@.len(),
    ensures
        slots_model(r@) == drop_message_model(slots_model(v@).skip(i as int), mb@, num, by_uid),
    decreases v@.len() - i,
{
    let ghost m = slots_model(v@);
    if i == v.len() {
        let r: Vec<CacheSlot> = Vec::new();
        proof {
            assert(m.skip(i as int) =~= Seq::<SlotModel>::empty());
            assert(slots_model(r@) =~= drop_message_model(m.skip(i as int), mb@, num, by_uid));
        }
        r
    } else {
        let rest = keep_other_messages(v, mb, num, by_uid, i + 1);
        proof {
            assert(m.skip(i as int)[0] == m[i as int]);
            assert(m.skip(i as int).drop_first() =~= m.skip(i + 1 as int));
        }
        if bytes_eq(&v[i].key.mailbox, mb) && v[i].key.num == num && v[i].key.by_uid == by_uid {
            rest
        } else {
            let slot = CacheSlot {
                key: clone_key(&v[i].key),
                payload: subvec(&v[i].payload, 0, v[i].payload.len()),
                created_at: v[i].created_at,
            };
            let mut r: Vec<CacheSlot> = Vec::new();
            r.push(slot);
            let mut rest2 = rest;
            r.append(&mut rest2);
            proof {
                assert(v@[i as int].payload@.subrange(0, v@[i as int].payload@.len() as int)
                    =~= v@[i as int].payload@);
                assert(slot_model(slot) =~= m[i as int]);
                assert(slots_model(r@) =~= seq![m[i as int]] + drop_message_model(
                    m.skip(i + 1 as int),
                    mb@,
                    num,
                    by_uid,
                ));
            }
            r
        }
    }
}

/// Inserting the same key and payload twice in a row leaves exactly one
/// entry for that key, carrying the payload and the later stamp — an
/// overwriting insert is idempotent but for the refreshed timestamp.
pub proof fn lemma_put_put_idempotent(
    m: Seq<SlotModel>,
    k: KeyModel,
    p: Seq<u8>,
    t1: u64,
    t2: u64,
)
    requires
        wf_slots(m),
    ensures
        lookup(put_model(put_model(m, k, p, t1), k, p, t2), k) == Some(
            SlotModel { key: k, payload: p, created_at: t2 },
        ),
        count_key(put_model(put_model(m, k, p, t1), k, p, t2), k) == 1,
        forall|k2: KeyModel|
            k2 != k ==> lookup(put_model(put_model(m, k, p, t1), k, p, t2), k2) == lookup(m, k2),
{
    lemma_wf_put(m, k, p, t1);
    lemma_lookup_put(put_model(m, k, p, t1), k, p, t2);
    lemma_count_put(put_model(m, k, p, t1), k, p, t2);
    assert forall|k2: KeyModel| k2 != k implies lookup(
        put_model(put_model(m, k, p, t1), k, p, t2),
        k2,
    ) == lookup(m, k2) by {
        lemma_lookup_put_other(m, k, p, t1, k2);
        lemma_lookup_put_other(put_model(m, k, p, t1), k, p, t2, k2);
    }
}

/// A key with no slot is untouched by `remove_key_model`.
pub proof fn lemma_remove_key_absent(m: Seq<SlotModel>, k: KeyModel)
    requires
        lookup(m, k) is None,
    ensures
        remove_key_model(m, k) == m,
    decreases m.len(),
{
    if m.len() > 0 {
        lemma_remove_key_absent(m.drop_first(), k);
        assert(seq![m[0]] + m.drop_first() =~= m);
    }
}

/// When `j` is the first slot keyed `k`, `lookup` returns that slot.
pub proof fn lemma_lookup_at(m: Seq<SlotModel>, j: int, k: KeyModel)
    requires
        0 <= j < m.len(),
        m[j].key == k,
        forall|x: int| 0 <= x < j ==> m[x].key != k,
    ensures
        lookup(m, k) == Some(m[j]),
    decreases j,
{
    if j > 0 {
        lemma_lookup_at(m.drop_first(), j - 1, k);
    }
}

/// When `j` is the first slot keyed `k`, removing index `j` is removing `k`.
pub proof fn lemma_remove_is_remove_key(m: Seq<SlotModel>, j: int, k: KeyModel)
    requires
        0 <= j < m.len(),
        m[j].key == k,
        forall|x: int| 0 <= x < j ==> m[x].key != k,
    ensures
        m.remove(j) == remove_key_model(m, k),
    decreases j,
{
    if j == 0 {
        assert(m.remove(0) =~= m.drop_first());
    } else {
        lemma_remove_is_remove_key(m.drop_first(), j - 1, k);
        assert(m.remove(j) =~= seq![m[0]] + m.drop_first().remove(j - 1));
    }
}

/// When no slot is keyed `k`, pushing a slot keyed `k` is a put.
pub proof fn lemma_push_is_put(m: Seq<SlotModel>, k: KeyModel, s: SlotModel)
    requires
        lookup(m, k) is None,
        s.key == k,
    ensures
        m.push(s) == put_model(m, k, s.payload, s.created_at),
    decreases m.len(),
{
    assert(s =~= SlotModel { key: k, payload: s.payload, created_at: s.created_at });
    if m.len() == 0 {
        assert(m.push(s) =~= seq![s]);
    } else {
        lemma_push_is_put(m.drop_first(), k, s);
        assert(m.push(s) =~= seq![m[0]] + m.drop_first().push(s));
    }
}

/// When `j` is the first slot keyed `k`, replacing index `j` is a put.
pub proof fn lemma_update_is_put(m: Seq<SlotModel>, j: int, k: KeyModel, s: SlotModel)
    requires
        0 <= j < m.len(),
        m[j].key == k,
        forall|x: int| 0 <= x < j ==> m[x].key != k,
        s.key == k,
    ensures
        m.update(j, s) == put_model(m, k, s.payload, s.created_at),
    decreases j,
{
    assert(s =~= SlotModel { key: k, payload: s.payload, created_at: s.created_at });
    if j == 0 {
        assert(m.update(0, s) =~= seq![s] + m.drop_first());
    } else {
        lemma_update_is_put(m.drop_first(), j - 1, k, s);
        assert(m.update(j, s) =~= seq![m[0]] + m.drop_first().update(j - 1, s));
    }
}

/// Copy of the slots of `v` from `i` on whose mailbox is not `mb`.
fn keep_other_mailboxes(v: &Vec<CacheSlot>, mb: &Vec<u8>, i: usize) -> (r: Vec<CacheSlot>)
    requires
        i <= v@.len(),
    ensures
        slots_model(r@) == drop_mailbox_model(slots_model(v@).skip(i as int), mb@),
    decreases v@.len() - i,
{
    let ghost m = slots_model(v@);
    if i == v.len() {
        let r: Vec<CacheSlot> = Vec::new();
        proof {
            assert(m.skip(i as int) =~= Seq::<SlotModel>::empty());
            assert(slots_model(r@) =~= drop_mailbox_model(m.skip(i as int), mb@));
        }
        r
    } else {
        let rest = keep_other_mailboxes(v, mb, i + 1);
        proof {
            assert(m.skip(i as int)[0] == m[i as int]);
            assert(m.skip(i as int).drop_first() =~= m.skip(i + 1 as int));
        }
        if bytes_eq(&v[i].key.mailbox, mb) {
            rest
        } else {
            let slot = CacheSlot {
                key: clone_key(&v[i].key),
                payload: subvec(&v[i].payload, 0, v[i].payload.len()),
                created_at: v[i].created_at,
            };
            let mut r: Vec<CacheSlot> = Vec::new();
            r.push(slot);
            let mut rest2 = rest;
            r.append(&mut rest2);
            proof {
                assert(v@[i as int].payload@.subrange(0, v@[i as int].payload@.len() as int)
                    =~= v@[i as int].payload@);
                assert(slot_model(slot) =~= m[i as int]);
                assert(slots_model(r@) =~= seq![m[i as int]] + drop_mailbox_model(
                    m.skip(i + 1 as int),
                    mb@,
                ));
            }
            r
        }
    }
}

} // verus!
