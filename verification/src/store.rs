//! The hash-bucket, collision-chain storage layer.
//!
//! A store is a set of buckets, one per key hash; a bucket holds numbered
//! chain slots, each with the raw content of its key record (`None` when the
//! record is missing or unreadable) and its payload record.  The surrounding
//! binary mirrors this state to the on-disk tree; every rule of the layout —
//! scan before insert, first free slot number, overwrite in place, skip
//! corrupt slots — is stated and proved here.

use vstd::prelude::*;
use crate::text::{trim, trim_str, str_eq, is_trimmed};
use crate::errors::CacheError;

verus! {

/// One occupied chain slot.
pub struct Slot {
    /// The slot's number within its bucket.
    pub num: u64,
    /// The raw content of the key record; `None` when the record is missing
    /// or unreadable.
    pub key: Option<String>,
    /// The payload record, verbatim.
    pub data: String,
}

/// The mathematical value of a slot.
#[verifier::ext_equal]
pub struct SlotV {
    pub num: u64,
    pub key: Option<Seq<char>>,
    pub data: Seq<char>,
}

impl View for Slot {
    type V = SlotV;

    open spec fn view(&self) -> SlotV {
        SlotV {
            num: self.num,
            key: match self.key {
                Some(k) => Some(k@),
                None => None,
            },
            data: self.data@,
        }
    }
}

/// One bucket: all slots sharing a key hash.
pub struct Bucket {
    pub id: u64,
    pub slots: Vec<Slot>,
}

/// The mathematical value of a bucket.
#[verifier::ext_equal]
pub struct BucketV {
    pub id: u64,
    pub slots: Seq<SlotV>,
}

impl View for Bucket {
    type V = BucketV;

    open spec fn view(&self) -> BucketV {
        BucketV { id: self.id, slots: self.slots@.map_values(|s: Slot| s@) }
    }
}

/// The whole storage tree.
pub struct BucketStore {
    pub buckets: Vec<Bucket>,
}

impl View for BucketStore {
    type V = Seq<BucketV>;

    open spec fn view(&self) -> Seq<BucketV> {
        self.buckets@.map_values(|b: Bucket| b@)
    }
}

/// Whether the slot's key record is readable and its trimmed content is
/// exactly `key`.
pub open spec fn slot_matches(s: SlotV, key: Seq<char>) -> bool {
    match s.key {
        Some(k) => trim(k) == key,
        None => false,
    }
}

/// How many slots of `slots` match `key`.
pub open spec fn count_matches(slots: Seq<SlotV>, key: Seq<char>) -> nat
    decreases slots.len(),
{
    if slots.len() == 0 {
        0
    } else {
        count_matches(slots.drop_last(), key) + (if slot_matches(slots.last(), key) {
            1nat
        } else {
            0nat
        })
    }
}

/// The position of the first slot of `slots` that matches `key`.
pub open spec fn find_match(slots: Seq<SlotV>, key: Seq<char>) -> Option<int>
    decreases slots.len(),
{
    if slots.len() == 0 {
        None
    } else if slot_matches(slots[0], key) {
        Some(0)
    } else {
        match find_match(slots.drop_first(), key) {
            Some(i) => Some(i + 1),
            None => None,
        }
    }
}

/// The position of the bucket named `id`.
pub open spec fn find_bucket(store: Seq<BucketV>, id: u64) -> Option<int>
    decreases store.len(),
{
    if store.len() == 0 {
        None
    } else if store[0].id == id {
        Some(0)
    } else {
        match find_bucket(store.drop_first(), id) {
            Some(i) => Some(i + 1),
            None => None,
        }
    }
}

/// The largest slot number of `slots` (0 when there is none).
pub open spec fn max_slot_num(slots: Seq<SlotV>) -> u64
    decreases slots.len(),
{
    if slots.len() == 0 {
        0
    } else {
        let m = max_slot_num(slots.drop_last());
        if slots.last().num > m {
            slots.last().num
        } else {
            m
        }
    }
}

/// Structural well-formedness: bucket names are unique, and so are slot
/// numbers within each bucket.
pub open spec fn store_wf(store: Seq<BucketV>) -> bool {
    (forall|i: int, j: int| 0 <= i < j < store.len() ==> store[i].id != store[j].id)
        && (forall|i: int, j1: int, j2: int|
            0 <= i < store.len() && 0 <= j1 < j2 < store[i].slots.len()
                ==> store[i].slots[j1].num != store[i].slots[j2].num)
}

/// The outcome of a lookup, over mathematical values.
pub enum LookupV {
    /// Exactly one slot matches; its payload.
    Hit(Seq<char>),
    /// No bucket, or no matching slot.
    Miss,
    /// More than one slot matches: the at-most-one-slot-per-key rule is
    /// broken on disk.
    Violation,
}

/// What a lookup of `key` in bucket `bucket` yields.
pub open spec fn spec_lookup(store: Seq<BucketV>, bucket: u64, key: Seq<char>) -> LookupV {
    match find_bucket(store, bucket) {
        None => LookupV::Miss,
        Some(bi) => {
            let slots = store[bi].slots;
            if count_matches(slots, key) == 0 {
                LookupV::Miss
            } else if count_matches(slots, key) == 1 {
                LookupV::Hit(slots[find_match(slots, key).unwrap()].data)
            } else {
                LookupV::Violation
            }
        },
    }
}

pub proof fn lemma_find_bucket(store: Seq<BucketV>, id: u64)
    ensures
        match find_bucket(store, id) {
            Some(i) => 0 <= i < store.len() && store[i].id == id && (forall|k: int|
                0 <= k < i ==> store[k].id != id),
            None => forall|k: int| 0 <= k < store.len() ==> store[k].id != id,
        },
    decreases store.len(),
{
    if store.len() > 0 {
        let rest = store.drop_first();
        lemma_find_bucket(rest, id);
        match find_bucket(store, id) {
            Some(i) => {
                if store[0].id != id {
                    assert(rest[i - 1] == store[i]);
                    assert forall|k: int| 0 <= k < i implies store[k].id != id by {
                        if k > 0 {
                            assert(rest[k - 1] == store[k]);
                        }
                    }
                }
            },
            None => {
                assert forall|k: int| 0 <= k < store.len() implies store[k].id != id by {
                    if k > 0 {
                        assert(rest[k - 1] == store[k]);
                    }
                }
            },
        }
    }
}

pub proof fn lemma_find_match(slots: Seq<SlotV>, key: Seq<char>)
    ensures
        match find_match(slots, key) {
            Some(i) => 0 <= i < slots.len() && slot_matches(slots[i], key) && (forall|k: int|
                0 <= k < i ==> !slot_matches(slots[k], key)),
            None => forall|k: int| 0 <= k < slots.len() ==> !slot_matches(slots[k], key),
        },
    decreases slots.len(),
{
    if slots.len() > 0 {
        let rest = slots.drop_first();
        lemma_find_match(rest, key);
        match find_match(slots, key) {
            Some(i) => {
                if !slot_matches(slots[0], key) {
                    assert(rest[i - 1] == slots[i]);
                    assert forall|k: int| 0 <= k < i implies !slot_matches(slots[k], key) by {
                        if k > 0 {
                            assert(rest[k - 1] == slots[k]);
                        }
                    }
                }
            },
            None => {
                assert forall|k: int| 0 <= k < slots.len() implies !slot_matches(slots[k], key) by {
                    if k > 0 {
                        assert(rest[k - 1] == slots[k]);
                    }
                }
            },
        }
    }
}

/// A count of zero means no slot matches; a positive count names a matching
/// slot.
pub proof fn lemma_count_matches_zero(slots: Seq<SlotV>, key: Seq<char>)
    ensures
        (count_matches(slots, key) == 0) <==> (forall|k: int|
            0 <= k < slots.len() ==> !slot_matches(slots[k], key)),
    decreases slots.len(),
{
    if slots.len() > 0 {
        lemma_count_matches_zero(slots.drop_last(), key);
        assert(forall|k: int| 0 <= k < slots.len() - 1 ==> slots.drop_last()[k] == slots[k]);
    }
}

/// If two slot sequences match `key` alike position by position, their
/// counts agree.
pub proof fn lemma_count_matches_pointwise(a: Seq<SlotV>, b: Seq<SlotV>, key: Seq<char>)
    requires
        a.len() == b.len(),
        forall|k: int| 0 <= k < a.len() ==> slot_matches(a[k], key) == slot_matches(b[k], key),
    ensures
        count_matches(a, key) == count_matches(b, key),
    decreases a.len(),
{
    if a.len() > 0 {
        lemma_count_matches_pointwise(a.drop_last(), b.drop_last(), key);
        assert(forall|k: int| 0 <= k < a.len() - 1 ==> a.drop_last()[k] == a[k]
            && b.drop_last()[k] == b[k]);
    }
}

/// Every slot number is bounded by the bucket's largest.
pub proof fn lemma_max_slot_num(slots: Seq<SlotV>)
    ensures
        forall|k: int| 0 <= k < slots.len() ==> slots[k].num <= max_slot_num(slots),
    decreases slots.len(),
{
    if slots.len() > 0 {
        lemma_max_slot_num(slots.drop_last());
        assert(forall|k: int| 0 <= k < slots.len() - 1 ==> slots.drop_last()[k] == slots[k]);
    }
}

/// The mathematical value of a bucket's slot vector.
pub open spec fn slots_view(slots: Vec<Slot>) -> Seq<SlotV> {
    slots@.map_values(|s: Slot| s@)
}

/// Scans a bucket's slots for `key`: how many match, and the first that does.
fn scan_slots(slots: &Vec<Slot>, key: &str) -> (r: (usize, Option<usize>))
    ensures
        ({
            let sv = slots_view(*slots);
            r.0 == count_matches(sv, key@) && match r.1 {
                Some(j) => find_match(sv, key@) == Some(j as int) && (j as int) < sv.len()
                    && r.0 >= 1,
                None => find_match(sv, key@) is None && r.0 == 0,
            }
        }),
{
    let ghost sv = slots_view(*slots);
    let ns = slots.len();
    let mut i: usize = 0;
    let mut found: Option<usize> = None;
    let mut count: usize = 0;
    while i < ns
        invariant
            i <= ns,
            ns == sv.len(),
            sv == slots@.map_values(|s: Slot| s@),
            count == count_matches(sv.take(i as int), key@),
            count <= i,
            match found {
                Some(j) => j < i && slot_matches(sv[j as int], key@) && (forall|k: int|
                    0 <= k < j ==> !slot_matches(sv[k], key@)) && count >= 1,
                None => forall|k: int| 0 <= k < i ==> !slot_matches(sv[k], key@),
            },
        decreases ns - i,
    {
        let matched: bool = match &slots[i].key {
            Some(k) => {
                let t = trim_str(k.as_str());
                str_eq(t, key)
            },
            None => false,
        };
        proof {
            assert(sv[i as int] == slots[i as int]@);
            assert(matched == slot_matches(sv[i as int], key@));
            assert(sv.take(i + 1).drop_last() =~= sv.take(i as int));
            assert(sv.take(i + 1).last() == sv[i as int]);
        }
        if matched {
            count = count + 1;
            if found.is_none() {
                found = Some(i);
            }
        }
        i = i + 1;
    }
    proof {
        assert(sv.take(ns as int) =~= sv);
        lemma_find_match(sv, key@);
        lemma_count_matches_zero(sv, key@);
        if found is Some {
            assert(find_match(sv, key@) == Some(found.unwrap() as int));
        }
    }
    (count, found)
}

/// The largest slot number of a bucket's slots (0 when there is none).
fn bucket_max_num(slots: &Vec<Slot>) -> (r: u64)
    ensures
        r == max_slot_num(slots_view(*slots)),
{
    let ghost sv = slots_view(*slots);
    let ns = slots.len();
    let mut m: u64 = 0;
    let mut i: usize = 0;
    while i < ns
        invariant
            i <= ns,
            ns == sv.len(),
            sv == slots@.map_values(|s: Slot| s@),
            m == max_slot_num(sv.take(i as int)),
        decreases ns - i,
    {
        proof {
            assert(sv.take(i + 1).drop_last() =~= sv.take(i as int));
            assert(sv.take(i + 1).last() == sv[i as int] && sv[i as int] == slots[i as int]@);
        }
        if slots[i].num > m {
            m = slots[i].num;
        }
        i = i + 1;
    }
    proof {
        assert(sv.take(ns as int) =~= sv);
    }
    m
}

/// Whether a bucket already uses slot number `num`.
fn has_slot_num(slots: &Vec<Slot>, num: u64) -> (r: bool)
    ensures
        r == exists|k: int| 0 <= k < slots_view(*slots).len() && slots_view(*slots)[k].num == num,
{
    let ghost sv = slots_view(*slots);
    let ns = slots.len();
    let mut i: usize = 0;
    while i < ns
        invariant
            i <= ns,
            ns == sv.len(),
            sv == slots@.map_values(|s: Slot| s@),
            forall|k: int| 0 <= k < i ==> sv[k].num != num,
        decreases ns - i,
    {
        proof {
            assert(sv[i as int] == slots[i as int]@);
        }
        if slots[i].num == num {
            return true;
        }
        i = i + 1;
    }
    false
}

impl BucketStore {
    /// Structural well-formedness of the store.
    pub open spec fn wf(self) -> bool {
        store_wf(self@)
    }

    /// The position of the bucket named `bucket`, if it exists.
    fn locate_bucket(&self, bucket: u64) -> (r: Option<usize>)
        ensures
            match r {
                Some(bi) => find_bucket(self@, bucket) == Some(bi as int) && (bi as int)
                    < self@.len() && self@[bi as int].id == bucket,
                None => find_bucket(self@, bucket) is None,
            },
    {
        proof {
            lemma_find_bucket(self@, bucket);
        }
        let nb = self.buckets.len();
        let mut bi: usize = 0;
        loop
            invariant
                bi <= nb,
                nb == self@.len(),
                forall|k: int| 0 <= k < bi ==> self@[k].id != bucket,
            ensures
                bi <= nb,
                forall|k: int| 0 <= k < bi ==> self@[k].id != bucket,
                bi == nb || self@[bi as int].id == bucket,
            decreases nb - bi,
        {
            if bi == nb {
                break;
            }
            if self.buckets[bi].id == bucket {
                break;
            }
            bi = bi + 1;
        }
        if bi == nb {
            None
        } else {
            proof {
                assert(find_bucket(self@, bucket) == Some(bi as int));
            }
            Some(bi)
        }
    }

    /// An empty store.
    pub fn new() -> (r: BucketStore)
        ensures
            r@.len() == 0,
            r.wf(),
    {
        let r = BucketStore { buckets: Vec::new() };
        proof {
            assert(r@ =~= Seq::<BucketV>::empty());
        }
        r
    }

    /// Looks `key` up in the bucket named `bucket`: a missing bucket or a
    /// bucket with no matching slot is a miss; slots whose key record is
    /// missing or unreadable are skipped; two matching slots are a broken
    /// invariant, reported, never silently resolved.
    pub fn find_in_bucket(&self, bucket: u64, key: &str) -> (r: Result<Option<String>, CacheError>)
        ensures
            match r {
                Ok(Some(d)) => spec_lookup(self@, bucket, key@) == LookupV::Hit(d@),
                Ok(None) => spec_lookup(self@, bucket, key@) == LookupV::Miss,
                Err(e) => spec_lookup(self@, bucket, key@) == LookupV::Violation && (e matches
                    CacheError::InvariantViolation(b) && b == bucket),
            },
    {
        match self.locate_bucket(bucket) {
            None => Ok(None),
            Some(bi) => {
                let ghost slots_v = self@[bi as int].slots;
                let (count, found) = scan_slots(&self.buckets[bi].slots, key);
                if count == 0 {
                    Ok(None)
                } else if count == 1 {
                    let j = match found {
                        Some(j) => j,
                        None => 0,
                    };
                    proof {
                        assert(find_match(slots_v, key@) == Some(j as int));
                        assert(slots_v[j as int] == self.buckets[bi as int].slots[j as int]@);
                    }
                    let d = self.buckets[bi].slots[j].data.clone();
                    Ok(Some(d))
                } else {
                    Err(CacheError::InvariantViolation(bucket))
                }
            },
        }
    }

    /// How much room an insertion needs: a fresh slot number must fit in the
    /// machine word, unless the key overwrites its slot in place.
    pub open spec fn spec_room_for(store: Seq<BucketV>, bucket: u64, key: Seq<char>) -> bool {
        match find_bucket(store, bucket) {
            Some(bi) => count_matches(store[bi].slots, key) >= 1 || store[bi].slots.len() == 0
                || max_slot_num(store[bi].slots) < u64::MAX,
            None => true,
        }
    }

    /// Writes `key` with payload `data`: scan before insert; an existing slot
    /// for the key is overwritten in place, else the first slot number past
    /// the largest in use is taken (0 in an empty or fresh bucket).  Two
    /// slots already holding the key are a broken invariant, reported, and
    /// nothing is changed.
    pub fn put_in_bucket(&mut self, bucket: u64, key: &str, data: String) -> (r: Result<
        (),
        CacheError,
    >)
        requires
            old(self).wf(),
            BucketStore::spec_room_for(old(self)@, bucket, key@),
        ensures
            final(self).wf(),
            match r {
                Ok(_) => final(self)@ == spec_put(old(self)@, bucket, key@, data@) && spec_lookup(
                    old(self)@,
                    bucket,
                    key@,
                ) != LookupV::Violation,
                Err(e) => final(self)@ == old(self)@ && spec_lookup(old(self)@, bucket, key@)
                    == LookupV::Violation && (e matches CacheError::InvariantViolation(b) && b
                    == bucket),
            },
    {
        let ghost store0 = self@;
        match self.locate_bucket(bucket) {
            None => {
                let mut slots: Vec<Slot> = Vec::new();
                slots.push(Slot { num: 0, key: Some(key.to_owned()), data });
                self.buckets.push(Bucket { id: bucket, slots });
                proof {
                    lemma_find_bucket(store0, bucket);
                    assert(self@ =~~= spec_put(store0, bucket, key@, data@));
                    assert(store_wf(self@));
                }
                Ok(())
            },
            Some(bi) => {
                let (count, found) = scan_slots(&self.buckets[bi].slots, key);
                if count >= 2 {
                    return Err(CacheError::InvariantViolation(bucket));
                }
                let ghost old_slots = store0[bi as int].slots;
                let mut b = self.buckets.remove(bi);
                match found {
                    Some(si) => {
                        let old_slot = b.slots.remove(si);
                        let num = old_slot.num;
                        b.slots.insert(si, Slot { num, key: Some(key.to_owned()), data });
                        proof {
                            assert(slots_view(b.slots) =~~= old_slots.update(
                                si as int,
                                SlotV {
                                    num: old_slots[si as int].num,
                                    key: Some(key@),
                                    data: data@,
                                },
                            ));
                        }
                    },
                    None => {
                        let num: u64 = if b.slots.len() == 0 {
                            0
                        } else {
                            bucket_max_num(&b.slots) + 1
                        };
                        b.slots.push(Slot { num, key: Some(key.to_owned()), data });
                        proof {
                            assert(slots_view(b.slots) =~~= old_slots.push(
                                SlotV {
                                    num: if old_slots.len() == 0 {
                                        0u64
                                    } else {
                                        ((max_slot_num(old_slots) + 1) as u64)
                                    },
                                    key: Some(key@),
                                    data: data@,
                                },
                            ));
                        }
                    },
                }
                self.buckets.insert(bi, b);
                proof {
                    assert(self@ =~~= spec_put(store0, bucket, key@, data@));
                    lemma_put_wf(store0, bucket, key@, data@);
                }
                Ok(())
            },
        }
    }
}

impl BucketStore {
    /// Adds one slot as found on disk, raw key record and all; a slot
    /// number already in use in its bucket is rejected unchanged.  This is
    /// how a pre-existing tree is brought in at startup.
    pub fn load_slot(&mut self, bucket: u64, num: u64, key: Option<String>, data: String) -> (r:
        bool)
        requires
            old(self).wf(),
        ensures
            final(self).wf(),
            ({
                let kv = match key {
                    Some(k) => Some(k@),
                    None => None,
                };
                let sv = SlotV { num, key: kv, data: data@ };
                match find_bucket(old(self)@, bucket) {
                    None => r && final(self)@ == old(self)@.push(
                        BucketV { id: bucket, slots: seq![sv] },
                    ),
                    Some(bi) => {
                        if exists|k: int|
                            0 <= k < old(self)@[bi].slots.len() && old(self)@[bi].slots[k].num
                                == num {
                            !r && final(self)@ == old(self)@
                        } else {
                            r && final(self)@ == old(self)@.update(
                                bi,
                                BucketV { id: bucket, slots: old(self)@[bi].slots.push(sv) },
                            )
                        }
                    },
                }
            }),
    {
        let ghost store0 = self@;
        match self.locate_bucket(bucket) {
            None => {
                let mut slots: Vec<Slot> = Vec::new();
                slots.push(Slot { num, key, data });
                self.buckets.push(Bucket { id: bucket, slots });
                proof {
                    lemma_find_bucket(store0, bucket);
                    assert(self@ =~~= store0.push(
                        BucketV {
                            id: bucket,
                            slots: seq![
                                SlotV {
                                    num,
                                    key: match key {
                                        Some(k) => Some(k@),
                                        None => None,
                                    },
                                    data: data@,
                                },
                            ],
                        },
                    ));
                    assert(store_wf(self@));
                }
                true
            },
            Some(bi) => {
                if has_slot_num(&self.buckets[bi].slots, num) {
                    return false;
                }
                let ghost old_slots = store0[bi as int].slots;
                let mut b = self.buckets.remove(bi);
                b.slots.push(Slot { num, key, data });
                self.buckets.insert(bi, b);
                proof {
                    assert(self@ =~~= store0.update(
                        bi as int,
                        BucketV {
                            id: bucket,
                            slots: old_slots.push(
                                SlotV {
                                    num,
                                    key: match key {
                                        Some(k) => Some(k@),
                                        None => None,
                                    },
                                    data: data@,
                                },
                            ),
                        },
                    ));
                    assert(forall|k: int| 0 <= k < old_slots.len()
                        ==> #[trigger] old_slots[k].num != num);
                    assert(store_wf(self@));
                }
                true
            },
        }
    }
}

/// What a successful write leaves behind.
pub open spec fn spec_put(store: Seq<BucketV>, bucket: u64, key: Seq<char>, data: Seq<char>) -> Seq<
    BucketV,
> {
    match find_bucket(store, bucket) {
        None => store.push(
            BucketV { id: bucket, slots: seq![SlotV { num: 0, key: Some(key), data: data }] },
        ),
        Some(bi) => {
            let slots = store[bi].slots;
            match find_match(slots, key) {
                Some(si) => store.update(
                    bi,
                    BucketV {
                        id: bucket,
                        slots: slots.update(
                            si,
                            SlotV { num: slots[si].num, key: Some(key), data: data },
                        ),
                    },
                ),
                None => store.update(
                    bi,
                    BucketV {
                        id: bucket,
                        slots: slots.push(
                            SlotV {
                                num: if slots.len() == 0 {
                                    0u64
                                } else {
                                    ((max_slot_num(slots) + 1) as u64)
                                },
                                key: Some(key),
                                data: data,
                            },
                        ),
                    },
                ),
            }
        },
    }
}

/// Updating the slot at `i` changes the count by the difference of the two
/// slots' contributions.
pub proof fn lemma_count_matches_update(slots: Seq<SlotV>, key: Seq<char>, i: int, s: SlotV)
    requires
        0 <= i < slots.len(),
    ensures
        count_matches(slots.update(i, s), key) + (if slot_matches(slots[i], key) {
            1nat
        } else {
            0nat
        }) == count_matches(slots, key) + (if slot_matches(s, key) {
            1nat
        } else {
            0nat
        }),
    decreases slots.len(),
{
    if i == slots.len() - 1 {
        assert(slots.update(i, s).drop_last() =~= slots.drop_last());
        assert(slots.update(i, s).last() == s);
    } else {
        lemma_count_matches_update(slots.drop_last(), key, i, s);
        assert(slots.update(i, s).drop_last() =~= slots.drop_last().update(i, s));
        assert(slots.update(i, s).last() == slots.last());
    }
}

/// Two stores whose buckets carry the same names in the same order agree on
/// where any name is found.
pub proof fn lemma_find_bucket_same_ids(a: Seq<BucketV>, b: Seq<BucketV>, id: u64)
    requires
        a.len() == b.len(),
        forall|k: int| 0 <= k < a.len() ==> a[k].id == b[k].id,
    ensures
        find_bucket(a, id) == find_bucket(b, id),
{
    lemma_find_bucket(a, id);
    lemma_find_bucket(b, id);
    match (find_bucket(a, id), find_bucket(b, id)) {
        (Some(i), Some(j)) => {
            if i < j {
                assert(b[i].id == id);
                assert(false);
            }
            if j < i {
                assert(a[j].id == id);
                assert(false);
            }
        },
        (Some(i), None) => {
            assert(b[i].id == id);
            assert(false);
        },
        (None, Some(j)) => {
            assert(a[j].id == id);
            assert(false);
        },
        (None, None) => {},
    }
}

/// Two slot sequences that match a key alike position by position agree on
/// the first match.
pub proof fn lemma_find_match_pointwise(a: Seq<SlotV>, b: Seq<SlotV>, key: Seq<char>)
    requires
        a.len() == b.len(),
        forall|k: int| 0 <= k < a.len() ==> slot_matches(a[k], key) == slot_matches(b[k], key),
    ensures
        find_match(a, key) == find_match(b, key),
{
    lemma_find_match(a, key);
    lemma_find_match(b, key);
    match (find_match(a, key), find_match(b, key)) {
        (Some(i), Some(j)) => {
            if i < j {
                assert(slot_matches(b[i], key));
                assert(false);
            }
            if j < i {
                assert(slot_matches(a[j], key));
                assert(false);
            }
        },
        (Some(i), None) => {
            assert(slot_matches(b[i], key));
            assert(false);
        },
        (None, Some(j)) => {
            assert(slot_matches(a[j], key));
            assert(false);
        },
        (None, None) => {},
    }
}

/// A slot appended to a bucket that does not match a key changes neither
/// that key's count nor its first match.
pub proof fn lemma_push_nonmatching(slots: Seq<SlotV>, s: SlotV, key: Seq<char>)
    requires
        !slot_matches(s, key),
    ensures
        count_matches(slots.push(s), key) == count_matches(slots, key),
        find_match(slots.push(s), key) == find_match(slots, key),
{
    let p = slots.push(s);
    assert(p.drop_last() =~= slots);
    assert(forall|k: int| 0 <= k < slots.len() ==> p[k] == slots[k]);
    lemma_find_match(slots, key);
    lemma_find_match(p, key);
    match (find_match(slots, key), find_match(p, key)) {
        (Some(i), Some(j)) => {
            if i < j {
                assert(slot_matches(p[i], key));
                assert(false);
            }
            if j < i {
                assert(slot_matches(slots[j], key));
                assert(false);
            }
        },
        (Some(i), None) => {
            assert(slot_matches(p[i], key));
            assert(false);
        },
        (None, Some(j)) => {
            if j < slots.len() {
                assert(slot_matches(slots[j], key));
            }
            assert(false);
        },
        (None, None) => {},
    }
}

/// A write preserves structural well-formedness whenever a fresh slot
/// number has room.
pub proof fn lemma_put_wf(store: Seq<BucketV>, bucket: u64, key: Seq<char>, data: Seq<char>)
    requires
        store_wf(store),
        BucketStore::spec_room_for(store, bucket, key),
    ensures
        store_wf(spec_put(store, bucket, key, data)),
{
    let s2 = spec_put(store, bucket, key, data);
    lemma_find_bucket(store, bucket);
    match find_bucket(store, bucket) {
        None => {
            assert(forall|k: int| 0 <= k < store.len() ==> s2[k] == store[k]);
            assert(s2[store.len() as int].slots.len() == 1);
        },
        Some(bi) => {
            let slots = store[bi].slots;
            lemma_find_match(slots, key);
            lemma_count_matches_zero(slots, key);
            match find_match(slots, key) {
                Some(si) => {
                    let slots2 = s2[bi].slots;
                    assert(forall|k: int| 0 <= k < slots.len() ==> slots2[k].num == slots[k].num);
                    assert(forall|k: int| 0 <= k < store.len() && k != bi ==> s2[k] == store[k]);
                },
                None => {
                    let slots2 = s2[bi].slots;
                    lemma_max_slot_num(slots);
                    assert(forall|k: int| 0 <= k < slots.len() ==> slots2[k] == slots[k]);
                    if slots.len() > 0 {
                        assert(count_matches(slots, key) == 0);
                        assert(max_slot_num(slots) < u64::MAX);
                        assert(slots2[slots.len() as int].num == max_slot_num(slots) + 1);
                        assert(forall|k: int| 0 <= k < slots.len() ==> #[trigger] slots2[k].num
                            != slots2[slots.len() as int].num);
                    }
                    assert(forall|k: int| 0 <= k < store.len() && k != bi ==> s2[k] == store[k]);
                },
            }
        },
    }
}

/// After a write of a trimmed key, its bucket holds the key in exactly one
/// slot, and a lookup of the key returns the just-written payload.  Writers
/// are serialized over the scan-then-write span, so this also says that any
/// number of interleaved writes of one new key leave exactly one slot
/// behind, never two.
pub proof fn lemma_put_then_lookup(store: Seq<BucketV>, bucket: u64, key: Seq<char>, data: Seq<
    char,
>)
    requires
        is_trimmed(key),
        spec_lookup(store, bucket, key) != LookupV::Violation,
    ensures
        ({
            let s2 = spec_put(store, bucket, key, data);
            spec_lookup(s2, bucket, key) == LookupV::Hit(data) && find_bucket(s2, bucket) is Some
                && count_matches(s2[find_bucket(s2, bucket).unwrap()].slots, key) == 1
        }),
{
    let s2 = spec_put(store, bucket, key, data);
    let fresh = SlotV { num: 0, key: Some(key), data };
    lemma_find_bucket(store, bucket);
    match find_bucket(store, bucket) {
        None => {
            lemma_find_bucket(s2, bucket);
            assert(forall|k: int| 0 <= k < store.len() ==> s2[k] == store[k]);
            assert(s2[store.len() as int].id == bucket);
            match find_bucket(s2, bucket) {
                Some(i) => {
                    if i < store.len() {
                        assert(false);
                    }
                },
                None => {
                    assert(false);
                },
            }
            let slots2 = s2[store.len() as int].slots;
            assert(slots2 == seq![fresh]);
            assert(slots2.last() == fresh);
            assert(slot_matches(slots2[0], key));
            assert(slots2.drop_last() =~= Seq::<SlotV>::empty());
            assert(count_matches(Seq::<SlotV>::empty(), key) == 0);
            assert(count_matches(slots2, key) == 1);
            assert(find_match(slots2, key) == Some(0int));
        },
        Some(bi) => {
            let slots = store[bi].slots;
            lemma_find_match(slots, key);
            lemma_count_matches_zero(slots, key);
            assert(s2.len() == store.len());
            assert(forall|k: int| 0 <= k < store.len() ==> s2[k].id == store[k].id);
            lemma_find_bucket_same_ids(store, s2, bucket);
            let slots2 = s2[bi].slots;
            match find_match(slots, key) {
                Some(si) => {
                    let ns = SlotV { num: slots[si].num, key: Some(key), data };
                    assert(slot_matches(slots[si], key));
                    assert(count_matches(slots, key) != 0);
                    assert(count_matches(slots, key) == 1);
                    lemma_count_matches_update(slots, key, si, ns);
                    assert(slots2 =~= slots.update(si, ns));
                    assert(count_matches(slots2, key) == 1);
                    lemma_find_match(slots2, key);
                    assert(slot_matches(slots2[si], key));
                    assert(forall|k: int| 0 <= k < slots.len() && k != si ==> slots2[k]
                        == slots[k]);
                    match find_match(slots2, key) {
                        Some(j) => {
                            if j < si {
                                assert(slot_matches(slots[j], key));
                                assert(false);
                            }
                        },
                        None => {
                            assert(false);
                        },
                    }
                },
                None => {
                    assert(count_matches(slots, key) == 0);
                    assert(slots2.drop_last() =~= slots);
                    assert(slot_matches(slots2.last(), key));
                    assert(count_matches(slots2, key) == 1);
                    lemma_find_match(slots2, key);
                    assert(forall|k: int| 0 <= k < slots.len() ==> slots2[k] == slots[k]);
                    match find_match(slots2, key) {
                        Some(j) => {
                            if j < slots.len() {
                                assert(slot_matches(slots[j], key));
                                assert(false);
                            }
                            assert(slots2[j].data == data);
                        },
                        None => {
                            assert(slot_matches(slots2[slots.len() as int], key));
                            assert(false);
                        },
                    }
                },
            }
        },
    }
}

/// A write of one trimmed key leaves the lookup of every other key, in
/// every bucket, exactly as it was.
#[verifier::rlimit(50)]
pub proof fn lemma_put_preserves_other(
    store: Seq<BucketV>,
    bucket: u64,
    key: Seq<char>,
    data: Seq<char>,
    b2: u64,
    other: Seq<char>,
)
    requires
        is_trimmed(key),
        key != other,
    ensures
        spec_lookup(spec_put(store, bucket, key, data), b2, other) == spec_lookup(
            store,
            b2,
            other,
        ),
{
    let s2 = spec_put(store, bucket, key, data);
    lemma_find_bucket(store, bucket);
    match find_bucket(store, bucket) {
        None => {
            let fresh = SlotV { num: 0, key: Some(key), data };
            lemma_find_bucket(store, b2);
            lemma_find_bucket(s2, b2);
            assert(forall|k: int| 0 <= k < store.len() ==> s2[k] == store[k]);
            match find_bucket(store, b2) {
                Some(i) => {
                    match find_bucket(s2, b2) {
                        Some(j) => {
                            if j < i {
                                assert(store[j].id == b2);
                                assert(false);
                            }
                            if i < j {
                                assert(s2[i].id == b2);
                                assert(false);
                            }
                            assert(s2[i] == store[i]);
                        },
                        None => {
                            assert(s2[i].id == b2);
                            assert(false);
                        },
                    }
                },
                None => {
                    match find_bucket(s2, b2) {
                        Some(j) => {
                            if j < store.len() {
                                assert(store[j].id == b2);
                                assert(false);
                            }
                            // the appended bucket: its only slot does not match `other`
                            assert(s2[j].slots == seq![fresh]);
                            assert(s2[j].slots.last() == fresh);
                            assert(!slot_matches(fresh, other));
                            assert(s2[j].slots.drop_last() =~= Seq::<SlotV>::empty());
                            assert(count_matches(Seq::<SlotV>::empty(), other) == 0);
                            assert(count_matches(s2[j].slots, other) == 0);
                        },
                        None => {},
                    }
                },
            }
        },
        Some(bi) => {
            let slots = store[bi].slots;
            assert(s2.len() == store.len());
            assert(forall|k: int| 0 <= k < store.len() ==> s2[k].id == store[k].id);
            lemma_find_bucket_same_ids(store, s2, b2);
            lemma_find_bucket(store, b2);
            match find_bucket(store, b2) {
                None => {},
                Some(i2) => {
                    if i2 != bi {
                        assert(s2[i2] == store[i2]);
                    } else {
                        let slots2 = s2[bi].slots;
                        lemma_find_match(slots, key);
                        match find_match(slots, key) {
                            Some(si) => {
                                let ns = SlotV { num: slots[si].num, key: Some(key), data };
                                assert(slot_matches(slots[si], key));
                                assert(!slot_matches(slots[si], other));
                                assert(!slot_matches(ns, other));
                                assert(forall|k: int| 0 <= k < slots.len() && k != si
                                    ==> slots2[k] == slots[k]);
                                assert(forall|k: int| 0 <= k < slots.len() ==> slot_matches(
                                    slots2[k],
                                    other,
                                ) == slot_matches(slots[k], other));
                                lemma_count_matches_pointwise(slots2, slots, other);
                                lemma_find_match_pointwise(slots2, slots, other);
                                lemma_find_match(slots, other);
                                lemma_count_matches_zero(slots, other);
                                match find_match(slots, other) {
                                    Some(j) => {
                                        assert(j != si);
                                        assert(slots2[j].data == slots[j].data);
                                    },
                                    None => {
                                        assert(count_matches(slots, other) == 0);
                                    },
                                }
                            },
                            None => {
                                let ns = slots2.last();
                                assert(!slot_matches(ns, other));
                                lemma_push_nonmatching(slots, ns, other);
                                assert(slots2 =~= slots.push(ns));
                                lemma_find_match(slots, other);
                                lemma_count_matches_zero(slots, other);
                                match find_match(slots, other) {
                                    Some(j) => {
                                        assert(slots2[j].data == slots[j].data);
                                    },
                                    None => {
                                        assert(count_matches(slots, other) == 0);
                                    },
                                }
                            },
                        }
                    }
                },
            }
        },
    }
}

/// Writing a key twice leaves exactly one slot for it — the second write
/// reuses the slot in place and adds none — and a lookup then returns the
/// second payload.
pub proof fn lemma_overwrite(
    store: Seq<BucketV>,
    bucket: u64,
    key: Seq<char>,
    d1: Seq<char>,
    d2: Seq<char>,
)
    requires
        is_trimmed(key),
        spec_lookup(store, bucket, key) != LookupV::Violation,
    ensures
        ({
            let s1 = spec_put(store, bucket, key, d1);
            let s2 = spec_put(s1, bucket, key, d2);
            spec_lookup(s2, bucket, key) == LookupV::Hit(d2) && find_bucket(s2, bucket) is Some
                && count_matches(s2[find_bucket(s2, bucket).unwrap()].slots, key) == 1
                && find_bucket(s1, bucket) is Some
                && s2[find_bucket(s2, bucket).unwrap()].slots.len() == s1[find_bucket(
                s1,
                bucket,
            ).unwrap()].slots.len()
        }),
{
    let s1 = spec_put(store, bucket, key, d1);
    let s2 = spec_put(s1, bucket, key, d2);
    lemma_put_then_lookup(store, bucket, key, d1);
    lemma_put_then_lookup(s1, bucket, key, d2);
    lemma_find_bucket(s1, bucket);
    let b1 = find_bucket(s1, bucket).unwrap();
    let slots1 = s1[b1].slots;
    lemma_count_matches_zero(slots1, key);
    lemma_find_match(slots1, key);
    assert(find_match(slots1, key) is Some);
    assert(s2.len() == s1.len());
    assert(forall|k: int| 0 <= k < s1.len() ==> s2[k].id == s1[k].id);
    lemma_find_bucket_same_ids(s1, s2, bucket);
}

/// Two distinct trimmed keys of one bucket are stored and retrieved
/// independently: after both are written, each lookup returns its own
/// payload.
pub proof fn lemma_collision_independence(
    store: Seq<BucketV>,
    bucket: u64,
    k1: Seq<char>,
    d1: Seq<char>,
    k2: Seq<char>,
    d2: Seq<char>,
)
    requires
        is_trimmed(k1),
        is_trimmed(k2),
        k1 != k2,
        spec_lookup(store, bucket, k1) != LookupV::Violation,
        spec_lookup(store, bucket, k2) != LookupV::Violation,
    ensures
        ({
            let s1 = spec_put(store, bucket, k1, d1);
            let s2 = spec_put(s1, bucket, k2, d2);
            spec_lookup(s2, bucket, k1) == LookupV::Hit(d1) && spec_lookup(s2, bucket, k2)
                == LookupV::Hit(d2)
        }),
{
    let s1 = spec_put(store, bucket, k1, d1);
    lemma_put_then_lookup(store, bucket, k1, d1);
    lemma_put_preserves_other(store, bucket, k1, d1, bucket, k2);
    lemma_put_then_lookup(s1, bucket, k2, d2);
    lemma_put_preserves_other(s1, bucket, k2, d2, bucket, k1);
}

/// A slot whose key record is missing or unreadable never matches any key,
/// so its presence in a bucket changes no lookup: every valid slot beside
/// it stays exactly as retrievable as before.
pub proof fn lemma_corrupt_slot_ignored(store: Seq<BucketV>, bi: int, num: u64, junk: Seq<char>)
    requires
        0 <= bi < store.len(),
    ensures
        forall|b: u64, key: Seq<char>|
            spec_lookup(
                store.update(
                    bi,
                    BucketV {
                        id: store[bi].id,
                        slots: store[bi].slots.push(SlotV { num, key: None, data: junk }),
                    },
                ),
                b,
                key,
            ) == spec_lookup(store, b, key),
{
    let corrupt = SlotV { num, key: None, data: junk };
    let s2 = store.update(
        bi,
        BucketV { id: store[bi].id, slots: store[bi].slots.push(corrupt) },
    );
    assert forall|b: u64, key: Seq<char>| spec_lookup(s2, b, key) == spec_lookup(
        store,
        b,
        key,
    ) by {
        assert(forall|k: int| 0 <= k < store.len() ==> s2[k].id == store[k].id);
        lemma_find_bucket_same_ids(store, s2, b);
        lemma_find_bucket(store, b);
        match find_bucket(store, b) {
            None => {},
            Some(i) => {
                if i != bi {
                    assert(s2[i] == store[i]);
                } else {
                    let slots = store[bi].slots;
                    assert(!slot_matches(corrupt, key));
                    lemma_push_nonmatching(slots, corrupt, key);
                    assert(forall|k: int| 0 <= k < slots.len() ==> s2[bi].slots[k] == slots[k]);
                    lemma_find_match(slots, key);
                    lemma_count_matches_zero(slots, key);
                    match find_match(slots, key) {
                        Some(j) => {
                            assert(s2[bi].slots[j].data == slots[j].data);
                        },
                        None => {
                            assert(count_matches(slots, key) == 0);
                        },
                    }
                }
            },
        }
    }
}

} // verus!
