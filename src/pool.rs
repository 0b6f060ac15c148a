//! The pool of key slots and their paired object slots.
//!
//! Key slot `k` (counted from one) is paired with object slot `k - 1` of the
//! pool; the object slot holds the serialized record of the key in slot `k`.
use vstd::prelude::*;

use crate::codec::{decode, decode_spec, KeyRecord};
use crate::error::SecurityModuleError;

verus! {

/// Number of paired key and object slots.
pub const SLOT_COUNT: usize = 10;

/// Data-object id that holds the record of key slot one; the next slots follow in order.
pub const OBJECT_ID_BASE: u32 = 0x005f_c117;

/// An object slot is free when its data is not a well-formed record.
pub open spec fn is_free(s: Seq<Seq<u8>>, i: int) -> bool {
    decode_spec(s[i]) is None
}

/// The object slot at `i` holds a record named `name`.
pub open spec fn names(s: Seq<Seq<u8>>, i: int, name: Seq<char>) -> bool {
    decode_spec(s[i]) matches Some(m) && m.key_name == name
}

pub open spec fn free_from(s: Seq<Seq<u8>>, i: int) -> Option<int>
    decreases s.len() - i,
{
    if i < 0 || i >= s.len() {
        None
    } else if is_free(s, i) {
        Some(i)
    } else {
        free_from(s, i + 1)
    }
}

/// The lowest free object slot, if any.
pub open spec fn lowest_free(s: Seq<Seq<u8>>) -> Option<int> {
    free_from(s, 0)
}

pub open spec fn match_from(s: Seq<Seq<u8>>, name: Seq<char>, i: int) -> Option<int>
    decreases s.len() - i,
{
    if i < 0 || i >= s.len() {
        None
    } else if names(s, i, name) {
        Some(i)
    } else {
        match_from(s, name, i + 1)
    }
}

/// The lowest object slot whose record is named `name`, if any.
pub open spec fn lowest_match(s: Seq<Seq<u8>>, name: Seq<char>) -> Option<int> {
    match_from(s, name, 0)
}

proof fn lemma_free_from(s: Seq<Seq<u8>>, i: int)
    requires
        0 <= i <= s.len(),
    ensures
        free_from(s, i) matches Some(j) ==> i <= j < s.len() && is_free(s, j) && forall|k: int|
            i <= k < j ==> !is_free(s, k),
        free_from(s, i) is None ==> forall|k: int| i <= k < s.len() ==> !is_free(s, k),
    decreases s.len() - i,
{
    if i < s.len() {
        lemma_free_from(s, i + 1);
    }
}

proof fn lemma_match_from(s: Seq<Seq<u8>>, name: Seq<char>, i: int)
    requires
        0 <= i <= s.len(),
    ensures
        match_from(s, name, i) matches Some(j) ==> i <= j < s.len() && names(s, j, name)
            && forall|k: int| i <= k < j ==> !names(s, k, name),
        match_from(s, name, i) is None ==> forall|k: int| i <= k < s.len() ==> !names(s, k, name),
    decreases s.len() - i,
{
    if i < s.len() {
        lemma_match_from(s, name, i + 1);
    }
}

/// The lowest free slot is free, and every slot below it holds a record; where there is
/// none, every slot holds a record.
pub proof fn lemma_lowest_free(s: Seq<Seq<u8>>)
    ensures
        lowest_free(s) matches Some(j) ==> 0 <= j < s.len() && is_free(s, j) && forall|k: int|
            0 <= k < j ==> !is_free(s, k),
        lowest_free(s) is None ==> forall|k: int| 0 <= k < s.len() ==> !is_free(s, k),
{
    lemma_free_from(s, 0);
}

/// The lowest match names the key, and no slot below it does; where there is none, no slot
/// names the key.
pub proof fn lemma_lowest_match(s: Seq<Seq<u8>>, name: Seq<char>)
    ensures
        lowest_match(s, name) matches Some(j) ==> 0 <= j < s.len() && names(s, j, name)
            && forall|k: int| 0 <= k < j ==> !names(s, k, name),
        lowest_match(s, name) is None ==> forall|k: int| 0 <= k < s.len() ==> !names(s, k, name),
{
    lemma_match_from(s, name, 0);
}

/// How many object slots are free.
pub open spec fn free_count(s: Seq<Seq<u8>>) -> nat
    decreases s.len(),
{
    if s.len() == 0 {
        0
    } else {
        free_count(s.drop_last()) + if is_free(s, s.len() - 1) {
            1nat
        } else {
            0nat
        }
    }
}

/// Filling one free slot with a record lowers the count of free slots by one.
pub proof fn lemma_fill_free_slot(s: Seq<Seq<u8>>, j: int, data: Seq<u8>)
    requires
        0 <= j < s.len(),
        is_free(s, j),
        decode_spec(data) is Some,
    ensures
        free_count(s.update(j, data)) + 1 == free_count(s),
    decreases s.len(),
{
    let s2 = s.update(j, data);
    if j == s.len() - 1 {
        assert(s2.drop_last() =~= s.drop_last());
    } else {
        assert(s2.drop_last() =~= s.drop_last().update(j, data));
        lemma_fill_free_slot(s.drop_last(), j, data);
        assert(s2[s.len() - 1] == s[s.len() - 1]);
    }
}

/// With no free slot counted, every slot holds a record.
pub proof fn lemma_none_free(s: Seq<Seq<u8>>)
    requires
        free_count(s) == 0,
    ensures
        forall|k: int| 0 <= k < s.len() ==> !is_free(s, k),
    decreases s.len(),
{
    if s.len() > 0 {
        assert(!is_free(s, s.len() - 1));
        lemma_none_free(s.drop_last());
        assert forall|k: int| 0 <= k < s.len() implies !is_free(s, k) by {
            if k < s.len() - 1 {
                assert(s.drop_last()[k] == s[k]);
                assert(!is_free(s.drop_last(), k));
            }
        }
    }
}

/// In a pool of empty object slots every slot is free.
pub proof fn lemma_empty_pool_free(s: Seq<Seq<u8>>)
    requires
        forall|k: int| 0 <= k < s.len() ==> (#[trigger] s[k]).len() == 0,
    ensures
        free_count(s) == s.len(),
    decreases s.len(),
{
    if s.len() > 0 {
        assert forall|k: int| 0 <= k < s.len() - 1 implies (#[trigger] s.drop_last()[k]).len() == 0 by {
            assert(s.drop_last()[k] == s[k]);
        }
        lemma_empty_pool_free(s.drop_last());
        assert(s[s.len() - 1].len() == 0);
    }
}

/// A key found by name, with the key slot its object slot is paired with.
#[derive(Debug, Clone, PartialEq, Eq)]
pub struct StoredKey {
    pub slot_id: u32,
    pub record: KeyRecord,
}

/// The contents of the object slots, as last read from or written to the token.
pub struct SlotPool {
    objects: Vec<Vec<u8>>,
}

impl View for SlotPool {
    type V = Seq<Seq<u8>>;

    closed spec fn view(&self) -> Seq<Seq<u8>> {
        self.objects@.map_values(|v: Vec<u8>| v@)
    }
}

impl SlotPool {
    pub open spec fn wf(&self) -> bool {
        self@.len() == SLOT_COUNT
    }

    /// A pool whose object slots are all empty.
    pub fn new() -> (r: SlotPool)
        ensures
            r.wf(),
            forall|i: int| 0 <= i < SLOT_COUNT ==> (#[trigger] r@[i]).len() == 0,
            free_count(r@) == SLOT_COUNT,
    {
        let mut objects: Vec<Vec<u8>> = Vec::new();
        let mut i: usize = 0;
        while i < SLOT_COUNT
            invariant
                0 <= i <= SLOT_COUNT,
                objects@.len() == i,
                forall|j: int| 0 <= j < i ==> (#[trigger] objects@[j])@.len() == 0,
            decreases SLOT_COUNT - i,
        {
            objects.push(Vec::new());
            i = i + 1;
        }
        let r = SlotPool { objects };
        assert forall|i: int| 0 <= i < SLOT_COUNT implies (#[trigger] r@[i]).len() == 0 by {
            assert(r@[i] == r.objects@[i]@);
        }
        proof {
            lemma_empty_pool_free(r@);
        }
        r
    }

    /// A pool holding the data read from each object slot, in slot order. A slot that could
    /// not be read is passed as empty data.
    pub fn from_objects(objects: Vec<Vec<u8>>) -> (r: SlotPool)
        requires
            objects@.len() == SLOT_COUNT,
        ensures
            r.wf(),
            forall|i: int| 0 <= i < SLOT_COUNT ==> #[trigger] r@[i] == objects@[i]@,
    {
        SlotPool { objects }
    }

    /// The data of the object slot paired with key slot `slot_id`.
    pub fn object(&self, slot_id: u32) -> (r: &Vec<u8>)
        requires
            self.wf(),
            1 <= slot_id <= SLOT_COUNT,
        ensures
            r@ == self@[slot_id - 1],
    {
        &self.objects[(slot_id - 1) as usize]
    }

    /// Replaces the data of the object slot paired with key slot `slot_id`.
    pub fn set_object(&mut self, slot_id: u32, data: Vec<u8>)
        requires
            old(self).wf(),
            1 <= slot_id <= SLOT_COUNT,
        ensures
            final(self).wf(),
            final(self)@ == old(self)@.update(slot_id - 1, data@),
    {
        self.objects.set((slot_id - 1) as usize, data);
        assert(self@ =~= old(self)@.update(slot_id - 1, data@));
    }

    /// Finds the key slot whose object slot is the lowest free one.
    pub fn find_free_slot(&self) -> (r: Result<u32, SecurityModuleError>)
        requires
            self.wf(),
        ensures
            match lowest_free(self@) {
                Some(i) => r == Ok::<u32, SecurityModuleError>((i + 1) as u32),
                None => r == Err::<u32, SecurityModuleError>(SecurityModuleError::NoFreeSlot),
            },
    {
        let mut i: usize = 0;
        while i < self.objects.len()
            invariant
                self.wf(),
                0 <= i <= SLOT_COUNT,
                lowest_free(self@) == free_from(self@, i as int),
            decreases SLOT_COUNT - i,
        {
            assert(self@[i as int] == self.objects@[i as int]@);
            if decode(self.objects[i].as_slice()).is_err() {
                return Ok((i + 1) as u32);
            }
            i = i + 1;
        }
        Err(SecurityModuleError::NoFreeSlot)
    }

    /// Finds the lowest object slot whose record is named `key_id`. Slots that do not hold a
    /// well-formed record are passed over.
    pub fn find_key(&self, key_id: &str) -> (r: Result<StoredKey, SecurityModuleError>)
        requires
            self.wf(),
        ensures
            match lowest_match(self@, key_id@) {
                Some(i) => r matches Ok(k) && k.slot_id == i + 1 && decode_spec(self@[i]) == Some(
                    k.record@,
                ),
                None => r == Err::<StoredKey, SecurityModuleError>(
                    SecurityModuleError::KeyNotFound,
                ),
            },
    {
        let wanted = String::from_str(key_id);
        let mut i: usize = 0;
        while i < self.objects.len()
            invariant
                self.wf(),
                0 <= i <= SLOT_COUNT,
                wanted@ == key_id@,
                lowest_match(self@, key_id@) == match_from(self@, key_id@, i as int),
            decreases SLOT_COUNT - i,
        {
            assert(self@[i as int] == self.objects@[i as int]@);
            match decode(self.objects[i].as_slice()) {
                Ok(record) => {
                    if record.key_name == wanted {
                        return Ok(StoredKey { slot_id: (i + 1) as u32, record });
                    }
                },
                Err(_) => {},
            }
            i = i + 1;
        }
        Err(SecurityModuleError::KeyNotFound)
    }
}

} // verus!
