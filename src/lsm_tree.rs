use vstd::prelude::*;

use crate::codec::starts_with;
use crate::manifest::{decode_state, encode_state, state_encoding, State};
use crate::memtable::{get_sorted, lemma_lookup_extend, put_sorted};
use crate::sstable::{encode_records, lookup, records_of, sorted_records, Record, SsTable};

verus! {

/// Stored form of a live value: a zero byte, then the value.
pub open spec fn data_entry(v: Seq<u8>) -> Seq<u8> {
    seq![0u8] + v
}

/// Stored form of a deletion marker.
pub open spec fn tombstone_entry() -> Seq<u8> {
    seq![1u8]
}

/// The value that a stored entry stands for: the value of a live entry, nothing for a
/// deletion marker.
pub open spec fn entry_value(b: Seq<u8>) -> Option<Seq<u8>> {
    if b.len() > 0 && b[0] == 0 {
        Some(b.skip(1))
    } else {
        None
    }
}

/// The newest entry under `k` in tables listed oldest first.
pub open spec fn resolve(tables: Seq<Seq<Record>>, k: Seq<u8>) -> Option<Seq<u8>>
    decreases tables.len(),
{
    if tables.len() == 0 {
        None
    } else {
        match lookup(tables.last(), k) {
            Some(b) => Some(b),
            None => resolve(tables.drop_last(), k),
        }
    }
}

/// The records of each table.
pub open spec fn tables_view(ts: Seq<SsTable>) -> Seq<Seq<Record>> {
    ts.map_values(|t: SsTable| t@)
}

/// Whether `m` is the merge of `tables` (oldest first): sorted by key, and each key holding
/// the entry of the newest table that has one, deletion markers included.
pub open spec fn is_merge(m: Seq<Record>, tables: Seq<Seq<Record>>) -> bool {
    sorted_records(m) && forall|k: Seq<u8>| #[trigger] lookup(m, k) == resolve(tables, k)
}

/// Why a tree cannot be made or reopened.
#[derive(Debug, PartialEq, Eq, Structural)]
pub enum LsmError {
    /// A memtable or a block of no entries.
    InvalidConfig,
    /// The manifest does not decode.
    CorruptState,
    /// The manifest's table counts differ from the tables given.
    TableCountMismatch,
    /// A table image does not decode into records sorted by key.
    CorruptTable,
}

/// Whether `image` is the data image of some records sorted by key.
pub open spec fn is_table_image(image: Seq<u8>) -> bool {
    exists|e: Seq<Record>| sorted_records(e) && image == #[trigger] encode_records(e)
}

/// The data images of `ts`, in order.
fn data_images(ts: &Vec<SsTable>) -> (r: Vec<Vec<u8>>)
    requires
        forall|i: int| 0 <= i < ts@.len() ==> (#[trigger] ts@[i]).wf(),
    ensures
        r@.len() == ts@.len(),
        forall|i: int| 0 <= i < ts@.len() ==> (#[trigger] r@[i])@ == ts@[i].data_image(),
{
    let mut r: Vec<Vec<u8>> = Vec::new();
    let mut i: usize = 0;
    while i < ts.len()
        invariant
            i <= ts@.len(),
            r@.len() == i,
            forall|x: int| 0 <= x < i ==> (#[trigger] r@[x])@ == ts@[x].data_image(),
        decreases ts@.len() - i,
    {
        let d = ts[i].data_bytes().clone();
        assert(d@ =~= ts@[i as int].data_image());
        r.push(d);
        i = i + 1;
    }
    r
}

/// Rebuilds the tables of one level from their data images, oldest first.
fn load_level(images: &Vec<Vec<u8>>, block_size: usize) -> (r: Option<Vec<SsTable>>)
    requires
        block_size > 0,
    ensures
        r is None <==> exists|i: int| 0 <= i < images@.len() && !is_table_image(#[trigger] images@[i]@),
        (forall|i: int| 0 <= i < images@.len() ==> is_table_image(#[trigger] images@[i]@)) ==> r is Some,
        r matches Some(ts) ==> ts@.len() == images@.len()
            && (forall|i: int| 0 <= i < ts@.len() ==> (#[trigger] ts@[i]).wf())
            && (forall|i: int| 0 <= i < ts@.len() ==> images@[i]@ == encode_records(#[trigger] ts@[i]@))
            && forall|i: int, e: Seq<Record>|
                0 <= i < ts@.len() && sorted_records(e) && images@[i]@ == #[trigger] encode_records(e)
                    ==> (#[trigger] ts@[i])@ == e,
{
    let mut ts: Vec<SsTable> = Vec::new();
    let mut i: usize = 0;
    while i < images.len()
        invariant
            block_size > 0,
            i <= images@.len(),
            ts@.len() == i,
            forall|x: int| 0 <= x < i ==> (#[trigger] ts@[x]).wf(),
            forall|x: int| 0 <= x < i ==> images@[x]@ == encode_records(#[trigger] ts@[x]@),
            forall|x: int| 0 <= x < i ==> is_table_image(#[trigger] images@[x]@),
            forall|x: int, e: Seq<Record>|
                0 <= x < i && sorted_records(e) && images@[x]@ == #[trigger] encode_records(e)
                    ==> (#[trigger] ts@[x])@ == e,
        decreases images@.len() - i,
    {
        match SsTable::load(&images[i], block_size) {
            Some(t) => {
                proof {
                    assert(sorted_records(t@) && images@[i as int]@ == encode_records(t@));
                }
                ts.push(t);
            },
            None => {
                proof {
                    assert(!is_table_image(images@[i as int]@));
                }
                return None;
            },
        }
        i = i + 1;
    }
    Some(ts)
}

fn data_entry_bytes(v: Vec<u8>) -> (r: Vec<u8>)
    ensures
        r@ == data_entry(v@),
{
    let mut r: Vec<u8> = vec![0u8];
    let mut v = v;
    let ghost vv = v@;
    r.append(&mut v);
    proof {
        assert(r@ =~= data_entry(vv));
    }
    r
}

fn decode_entry(b: Vec<u8>) -> (r: Option<Vec<u8>>)
    ensures
        r is Some <==> entry_value(b@) is Some,
        r is Some ==> r.unwrap()@ == entry_value(b@).unwrap(),
{
    if b.len() > 0 && b[0] == 0 {
        let mut b = b;
        let tail = b.split_off(1);
        Some(tail)
    } else {
        None
    }
}

/// A log-structured merge tree of byte-string keys and values: a bounded memtable of recent
/// writes, level-0 tables flushed from it, and level-1 tables compacted from level 0.
pub struct LsmTree {
    map: Vec<(Vec<u8>, Vec<u8>)>,
    memtable_size: usize,
    ss_table_block_size: usize,
    level_0: Vec<SsTable>,
    level_1: Vec<SsTable>,
    level_0_size: usize,
}

impl LsmTree {
    pub closed spec fn wf(&self) -> bool {
        &&& sorted_records(records_of(self.map@))
        &&& self.map@.len() <= self.memtable_size
        &&& self.memtable_size > 0
        &&& self.ss_table_block_size > 0
        &&& forall|i: int| 0 <= i < self.level_0@.len() ==> (#[trigger] self.level_0@[i]).wf()
        &&& forall|i: int| 0 <= i < self.level_1@.len() ==> (#[trigger] self.level_1@[i]).wf()
    }

    /// The newest stored entry under `k`: memtable first, then level 0 newest first, then
    /// level 1 newest first.
    pub closed spec fn latest(&self, k: Seq<u8>) -> Option<Seq<u8>> {
        match lookup(records_of(self.map@), k) {
            Some(b) => Some(b),
            None => match resolve(tables_view(self.level_0@), k) {
                Some(b) => Some(b),
                None => resolve(tables_view(self.level_1@), k),
            },
        }
    }

    /// What a lookup of `k` reads: the newest value, or nothing where `k` was never written or
    /// its newest entry is a deletion.
    pub open spec fn spec_get(&self, k: Seq<u8>) -> Option<Seq<u8>> {
        match self.latest(k) {
            Some(b) => entry_value(b),
            None => None,
        }
    }

    /// What the tree's invariant gives its callers: non-zero sizes, a memtable within its
    /// capacity and sorted by key, and one record sequence per counted table.
    pub proof fn lemma_wf(&self)
        requires
            self.wf(),
        ensures
            self.memtable_capacity() > 0,
            self.block_size() > 0,
            self.memtable_len() <= self.memtable_capacity(),
            self.memtable_len() == self.memtable_records().len(),
            sorted_records(self.memtable_records()),
            self.level_0_count() == self.level_0_records().len(),
            self.level_1_count() == self.level_1_records().len(),
    {
    }

    /// The memtable's records, sorted by key, each value a stored entry.
    pub closed spec fn memtable_records(&self) -> Seq<Record> {
        records_of(self.map@)
    }

    pub closed spec fn memtable_len(&self) -> nat {
        self.map@.len()
    }

    pub closed spec fn memtable_capacity(&self) -> nat {
        self.memtable_size as nat
    }

    pub closed spec fn level_0_count(&self) -> nat {
        self.level_0@.len()
    }

    pub closed spec fn level_1_count(&self) -> nat {
        self.level_1@.len()
    }

    pub closed spec fn level_0_capacity(&self) -> nat {
        self.level_0_size as nat
    }

    pub closed spec fn block_size(&self) -> nat {
        self.ss_table_block_size as nat
    }

    /// An empty tree; a memtable or a block of no entries is refused.
    pub fn new(memtable_size: usize, level_0_size: usize, ss_table_block_size: usize) -> (r: Result<
        LsmTree,
        LsmError,
    >)
        ensures
            r is Err <==> memtable_size == 0 || ss_table_block_size == 0,
            r is Err ==> r == Err::<LsmTree, LsmError>(LsmError::InvalidConfig),
            r matches Ok(t) ==> t.wf() && t.memtable_len() == 0 && t.level_0_count() == 0
                && t.level_1_count() == 0 && t.memtable_capacity() == memtable_size
                && t.level_0_capacity() == level_0_size && t.block_size() == ss_table_block_size
                && forall|k: Seq<u8>| #[trigger] t.spec_get(k) is None,
    {
        if memtable_size == 0 || ss_table_block_size == 0 {
            return Err(LsmError::InvalidConfig);
        }
        let t = LsmTree {
            map: Vec::new(),
            memtable_size,
            ss_table_block_size,
            level_0: Vec::new(),
            level_1: Vec::new(),
            level_0_size,
        };
        proof {
            assert(records_of(t.map@) =~= Seq::<Record>::empty());
            assert(tables_view(t.level_0@) =~= Seq::<Seq<Record>>::empty());
            assert(tables_view(t.level_1@) =~= Seq::<Seq<Record>>::empty());
        }
        Ok(t)
    }

    /// The records of the level-0 tables, oldest first.
    pub closed spec fn level_0_records(&self) -> Seq<Seq<Record>> {
        tables_view(self.level_0@)
    }

    /// The records of the level-1 tables, oldest first.
    pub closed spec fn level_1_records(&self) -> Seq<Seq<Record>> {
        tables_view(self.level_1@)
    }

    /// The configuration and table counts, as the manifest records them.
    pub fn state(&self) -> (r: State)
        ensures
            r.ss_table_block_size == self.block_size(),
            r.memtable_size == self.memtable_capacity(),
            r.level_0_ss_tables == self.level_0_count(),
            r.level_1_ss_tables == self.level_1_count(),
            r.level_0_size == self.level_0_capacity(),
    {
        State {
            ss_table_block_size: self.ss_table_block_size,
            memtable_size: self.memtable_size,
            level_0_ss_tables: self.level_0.len(),
            level_1_ss_tables: self.level_1.len(),
            level_0_size: self.level_0_size,
        }
    }

    /// The level-0 tables, oldest first.
    pub fn level_0_tables(&self) -> (r: &Vec<SsTable>)
        requires
            self.wf(),
        ensures
            tables_view(r@) == self.level_0_records(),
            forall|i: int| 0 <= i < r@.len() ==> (#[trigger] r@[i]).wf(),
    {
        &self.level_0
    }

    /// The level-1 tables, oldest first.
    pub fn level_1_tables(&self) -> (r: &Vec<SsTable>)
        requires
            self.wf(),
        ensures
            tables_view(r@) == self.level_1_records(),
            forall|i: int| 0 <= i < r@.len() ==> (#[trigger] r@[i]).wf(),
    {
        &self.level_1
    }

    /// The manifest that describes this tree.
    pub closed spec fn spec_state(&self) -> State {
        State {
            ss_table_block_size: self.ss_table_block_size,
            memtable_size: self.memtable_size,
            level_0_ss_tables: self.level_0@.len() as usize,
            level_1_ss_tables: self.level_1@.len() as usize,
            level_0_size: self.level_0_size,
        }
    }

    /// Reopens a tree from its manifest and the data images of its tables, each level oldest
    /// first; the memtable starts empty.
    pub fn load(state: &Vec<u8>, level_0: &Vec<Vec<u8>>, level_1: &Vec<Vec<u8>>) -> (r: Result<
        LsmTree,
        LsmError,
    >)
        ensures
            (r is Err && r->Err_0 == LsmError::CorruptState) <==> forall|s: State|
                !#[trigger] starts_with(state@, state_encoding(s)),
            forall|s: State| #[trigger] starts_with(state@, state_encoding(s)) ==> {
                &&& (r is Err && r->Err_0 == LsmError::InvalidConfig) <==> (s.memtable_size == 0
                    || s.ss_table_block_size == 0)
                &&& (r is Err && r->Err_0 == LsmError::TableCountMismatch) <==> (s.memtable_size > 0
                    && s.ss_table_block_size > 0 && (s.level_0_ss_tables != level_0@.len()
                    || s.level_1_ss_tables != level_1@.len()))
                &&& (r is Err && r->Err_0 == LsmError::CorruptTable) <==> (s.memtable_size > 0
                    && s.ss_table_block_size > 0 && s.level_0_ss_tables == level_0@.len()
                    && s.level_1_ss_tables == level_1@.len() && ((exists|i: int|
                    0 <= i < level_0@.len() && !is_table_image(#[trigger] level_0@[i]@)) || (exists|
                    i: int,
                | 0 <= i < level_1@.len() && !is_table_image(#[trigger] level_1@[i]@))))
                &&& r matches Ok(t) ==> t.spec_state() == s && t.memtable_capacity()
                    == s.memtable_size && t.level_0_capacity() == s.level_0_size && t.block_size()
                    == s.ss_table_block_size && t.level_0_count() == s.level_0_ss_tables
                    && t.level_1_count() == s.level_1_ss_tables
            },
            r matches Ok(t) ==> t.wf() && t.memtable_len() == 0 && t.level_0_count()
                == level_0@.len() && t.level_1_count() == level_1@.len() && (forall|i: int|
                0 <= i < level_0@.len() ==> level_0@[i]@ == encode_records(
                    #[trigger] t.level_0_records()[i],
                )) && (forall|i: int|
                0 <= i < level_1@.len() ==> level_1@[i]@ == encode_records(
                    #[trigger] t.level_1_records()[i],
                )) && (forall|i: int, e: Seq<Record>|
                0 <= i < level_0@.len() && sorted_records(e) && level_0@[i]@ == #[trigger] encode_records(e)
                    ==> #[trigger] t.level_0_records()[i] == e) && (forall|i: int, e: Seq<Record>|
                0 <= i < level_1@.len() && sorted_records(e) && level_1@[i]@ == #[trigger] encode_records(e)
                    ==> #[trigger] t.level_1_records()[i] == e),
    {
        let s = match decode_state(state) {
            Some(s) => s,
            None => return Err(LsmError::CorruptState),
        };
        if s.memtable_size == 0 || s.ss_table_block_size == 0 {
            return Err(LsmError::InvalidConfig);
        }
        if s.level_0_ss_tables != level_0.len() || s.level_1_ss_tables != level_1.len() {
            return Err(LsmError::TableCountMismatch);
        }
        let l0 = match load_level(level_0, s.ss_table_block_size) {
            Some(ts) => ts,
            None => return Err(LsmError::CorruptTable),
        };
        let l1 = match load_level(level_1, s.ss_table_block_size) {
            Some(ts) => ts,
            None => return Err(LsmError::CorruptTable),
        };
        let t = LsmTree {
            map: Vec::new(),
            memtable_size: s.memtable_size,
            ss_table_block_size: s.ss_table_block_size,
            level_0: l0,
            level_1: l1,
            level_0_size: s.level_0_size,
        };
        proof {
            assert(records_of(t.map@) =~= Seq::<Record>::empty());
            assert forall|i: int| 0 <= i < level_0@.len() implies level_0@[i]@ == encode_records(
                #[trigger] t.level_0_records()[i],
            ) by {
                assert(t.level_0_records()[i] == t.level_0@[i]@);
            }
            assert forall|i: int| 0 <= i < level_1@.len() implies level_1@[i]@ == encode_records(
                #[trigger] t.level_1_records()[i],
            ) by {
                assert(t.level_1_records()[i] == t.level_1@[i]@);
            }
            assert(t.spec_state() == s);
            assert forall|i: int, e: Seq<Record>|
                0 <= i < level_0@.len() && sorted_records(e) && level_0@[i]@ == #[trigger] encode_records(e)
                    implies #[trigger] t.level_0_records()[i] == e by {
                assert(t.level_0_records()[i] == t.level_0@[i]@);
            }
            assert forall|i: int, e: Seq<Record>|
                0 <= i < level_1@.len() && sorted_records(e) && level_1@[i]@ == #[trigger] encode_records(e)
                    implies #[trigger] t.level_1_records()[i] == e by {
                assert(t.level_1_records()[i] == t.level_1@[i]@);
            }
        }
        Ok(t)
    }

    /// Number of entries in the memtable.
    pub fn memtable_entries(&self) -> (r: usize)
        ensures
            r == self.memtable_len(),
    {
        self.map.len()
    }

    /// Number of level-0 tables.
    pub fn level_0_ss_tables(&self) -> (r: usize)
        ensures
            r == self.level_0_count(),
    {
        self.level_0.len()
    }

    /// Number of level-1 tables.
    pub fn level_1_ss_tables(&self) -> (r: usize)
        ensures
            r == self.level_1_count(),
    {
        self.level_1.len()
    }

    proof fn lemma_resolve_prefix(ts: Seq<Seq<Record>>, t: int, k: Seq<u8>)
        requires
            0 < t <= ts.len(),
        ensures
            resolve(ts.subrange(0, t), k) == match lookup(ts[t - 1], k) {
                Some(b) => Some(b),
                None => resolve(ts.subrange(0, t - 1), k),
            },
    {
        assert(ts.subrange(0, t).drop_last() =~= ts.subrange(0, t - 1));
    }

    /// The value last written under `key`, or nothing where it was never written or was
    /// deleted since.
    pub fn get(&self, key: &Vec<u8>) -> (r: Option<Vec<u8>>)
        requires
            self.wf(),
        ensures
            r is Some <==> self.spec_get(key@) is Some,
            r is Some ==> r.unwrap()@ == self.spec_get(key@).unwrap(),
    {
        if let Some(b) = get_sorted(&self.map, key) {
            return decode_entry(b);
        }
        let ghost l0 = tables_view(self.level_0@);
        let ghost l1 = tables_view(self.level_1@);
        let mut t: usize = self.level_0.len();
        proof {
            assert(l0.subrange(0, t as int) =~= l0);
        }
        while t > 0
            invariant
                self.wf(),
                l0 == tables_view(self.level_0@),
                t <= self.level_0@.len(),
                lookup(records_of(self.map@), key@) is None,
                resolve(l0, key@) == resolve(l0.subrange(0, t as int), key@),
            decreases t,
        {
            proof {
                Self::lemma_resolve_prefix(l0, t as int, key@);
                assert(l0[t as int - 1] == self.level_0@[t as int - 1]@);
            }
            if let Some(b) = self.level_0[t - 1].get(key) {
                return decode_entry(b);
            }
            t = t - 1;
        }
        let mut t: usize = self.level_1.len();
        proof {
            assert(l0.subrange(0, 0) =~= Seq::<Seq<Record>>::empty());
            assert(l1.subrange(0, t as int) =~= l1);
        }
        while t > 0
            invariant
                self.wf(),
                l1 == tables_view(self.level_1@),
                t <= self.level_1@.len(),
                lookup(records_of(self.map@), key@) is None,
                resolve(tables_view(self.level_0@), key@) is None,
                resolve(l1, key@) == resolve(l1.subrange(0, t as int), key@),
            decreases t,
        {
            proof {
                Self::lemma_resolve_prefix(l1, t as int, key@);
                assert(l1[t as int - 1] == self.level_1@[t as int - 1]@);
            }
            if let Some(b) = self.level_1[t - 1].get(key) {
                return decode_entry(b);
            }
            t = t - 1;
        }
        proof {
            assert(l1.subrange(0, 0) =~= Seq::<Seq<Record>>::empty());
        }
        None
    }

    /// Merges all level-0 tables into one new level-1 table, newer values winning, and
    /// empties level 0. What every key reads is unchanged.
    pub fn compact(&mut self)
        requires
            old(self).wf(),
        ensures
            final(self).wf(),
            final(self).level_0_count() == 0,
            final(self).level_1_count() == old(self).level_1_count() + 1,
            final(self).memtable_len() == old(self).memtable_len(),
            final(self).memtable_capacity() == old(self).memtable_capacity(),
            final(self).level_0_capacity() == old(self).level_0_capacity(),
            final(self).block_size() == old(self).block_size(),
            final(self).memtable_records() == old(self).memtable_records(),
            final(self).level_0_records() == Seq::<Seq<Record>>::empty(),
            final(self).level_1_records().len() == old(self).level_1_records().len() + 1,
            final(self).level_1_records().drop_last() == old(self).level_1_records(),
            is_merge(final(self).level_1_records().last(), old(self).level_0_records()),
            forall|k: Seq<u8>| #[trigger] final(self).latest(k) == old(self).latest(k),
            applies(*old(self), *final(self), Operation::Compact),
    {
        let ghost l0 = tables_view(self.level_0@);
        let mut acc: Vec<(Vec<u8>, Vec<u8>)> = Vec::new();
        let mut t: usize = 0;
        proof {
            assert(records_of(acc@) =~= Seq::<Record>::empty());
        }
        while t < self.level_0.len()
            invariant
                self == old(self),
                self.wf(),
                l0 == tables_view(self.level_0@),
                t <= self.level_0@.len(),
                sorted_records(records_of(acc@)),
                forall|k: Seq<u8>|
                    #[trigger] lookup(records_of(acc@), k) == resolve(l0.subrange(0, t as int), k),
            decreases self.level_0@.len() - t,
        {
            let recs = self.level_0[t].iter();
            let ghost rv = records_of(recs@);
            proof {
                assert(l0[t as int] == self.level_0@[t as int]@);
                self.level_0@[t as int].lemma_records_and_image();
            }
            let mut r: usize = 0;
            while r < recs.len()
                invariant
                    self == old(self),
                    self.wf(),
                    l0 == tables_view(self.level_0@),
                    t < self.level_0@.len(),
                    rv == records_of(recs@),
                    rv == l0[t as int],
                    sorted_records(rv),
                    r <= recs@.len(),
                    sorted_records(records_of(acc@)),
                    forall|k: Seq<u8>|
                        #[trigger] lookup(records_of(acc@), k) == match lookup(
                            rv.subrange(0, r as int),
                            k,
                        ) {
                            Some(b) => Some(b),
                            None => resolve(l0.subrange(0, t as int), k),
                        },
                decreases recs@.len() - r,
            {
                let k = recs[r].0.clone();
                let v = recs[r].1.clone();
                proof {
                    assert(k@ =~= rv[r as int].0);
                    assert(v@ =~= rv[r as int].1);
                }
                let ghost before = records_of(acc@);
                put_sorted(&mut acc, k, v);
                proof {
                    assert forall|x: Seq<u8>| #[trigger] lookup(records_of(acc@), x) == match lookup(
                        rv.subrange(0, r + 1),
                        x,
                    ) {
                        Some(b) => Some(b),
                        None => resolve(l0.subrange(0, t as int), x),
                    } by {
                        lemma_lookup_extend(rv, r as int, x);
                        assert(lookup(records_of(acc@), x) == if x == rv[r as int].0 {
                            Some(rv[r as int].1)
                        } else {
                            lookup(before, x)
                        });
                    }
                }
                r = r + 1;
            }
            proof {
                assert(rv.subrange(0, r as int) =~= rv);
                assert forall|x: Seq<u8>| #[trigger] lookup(records_of(acc@), x) == resolve(
                    l0.subrange(0, t + 1),
                    x,
                ) by {
                    Self::lemma_resolve_prefix(l0, t + 1, x);
                }
            }
            t = t + 1;
        }
        proof {
            assert(l0.subrange(0, t as int) =~= l0);
        }
        let table = SsTable::create_from_data(&acc, self.ss_table_block_size);
        let ghost old_l1 = tables_view(self.level_1@);
        self.level_1.push(table);
        self.level_0 = Vec::new();
        proof {
            let l1 = tables_view(self.level_1@);
            assert(l1.drop_last() =~= old_l1);
            assert(tables_view(self.level_0@) =~= Seq::<Seq<Record>>::empty());
            assert forall|i: int| 0 <= i < self.level_1@.len() implies (#[trigger] self.level_1@[i]).wf() by {
                if i < old(self).level_1@.len() {
                    assert(self.level_1@[i] == old(self).level_1@[i]);
                }
            }
            assert(l1.last() == records_of(acc@));
            assert forall|k: Seq<u8>| #[trigger] self.latest(k) == old(self).latest(k) by {
                assert(l1.last() == records_of(acc@));
            }
        }
    }

    /// Moves the memtable into a new level-0 table, then compacts where level 0 is full.
    /// What every key reads is unchanged.
    pub fn flush(&mut self)
        requires
            old(self).wf(),
        ensures
            final(self).wf(),
            final(self).memtable_len() == 0,
            final(self).memtable_capacity() == old(self).memtable_capacity(),
            final(self).level_0_capacity() == old(self).level_0_capacity(),
            final(self).block_size() == old(self).block_size(),
            final(self).memtable_records() == Seq::<Record>::empty(),
            flushed_levels(*old(self), *final(self)),
            forall|k: Seq<u8>| #[trigger] final(self).latest(k) == old(self).latest(k),
            applies(*old(self), *final(self), Operation::Flush),
    {
        let mut map: Vec<(Vec<u8>, Vec<u8>)> = Vec::new();
        std::mem::swap(&mut self.map, &mut map);
        let table = SsTable::create_from_data(&map, self.ss_table_block_size);
        let ghost old_l0 = tables_view(self.level_0@);
        self.level_0.push(table);
        proof {
            let l0 = tables_view(self.level_0@);
            assert(l0.drop_last() =~= old_l0);
            assert(records_of(self.map@) =~= Seq::<Record>::empty());
            assert forall|i: int| 0 <= i < self.level_0@.len() implies (#[trigger] self.level_0@[i]).wf() by {
                if i < old(self).level_0@.len() {
                    assert(self.level_0@[i] == old(self).level_0@[i]);
                }
            }
            assert forall|k: Seq<u8>| #[trigger] self.latest(k) == old(self).latest(k) by {
                assert(l0.last() == records_of(map@));
            }
            assert(l0 =~= old_l0.push(records_of(map@)));
            assert(records_of(map@) == old(self).memtable_records());
        }
        if self.level_0.len() == self.level_0_size {
            self.compact();
        }
    }

    /// Closes and reopens the tree as a restart does: flushes the memtable, then rebuilds the
    /// tree from its manifest and the data images of its tables. Every key reads the same
    /// before and after.
    pub fn reopen(&mut self) -> (r: LsmTree)
        requires
            old(self).wf(),
        ensures
            r.wf(),
            r.memtable_len() == 0,
            same_config(*old(self), r),
            r.level_0_records() == final(self).level_0_records(),
            r.level_1_records() == final(self).level_1_records(),
            forall|k: Seq<u8>| #[trigger] r.spec_get(k) == old(self).spec_get(k),
    {
        self.flush();
        let st = self.state();
        let state = encode_state(&st);
        let tabs0 = self.level_0_tables();
        let tabs1 = self.level_1_tables();
        let ghost ts0 = tabs0@;
        let ghost ts1 = tabs1@;
        let l0 = data_images(tabs0);
        let l1 = data_images(tabs1);
        proof {
            assert(state@.subrange(0, state@.len() as int) =~= state@);
            assert(starts_with(state@, state_encoding(st)));
            assert forall|i: int| 0 <= i < l0@.len() implies is_table_image(#[trigger] l0@[i]@) by {
                ts0[i].lemma_records_and_image();
            }
            assert forall|i: int| 0 <= i < l1@.len() implies is_table_image(#[trigger] l1@[i]@) by {
                ts1[i].lemma_records_and_image();
            }
        }
        let loaded = LsmTree::load(&state, &l0, &l1);
        let u = loaded.unwrap();
        proof {
            assert forall|i: int| 0 <= i < l0@.len() implies u.level_0_records()[i]
                == self.level_0_records()[i] by {
                ts0[i].lemma_records_and_image();
                assert(tables_view(ts0)[i] == ts0[i]@);
            }
            assert forall|i: int| 0 <= i < l1@.len() implies u.level_1_records()[i]
                == self.level_1_records()[i] by {
                ts1[i].lemma_records_and_image();
                assert(tables_view(ts1)[i] == ts1[i]@);
            }
            assert(u.level_0_records() =~= self.level_0_records());
            assert(u.level_1_records() =~= self.level_1_records());
            lemma_reopen_reads_the_same(*self, u);
        }
        u
    }

    /// Stores `value` under `key`, flushing first where the memtable is full.
    pub fn insert(&mut self, key: Vec<u8>, value: Vec<u8>)
        requires
            old(self).wf(),
        ensures
            final(self).wf(),
            final(self).memtable_len() <= final(self).memtable_capacity(),
            final(self).memtable_capacity() == old(self).memtable_capacity(),
            stored(*old(self), *final(self), key@, data_entry(value@)),
            applies(*old(self), *final(self), Operation::Insert(key@, value@)),
            final(self).spec_get(key@) == Some(value@),
            forall|k: Seq<u8>| k != key@ ==> #[trigger] final(self).spec_get(k) == old(self).spec_get(k),
    {
        if self.map.len() == self.memtable_size {
            self.flush();
        }
        let ghost mid = *self;
        let ghost kv = key@;
        let ghost vv = value@;
        let entry = data_entry_bytes(value);
        put_sorted(&mut self.map, key, entry);
        proof {
            if old(self).memtable_len() == old(self).memtable_capacity() {
                assert(records_of(mid.map@) =~= Seq::<Record>::empty());
            }
            assert(self.level_0 == mid.level_0);
            assert(self.level_1 == mid.level_1);
            assert(data_entry(vv).skip(1) =~= vv);
            assert(self.latest(kv) == Some(data_entry(vv)));
            assert forall|k: Seq<u8>| k != kv implies #[trigger] self.latest(k) == mid.latest(k) by {}
        }
    }

    /// Deletes `key` and returns the value it had; where it had none, nothing changes.
    pub fn delete(&mut self, key: Vec<u8>) -> (r: Option<Vec<u8>>)
        requires
            old(self).wf(),
        ensures
            final(self).wf(),
            r is Some <==> old(self).spec_get(key@) is Some,
            r is Some ==> r.unwrap()@ == old(self).spec_get(key@).unwrap(),
            r is None ==> *final(self) == *old(self),
            final(self).memtable_len() <= final(self).memtable_capacity(),
            final(self).memtable_capacity() == old(self).memtable_capacity(),
            r is Some ==> stored(*old(self), *final(self), key@, tombstone_entry()),
            applies(*old(self), *final(self), Operation::Delete(key@)),
            final(self).spec_get(key@) is None,
            forall|k: Seq<u8>| k != key@ ==> #[trigger] final(self).spec_get(k) == old(self).spec_get(k),
    {
        let value = self.get(&key);
        if value.is_none() {
            return None;
        }
        if self.map.len() == self.memtable_size {
            self.flush();
        }
        let ghost mid = *self;
        let ghost kv = key@;
        let tombstone: Vec<u8> = vec![1u8];
        proof {
            assert(tombstone@ =~= tombstone_entry());
        }
        put_sorted(&mut self.map, key, tombstone);
        proof {
            if old(self).memtable_len() == old(self).memtable_capacity() {
                assert(records_of(mid.map@) =~= Seq::<Record>::empty());
            }
            assert(self.level_0 == mid.level_0);
            assert(self.level_1 == mid.level_1);
            assert(self.latest(kv) == Some(tombstone_entry()));
            assert forall|k: Seq<u8>| k != kv implies #[trigger] self.latest(k) == mid.latest(k) by {}
        }
        value
    }
}

/// The configuration of `a` and `b` is the same.
pub open spec fn same_config(a: LsmTree, b: LsmTree) -> bool {
    &&& b.memtable_capacity() == a.memtable_capacity()
    &&& b.level_0_capacity() == a.level_0_capacity()
    &&& b.block_size() == a.block_size()
}

/// The levels of `new` are those of `old` after its memtable became a new level-0 table, and
/// after level 0 was compacted where that filled it.
pub open spec fn flushed_levels(old: LsmTree, new: LsmTree) -> bool {
    if old.level_0_count() + 1 == old.level_0_capacity() {
        &&& new.level_0_count() == 0
        &&& new.level_0_records() == Seq::<Seq<Record>>::empty()
        &&& new.level_1_count() == old.level_1_count() + 1
        &&& new.level_1_records().len() == old.level_1_records().len() + 1
        &&& new.level_1_records().drop_last() == old.level_1_records()
        &&& is_merge(new.level_1_records().last(), old.level_0_records().push(old.memtable_records()))
    } else {
        &&& new.level_0_count() == old.level_0_count() + 1
        &&& new.level_1_count() == old.level_1_count()
        &&& new.level_0_records() == old.level_0_records().push(old.memtable_records())
        &&& new.level_1_records() == old.level_1_records()
    }
}

/// `new` is `old` with `entry` stored under `key`, after a flush where the memtable was full.
pub open spec fn stored(old: LsmTree, new: LsmTree, key: Seq<u8>, entry: Seq<u8>) -> bool {
    &&& same_config(old, new)
    &&& old.memtable_len() == old.memtable_capacity() ==> {
        &&& flushed_levels(old, new)
        &&& new.memtable_len() == 1
        &&& lookup(new.memtable_records(), key) == Some(entry)
    }
    &&& old.memtable_len() < old.memtable_capacity() ==> {
        &&& new.level_0_count() == old.level_0_count()
        &&& new.level_1_count() == old.level_1_count()
        &&& new.level_0_records() == old.level_0_records()
        &&& new.level_1_records() == old.level_1_records()
        &&& new.memtable_len() == old.memtable_len() + if lookup(old.memtable_records(), key) is Some {
            0int
        } else {
            1int
        }
        &&& forall|k: Seq<u8>|
            #[trigger] lookup(new.memtable_records(), k) == if k == key {
                Some(entry)
            } else {
                lookup(old.memtable_records(), k)
            }
    }
}

/// One call that changes a tree, as the laws below see it.
pub enum Operation {
    Insert(Seq<u8>, Seq<u8>),
    Delete(Seq<u8>),
    Flush,
    Compact,
}

/// What the contract of the call `op` promises of the tree before it, `old`, and after it,
/// `new`, for what each key reads.
pub open spec fn applies(old: LsmTree, new: LsmTree, op: Operation) -> bool {
    match op {
        Operation::Insert(key, value) => new.spec_get(key) == Some(value) && forall|k: Seq<u8>|
            k != key ==> #[trigger] new.spec_get(k) == old.spec_get(k),
        Operation::Delete(key) => new.spec_get(key) is None && forall|k: Seq<u8>|
            k != key ==> #[trigger] new.spec_get(k) == old.spec_get(k),
        Operation::Flush | Operation::Compact => forall|k: Seq<u8>|
            #[trigger] new.spec_get(k) == old.spec_get(k),
    }
}

/// The value last written under `k` by `ops`, or nothing where the last of them to touch `k`
/// deleted it, or none touched it.
pub open spec fn last_written(ops: Seq<Operation>, k: Seq<u8>) -> Option<Seq<u8>>
    decreases ops.len(),
{
    if ops.len() == 0 {
        None
    } else {
        match ops.last() {
            Operation::Insert(key, value) => if key == k {
                Some(value)
            } else {
                last_written(ops.drop_last(), k)
            },
            Operation::Delete(key) => if key == k {
                None
            } else {
                last_written(ops.drop_last(), k)
            },
            _ => last_written(ops.drop_last(), k),
        }
    }
}

/// Last write wins: after any sequence of inserts, deletes, flushes and compactions on a new
/// tree, a lookup of `k` gives the value most recently inserted under `k`, or nothing where
/// the last operation on `k` was a delete or `k` was never written. `trees[i + 1]` is the tree
/// after `ops[i]`.
pub proof fn lemma_last_write_wins(trees: Seq<LsmTree>, ops: Seq<Operation>, k: Seq<u8>)
    requires
        trees.len() == ops.len() + 1,
        forall|x: Seq<u8>| #[trigger] trees[0].spec_get(x) is None,
        forall|i: int| 0 <= i < ops.len() ==> applies(trees[i], trees[i + 1], #[trigger] ops[i]),
    ensures
        trees.last().spec_get(k) == last_written(ops, k),
    decreases ops.len(),
{
    if ops.len() > 0 {
        let n = ops.len() - 1;
        lemma_last_write_wins(trees.drop_last(), ops.drop_last(), k);
        assert(applies(trees[n], trees[n + 1], ops[n]));
        assert(trees.drop_last().last() == trees[n]);
        assert(ops.last() == ops[n]);
    }
}

/// A tree whose memtable is empty reads, for every key, what any other tree with an empty
/// memtable and the same tables on each level reads: reopening a flushed tree from its
/// manifest and table images loses nothing.
pub proof fn lemma_reopen_reads_the_same(t: LsmTree, u: LsmTree)
    requires
        t.wf(),
        u.wf(),
        t.memtable_len() == 0,
        u.memtable_len() == 0,
        u.level_0_records() == t.level_0_records(),
        u.level_1_records() == t.level_1_records(),
    ensures
        forall|k: Seq<u8>| #[trigger] u.spec_get(k) == t.spec_get(k),
{
    assert(records_of(t.map@) =~= Seq::<Record>::empty());
    assert(records_of(u.map@) =~= Seq::<Record>::empty());
}

} // verus!
