use vstd::prelude::*;

use crate::bloom_filter::{capped_bits, planned_hash_functions, BloomFilter};
use crate::codec::{
    bytes_encoding, encode_bytes, encode_u64, lemma_bytes_encoding_len, read_bytes_at, starts_with,
    varint,
};
use crate::lex::{compare_bytes, lemma_lex_facts, lemma_lex_transitive, lex_le, lex_lt};

verus! {

/// A key and its value, as byte strings.
pub type Record = (Seq<u8>, Seq<u8>);

/// Bytes of one record in a table's data: the key's encoding, then the value's.
pub open spec fn record_encoding(r: Record) -> Seq<u8> {
    bytes_encoding(r.0) + bytes_encoding(r.1)
}

/// A data image: the encodings of the records, one after the other.
pub open spec fn encode_records(e: Seq<Record>) -> Seq<u8>
    decreases e.len(),
{
    if e.len() == 0 {
        Seq::empty()
    } else {
        encode_records(e.drop_last()) + record_encoding(e.last())
    }
}

/// The image of the first `j + 1` records extends that of the first `j`.
pub proof fn lemma_encode_records_step(e: Seq<Record>, j: int)
    requires
        0 <= j < e.len(),
    ensures
        encode_records(e.subrange(0, j + 1)) == encode_records(e.subrange(0, j)) + record_encoding(
            e[j],
        ),
{
    assert(e.subrange(0, j + 1).drop_last() =~= e.subrange(0, j));
}

/// The image of a prefix of the records is a prefix of the image of all of them.
pub proof fn lemma_encode_records_prefix(e: Seq<Record>, j: int)
    requires
        0 <= j <= e.len(),
    ensures
        starts_with(encode_records(e), encode_records(e.subrange(0, j))),
        j < e.len() ==> encode_records(e.subrange(0, j)).len() < encode_records(e).len(),
    decreases e.len() - j,
{
    if j == e.len() {
        assert(e.subrange(0, j) =~= e);
        assert(encode_records(e).subrange(0, encode_records(e).len() as int) =~= encode_records(e));
    } else {
        lemma_encode_records_prefix(e, j + 1);
        lemma_encode_records_step(e, j);
        lemma_bytes_encoding_len(e[j].0);
        let a = encode_records(e.subrange(0, j));
        let b = encode_records(e.subrange(0, j + 1));
        let full = encode_records(e);
        assert(full.subrange(0, a.len() as int) =~= b.subrange(0, a.len() as int));
        assert(b.subrange(0, a.len() as int) =~= a);
    }
}

/// The index entries, each key followed by its offset, as bincode writes them.
pub open spec fn index_entries_image(entries: Seq<(Seq<u8>, u64)>) -> Seq<u8>
    decreases entries.len(),
{
    if entries.len() == 0 {
        Seq::empty()
    } else {
        index_entries_image(entries.drop_last()) + bytes_encoding(entries.last().0) + varint(
            entries.last().1,
        )
    }
}

/// An index image: the number of entries, then the entries, as bincode writes an ordered
/// map from byte strings to `u64`.
pub open spec fn index_image(entries: Seq<(Seq<u8>, u64)>) -> Seq<u8> {
    varint(entries.len() as u64) + index_entries_image(entries)
}

/// A Bloom filter image: its packed bits, its size in bits and its number of hash functions.
pub open spec fn bloom_image(f: BloomFilter) -> Seq<u8> {
    bytes_encoding(f.bytes()) + varint(f.bits().len() as u64) + varint(
        f.spec_hash_functions() as u64,
    )
}

/// Keys strictly ascending.
pub open spec fn sorted_records(e: Seq<Record>) -> bool {
    forall|i: int, j: int| 0 <= i < j < e.len() ==> lex_lt(#[trigger] e[i].0, #[trigger] e[j].0)
}

/// The value stored under `key`, if any.
pub open spec fn lookup(e: Seq<Record>, key: Seq<u8>) -> Option<Seq<u8>> {
    if exists|j: int| 0 <= j < e.len() && #[trigger] e[j].0 == key {
        Some(e[choose|j: int| 0 <= j < e.len() && #[trigger] e[j].0 == key].1)
    } else {
        None
    }
}

/// The records of a vector of pairs, as byte strings.
pub open spec fn records_of(v: Seq<(Vec<u8>, Vec<u8>)>) -> Seq<Record> {
    v.map_values(|p: (Vec<u8>, Vec<u8>)| (p.0@, p.1@))
}

/// Whether all bits that the Bloom filter picks for `key` are set.
pub open spec fn key_bits_set(bits: Seq<bool>, key: Seq<u8>, k: nat) -> bool {
    forall|i: int|
        0 <= i < k ==> #[trigger] bits[((crate::hashing::default_hash_bytes(key, i as usize)
            as usize) as nat % bits.len()) as int]
}

pub proof fn lemma_lookup_unique(e: Seq<Record>, j: int)
    requires
        sorted_records(e),
        0 <= j < e.len(),
    ensures
        lookup(e, e[j].0) == Some(e[j].1),
{
    let key = e[j].0;
    assert(0 <= j < e.len() && e[j].0 == key);
    let c = choose|c: int| 0 <= c < e.len() && #[trigger] e[c].0 == key;
    assert(0 <= c < e.len() && e[c].0 == key);
    crate::lex::lemma_lex_irreflexive(key);
    if c < j {
        assert(lex_lt(e[c].0, e[j].0));
    } else if c > j {
        assert(lex_lt(e[j].0, e[c].0));
    }
    assert(c == j);
    assert(lookup(e, key) == Some(e[c].1));
}

proof fn lemma_split_starts(s: Seq<u8>, a: int, b: int, p: Seq<u8>, q: Seq<u8>)
    requires
        0 <= a <= b <= s.len(),
        s.subrange(a, b) == p + q,
    ensures
        starts_with(s.skip(a), p),
        starts_with(s.skip(a + p.len()), q),
        b == a + p.len() + q.len(),
{
    assert(s.subrange(a, b).len() == b - a);
    assert((p + q).len() == b - a);
    assert(s.skip(a).len() == s.len() - a);
    assert(s.skip(a).subrange(0, p.len() as int) =~= s.subrange(a, b).subrange(0, p.len() as int));
    assert(s.skip(a).subrange(0, p.len() as int) =~= (p + q).subrange(0, p.len() as int));
    assert((p + q).subrange(0, p.len() as int) =~= p);
    assert((p + q).subrange(p.len() as int, (p.len() + q.len()) as int) =~= q);
    assert(s.skip(a + p.len()).subrange(0, q.len() as int) =~= s.subrange(a, b).subrange(
        p.len() as int,
        (p.len() + q.len()) as int,
    ));
    assert(s.skip(a + p.len()).subrange(0, q.len() as int) =~= (p + q).subrange(
        p.len() as int,
        (p.len() + q.len()) as int,
    ));
}

/// An immutable sorted table: records in blocks of a fixed count, a sparse index from the
/// first key of each block to the block's byte offset, and a Bloom filter over the keys.
pub struct SsTable {
    bloom_filter: BloomFilter,
    block_index: Vec<(Vec<u8>, u64)>,
    data: Vec<u8>,
    entries: Ghost<Seq<Record>>,
    offsets: Ghost<Seq<int>>,
    starts: Ghost<Seq<int>>,
    block_size: Ghost<nat>,
}

impl SsTable {
    /// The records of the table, in key order.
    pub closed spec fn view(&self) -> Seq<Record> {
        self.entries@
    }

    /// Byte offset in the data image at which each record starts, then the image's length.
    pub closed spec fn record_offsets(&self) -> Seq<int> {
        self.offsets@
    }

    /// Number of records to a block.
    pub closed spec fn spec_block_size(&self) -> nat {
        self.block_size@
    }

    /// The table's Bloom filter.
    pub closed spec fn spec_bloom(&self) -> BloomFilter {
        self.bloom_filter
    }

    /// Positions of the records that start a block.
    pub closed spec fn index_positions(&self) -> Seq<int> {
        self.starts@
    }

    /// The bytes of the data image.
    pub closed spec fn data_image(&self) -> Seq<u8> {
        self.data@
    }

    /// End (exclusive) of the records of block `b`.
    closed spec fn block_end(&self, b: int) -> int {
        if b + 1 < self.starts@.len() {
            self.starts@[b + 1]
        } else {
            self.entries@.len() as int
        }
    }

    pub closed spec fn wf(&self) -> bool {
        let e = self.entries@;
        let off = self.offsets@;
        let st = self.starts@;
        let n = e.len();
        &&& sorted_records(e)
        &&& self.data@ == encode_records(e)
        &&& off.len() == n + 1
        &&& forall|j: int| 0 <= j <= n ==> #[trigger] off[j] == encode_records(e.subrange(0, j)).len()
        &&& self.block_size@ > 0
        &&& forall|b: int| 0 <= b < st.len() ==> #[trigger] st[b] == b * self.block_size@
        &&& st.len() * self.block_size@ >= n
        &&& st.len() * self.block_size@ < n + self.block_size@
        &&& off[0] == 0
        &&& off[n as int] == self.data@.len()
        &&& forall|i: int, j: int| 0 <= i < j <= n ==> off[i] < off[j]
        &&& forall|j: int|
            0 <= j < n ==> #[trigger] self.data@.subrange(off[j], off[j + 1]) == record_encoding(
                e[j],
            )
        &&& self.block_index@.len() == st.len()
        &&& n > 0 ==> st.len() > 0 && st[0] == 0
        &&& n == 0 ==> st.len() == 0
        &&& forall|b: int, c: int| 0 <= b < c < st.len() ==> st[b] < st[c]
        &&& forall|b: int|
            0 <= b < st.len() ==> 0 <= #[trigger] st[b] < n && self.block_index@[b].0@ == e[st[b]].0
                && self.block_index@[b].1 == off[st[b]]
        &&& self.bloom_filter.wf()
        &&& forall|j: int|
            0 <= j < n ==> key_bits_set(
                self.bloom_filter.bits(),
                #[trigger] e[j].0,
                self.bloom_filter.spec_hash_functions(),
            )
    }

    /// The records of a well-formed table are sorted by key, and its data image is their
    /// encoding.
    pub proof fn lemma_records_and_image(&self)
        requires
            self.wf(),
        ensures
            sorted_records(self@),
            self.data_image() == encode_records(self@),
            self.record_offsets().len() == self@.len() + 1,
            forall|j: int|
                0 <= j <= self@.len() ==> #[trigger] self.record_offsets()[j] == encode_records(
                    self@.subrange(0, j),
                ).len(),
            self.spec_block_size() > 0,
            forall|b: int|
                0 <= b < self.index_positions().len() ==> #[trigger] self.index_positions()[b] == b
                    * self.spec_block_size(),
            self.index_positions().len() * self.spec_block_size() >= self@.len(),
            self.index_positions().len() * self.spec_block_size() < self@.len()
                + self.spec_block_size(),
            self.spec_bloom().wf(),
            forall|j: int|
                0 <= j < self@.len() ==> key_bits_set(
                    self.spec_bloom().bits(),
                    #[trigger] self@[j].0,
                    self.spec_bloom().spec_hash_functions(),
                ),
    {
    }

    proof fn lemma_offsets(&self, i: int, j: int)
        requires
            self.wf(),
            0 <= i < j <= self.entries@.len(),
        ensures
            self.offsets@[i] < self.offsets@[j],
            self.offsets@[j] <= self.data@.len(),
    {
        if j < self.entries@.len() {
            assert(self.offsets@[j] < self.offsets@[self.entries@.len() as int]);
        }
    }

    /// Builds a table from records sorted by key, `block_size` records to a block; every
    /// block's first key goes to the index with the block's offset in the data.
    pub fn create_from_data(data: &Vec<(Vec<u8>, Vec<u8>)>, block_size: usize) -> (r: SsTable)
        requires
            sorted_records(records_of(data@)),
            block_size > 0,
        ensures
            r.wf(),
            r@ == records_of(data@),
            r.data_image() == encode_records(records_of(data@)),
            r.spec_block_size() == block_size,
            r.spec_bloom().bits().len() == capped_bits(data@.len() as nat),
            r.spec_bloom().spec_hash_functions() == planned_hash_functions(
                data@.len() as nat,
                capped_bits(data@.len() as nat),
            ),
    {
        let ghost e = records_of(data@);
        let mut bloom_filter = BloomFilter::for_capacity(data.len());
        let mut block_index: Vec<(Vec<u8>, u64)> = Vec::new();
        let mut bytes: Vec<u8> = Vec::new();
        let ghost mut offsets: Seq<int> = seq![0];
        let ghost mut starts: Seq<int> = Seq::empty();
        let mut to_next_block: usize = 0;
        let mut i: usize = 0;
        proof {
            assert(e.subrange(0, 0) =~= Seq::<Record>::empty());
            assert(bytes@ =~= encode_records(e.subrange(0, 0)));
        }
        while i < data.len()
            invariant
                e == records_of(data@),
                sorted_records(e),
                block_size > 0,
                i <= data@.len(),
                bloom_filter.wf(),
                bloom_filter.spec_hash_functions() == planned_hash_functions(
                    data@.len() as nat,
                    capped_bits(data@.len() as nat),
                ),
                bloom_filter.bits().len() == capped_bits(data@.len() as nat),
                forall|j: int|
                    0 <= j < i ==> key_bits_set(
                        bloom_filter.bits(),
                        #[trigger] e[j].0,
                        bloom_filter.spec_hash_functions(),
                    ),
                offsets.len() == i + 1,
                offsets[0] == 0,
                offsets[i as int] == bytes@.len(),
                bytes@ == encode_records(e.subrange(0, i as int)),
                forall|j: int| 0 <= j <= i ==> #[trigger] offsets[j] == encode_records(e.subrange(0, j)).len(),
                to_next_block < block_size,
                starts.len() * block_size == i + to_next_block,
                forall|b: int| 0 <= b < starts.len() ==> #[trigger] starts[b] == b * block_size,
                forall|a: int, b: int| 0 <= a < b <= i ==> offsets[a] < offsets[b],
                forall|j: int|
                    0 <= j < i ==> #[trigger] bytes@.subrange(offsets[j], offsets[j + 1])
                        == record_encoding(e[j]),
                block_index@.len() == starts.len(),
                i > 0 ==> starts.len() > 0 && starts[0] == 0,
                i == 0 ==> starts.len() == 0,
                forall|b: int, c: int| 0 <= b < c < starts.len() ==> starts[b] < starts[c],
                forall|b: int|
                    0 <= b < starts.len() ==> 0 <= #[trigger] starts[b] < i
                        && block_index@[b].0@ == e[starts[b]].0 && block_index@[b].1
                        == offsets[starts[b]],
            decreases data@.len() - i,
        {
            let key = &data[i].0;
            let value = &data[i].1;
            let ghost bits_before = bloom_filter.bits();
            let key_copy = key.clone();
            proof {
                assert(key_copy@ =~= key@);
            }
            bloom_filter.add(key_copy);
            proof {
                assert forall|j: int| 0 <= j <= i implies key_bits_set(
                    bloom_filter.bits(),
                    #[trigger] e[j].0,
                    bloom_filter.spec_hash_functions(),
                ) by {
                    let m = bloom_filter.bits().len();
                    assert forall|h: int| 0 <= h < bloom_filter.spec_hash_functions() implies #[trigger] bloom_filter.bits()[((crate::hashing::default_hash_bytes(e[j].0, h as usize) as usize) as nat % m) as int] by {
                        let x = ((crate::hashing::default_hash_bytes(e[j].0, h as usize) as usize) as nat % m) as int;
                        if j < i {
                            assert(bits_before[x]);
                        } else {
                            assert(x == crate::bloom_filter::bit_index(&key_copy, h, m));
                        }
                    }
                }
            }
            if to_next_block == 0 {
                let start = bytes.len() as u64;
                let index_key = key.clone();
                proof {
                    assert(index_key@ =~= key@);
                }
                block_index.push((index_key, start));
                proof {
                    let len = starts.len();
                    assert((len + 1) * block_size == len * block_size + block_size)
                        by (nonlinear_arith);
                    starts = starts.push(i as int);
                }
                to_next_block = block_size;
            }
            to_next_block = to_next_block - 1;
            let mut encoded_key = match encode_bytes(key) {
                Some(b) => b,
                None => Vec::new(),
            };
            let mut encoded_value = match encode_bytes(value) {
                Some(b) => b,
                None => Vec::new(),
            };
            let ghost old_bytes = bytes@;
            proof {
                lemma_bytes_encoding_len(key@);
            }
            bytes.append(&mut encoded_key);
            bytes.append(&mut encoded_value);
            proof {
                let rec = record_encoding(e[i as int]);
                assert(bytes@ =~= old_bytes + rec);
                lemma_encode_records_step(e, i as int);
                offsets = offsets.push(bytes@.len() as int);
                assert forall|j: int| 0 <= j < i + 1 implies #[trigger] bytes@.subrange(
                    offsets[j],
                    offsets[j + 1],
                ) == record_encoding(e[j]) by {
                    if j < i {
                        assert(bytes@.subrange(offsets[j], offsets[j + 1]) =~= old_bytes.subrange(
                            offsets[j],
                            offsets[j + 1],
                        ));
                    } else {
                        assert(bytes@.subrange(offsets[j], offsets[j + 1]) =~= rec);
                    }
                }
            }
            i = i + 1;
        }
        proof {
            assert(e.subrange(0, i as int) =~= e);
        }
        SsTable {
            bloom_filter,
            block_index,
            data: bytes,
            entries: Ghost(e),
            offsets: Ghost(offsets),
            starts: Ghost(starts),
            block_size: Ghost(block_size as nat),
        }
    }

    /// Rebuilds a table from its data image, `block_size` records to a block. Exactly the
    /// images of records in strictly ascending key order are read back, whole; any other
    /// bytes give `None`.
    pub fn load(data: &Vec<u8>, block_size: usize) -> (r: Option<SsTable>)
        requires
            block_size > 0,
        ensures
            r matches Some(t) ==> t.wf() && sorted_records(t@) && data@ == encode_records(t@)
                && t.data_image() == data@,
            forall|e: Seq<Record>|
                sorted_records(e) && data@ == #[trigger] encode_records(e) ==> (r is Some
                    && r.unwrap()@ == e),
    {
        let mut parsed: Vec<(Vec<u8>, Vec<u8>)> = Vec::new();
        let mut pos: usize = 0;
        let len = data.len();
        proof {
            assert forall|e: Seq<Record>|
                sorted_records(e) && data@ == #[trigger] encode_records(e) implies (
                records_of(parsed@) == e.subrange(0, 0) && pos == encode_records(e.subrange(0, 0)).len()) by {
                assert(e.subrange(0, 0) =~= Seq::<Record>::empty());
                assert(records_of(parsed@) =~= Seq::<Record>::empty());
            }
        }
        while pos < len
            invariant
                len == data@.len(),
                pos <= len,
                sorted_records(records_of(parsed@)),
                forall|e: Seq<Record>|
                    sorted_records(e) && data@ == #[trigger] encode_records(e) ==> (
                    parsed@.len() <= e.len()
                    && records_of(parsed@) == e.subrange(0, parsed@.len() as int)
                    && pos == encode_records(e.subrange(0, parsed@.len() as int)).len()),
            decreases len - pos,
        {
            let ghost j = parsed@.len() as int;
            let ghost before = records_of(parsed@);
            proof {
                assert forall|e: Seq<Record>|
                    sorted_records(e) && data@ == #[trigger] encode_records(e) implies (j < e.len()
                    && starts_with(data@.skip(pos as int), bytes_encoding(e[j].0))
                    && starts_with(data@.skip(pos as int + bytes_encoding(e[j].0).len()), bytes_encoding(e[j].1))) by {
                    lemma_encode_records_prefix(e, j);
                    if j == e.len() {
                        assert(e.subrange(0, j) =~= e);
                    }
                    lemma_encode_records_prefix(e, j + 1);
                    lemma_encode_records_step(e, j);
                    let a = encode_records(e.subrange(0, j));
                    let b = encode_records(e.subrange(0, j + 1));
                    assert(data@.subrange(pos as int, b.len() as int) =~= record_encoding(e[j])) by {
                        assert(data@.subrange(0, b.len() as int) == b);
                        assert(b.subrange(a.len() as int, b.len() as int) =~= record_encoding(e[j]));
                    }
                    lemma_split_starts(data@, pos as int, b.len() as int, bytes_encoding(e[j].0), bytes_encoding(e[j].1));
                }
            }
            let (key, key_len) = match read_bytes_at(data, pos) {
                Some(d) => d,
                None => return None,
            };
            if key_len == 0 {
                proof {
                    assert forall|e: Seq<Record>|
                        sorted_records(e) && data@ == #[trigger] encode_records(e) implies false by {
                        lemma_bytes_encoding_len(e[j].0);
                    }
                }
                return None;
            }
            let value_pos = pos + key_len;
            let (value, value_len) = match read_bytes_at(data, value_pos) {
                Some(d) => d,
                None => return None,
            };
            if parsed.len() > 0 {
                let last = parsed.len() - 1;
                if compare_bytes(parsed[last].0.as_slice(), key.as_slice()) >= 0 {
                    proof {
                        assert forall|e: Seq<Record>|
                            sorted_records(e) && data@ == #[trigger] encode_records(e) implies false by {
                            assert(records_of(parsed@)[last as int] == e[last as int]);
                            assert(lex_lt(e[last as int].0, e[j].0));
                        }
                    }
                    return None;
                }
            }
            let ghost rec: Record = (key@, value@);
            parsed.push((key, value));
            pos = value_pos + value_len;
            proof {
                let now = records_of(parsed@);
                assert(now =~= before.push(rec));
                assert(sorted_records(now)) by {
                    assert forall|x: int, y: int| 0 <= x < y < now.len() implies lex_lt(
                        #[trigger] now[x].0,
                        #[trigger] now[y].0,
                    ) by {
                        if y == j && x < j - 1 {
                            assert(lex_lt(before[x].0, before[j - 1].0));
                            lemma_lex_transitive(before[x].0, before[j - 1].0, rec.0);
                        } else if y < j {
                            assert(lex_lt(before[x].0, before[y].0));
                        }
                    }
                }
                assert forall|e: Seq<Record>|
                    sorted_records(e) && data@ == #[trigger] encode_records(e) implies (
                    parsed@.len() <= e.len()
                    && records_of(parsed@) == e.subrange(0, parsed@.len() as int)
                    && pos == encode_records(e.subrange(0, parsed@.len() as int)).len()) by {
                    lemma_encode_records_step(e, j);
                    lemma_bytes_encoding_len(e[j].0);
                    assert(rec == e[j]);
                    assert(records_of(parsed@) =~= e.subrange(0, j + 1));
                }
            }
        }
        proof {
            assert forall|e: Seq<Record>|
                sorted_records(e) && data@ == #[trigger] encode_records(e) implies records_of(parsed@) == e by {
                let j = parsed@.len() as int;
                lemma_encode_records_prefix(e, j);
                assert(e.subrange(0, j) =~= e);
            }
        }
        let table = SsTable::create_from_data(&parsed, block_size);
        if compare_bytes(table.data.as_slice(), data.as_slice()) != 0 {
            proof {
                assert forall|e: Seq<Record>|
                    sorted_records(e) && data@ == #[trigger] encode_records(e) implies false by {
                    assert(records_of(parsed@) == e);
                }
            }
            return None;
        }
        Some(table)
    }

    /// The value stored under `key`, if the table holds it.
    pub fn get(&self, key: &Vec<u8>) -> (r: Option<Vec<u8>>)
        requires
            self.wf(),
        ensures
            r is Some <==> lookup(self@, key@) is Some,
            r is Some ==> r.unwrap()@ == lookup(self@, key@).unwrap(),
    {
        let ghost e = self.entries@;
        let ghost off = self.offsets@;
        let ghost st = self.starts@;
        if !self.bloom_filter.contains(key) {
            proof {
                if exists|j: int| 0 <= j < e.len() && #[trigger] e[j].0 == key@ {
                    let j = choose|j: int| 0 <= j < e.len() && #[trigger] e[j].0 == key@;
                    assert(key_bits_set(self.bloom_filter.bits(), e[j].0, self.bloom_filter.spec_hash_functions()));
                    let m = self.bloom_filter.bits().len();
                    assert forall|h: int| 0 <= h < self.bloom_filter.spec_hash_functions() implies #[trigger] self.bloom_filter.bits()[crate::bloom_filter::bit_index(key, h, m)] by {
                        assert(self.bloom_filter.bits()[((crate::hashing::default_hash_bytes(e[j].0, h as usize) as usize) as nat % m) as int]);
                    }
                }
            }
            return None;
        }
        // The last block whose first key is not above `key`.
        let mut found: Option<usize> = None;
        let mut b: usize = 0;
        while b < self.block_index.len()
            invariant
                self.wf(),
                e == self.entries@,
                st == self.starts@,
                b <= self.block_index@.len(),
                found matches Some(f) ==> f < b && lex_le(self.block_index@[f as int].0@, key@),
                forall|c: int|
                    (found matches Some(f) ==> f < c) && 0 <= c < b ==> !lex_le(
                        #[trigger] self.block_index@[c].0@,
                        key@,
                    ),
            decreases self.block_index@.len() - b,
        {
            let c = compare_bytes(self.block_index[b].0.as_slice(), key.as_slice());
            if c <= 0 {
                found = Some(b);
            }
            b = b + 1;
        }
        let blk = match found {
            Some(f) => f,
            None => {
                proof {
                    if exists|j: int| 0 <= j < e.len() && #[trigger] e[j].0 == key@ {
                        let j = choose|j: int| 0 <= j < e.len() && #[trigger] e[j].0 == key@;
                        assert(self.block_index@[0].0@ == e[0].0);
                        if j > 0 {
                            assert(lex_lt(e[0].0, e[j].0));
                        }
                        assert(lex_le(self.block_index@[0].0@, key@));
                    }
                }
                return None;
            },
        };
        let ghost first = st[blk as int];
        let ghost end = self.block_end(blk as int);
        proof {
            assert(0 <= st[blk as int] < e.len());
            self.lemma_offsets(st[blk as int], e.len() as int);
            if blk + 1 < st.len() {
                assert(0 <= st[blk + 1] < e.len());
                self.lemma_offsets(st[blk + 1], e.len() as int);
            }
        }
        proof {
            assert(self.block_index@[blk as int].1 == off[st[blk as int]]);
            if blk + 1 < st.len() {
                assert(self.block_index@[blk + 1].1 == off[st[blk + 1]]);
                assert(end == st[blk + 1]);
            } else {
                assert(end == e.len());
            }
        }
        let data_len = self.data.len();
        let stop: usize = if blk + 1 < self.block_index.len() {
            self.block_index[blk + 1].1 as usize
        } else {
            data_len
        };
        let mut pos: usize = self.block_index[blk].1 as usize;
        let ghost mut j: int = first;
        proof {
            if blk + 1 < st.len() {
                assert(st[blk as int] < st[blk + 1]);
            }
            assert(first < end);
            assert(end <= e.len());
            assert(stop == off[end]);
        }
        while pos < stop
            invariant
                self.wf(),
                e == self.entries@,
                off == self.offsets@,
                0 <= first <= j <= end,
                end <= e.len(),
                pos == off[j],
                stop == off[end],
                forall|x: int| first <= x < j ==> #[trigger] e[x].0 != key@,
            decreases end - j,
        {
            proof {
                if j >= end {
                    if j > end {
                        assert(off[end] < off[j]);
                    }
                }
                assert(j < end);
                self.lemma_offsets(j, j + 1);
                lemma_split_starts(self.data@, off[j], off[j + 1], bytes_encoding(e[j].0), bytes_encoding(e[j].1));
                lemma_bytes_encoding_len(e[j].0);
            }
            let (record_key, key_len) = match read_bytes_at(&self.data, pos) {
                Some(d) => d,
                None => return None,
            };
            let value_pos = pos + key_len;
            proof {
                assert(value_pos == off[j] + bytes_encoding(e[j].0).len());
                assert(starts_with(self.data@.skip(value_pos as int), bytes_encoding(e[j].1)));
            }
            let (value, value_len) = match read_bytes_at(&self.data, value_pos) {
                Some(d) => d,
                None => return None,
            };
            if compare_bytes(record_key.as_slice(), key.as_slice()) == 0 {
                proof {
                    lemma_lookup_unique(e, j);
                }
                return Some(value);
            }
            pos = value_pos + value_len;
            proof {
                j = j + 1;
            }
        }
        proof {
            if j < end {
                self.lemma_offsets(j, end);
            }
            if exists|x: int| 0 <= x < e.len() && #[trigger] e[x].0 == key@ {
                let x = choose|x: int| 0 <= x < e.len() && #[trigger] e[x].0 == key@;
                // `x` lies in some block; that block must be `blk`.
                if x < first {
                    assert(lex_lt(e[x].0, e[first].0));
                    lemma_lex_facts(e[x].0, e[first].0);
                    assert(self.block_index@[blk as int].0@ == e[first].0);
                    assert(false);
                } else if x >= end {
                    assert(blk + 1 < st.len());
                    let nb = (blk + 1) as int;
                    assert(st[nb] == end);
                    if x > end {
                        assert(lex_lt(e[end].0, e[x].0));
                    }
                    assert(lex_le(self.block_index@[nb].0@, key@));
                    assert(false);
                }
            }
        }
        None
    }

    /// The data image: every record's encoding, in key order.
    pub fn data_bytes(&self) -> (r: &Vec<u8>)
        ensures
            r@ == self.data_image(),
    {
        &self.data
    }

    /// The sparse index: the first key of each block and the block's offset in the data.
    pub fn index_entries(&self) -> (r: &Vec<(Vec<u8>, u64)>)
        requires
            self.wf(),
        ensures
            r@.len() == self.index_positions().len(),
            forall|b: int|
                0 <= b < r@.len() ==> (#[trigger] r@[b]).0@ == self@[self.index_positions()[b]].0
                    && r@[b].1 == self.record_offsets()[self.index_positions()[b]],
    {
        &self.block_index
    }

    /// The index as key and offset pairs.
    pub closed spec fn index_view(&self) -> Seq<(Seq<u8>, u64)> {
        self.block_index@.map_values(|p: (Vec<u8>, u64)| (p.0@, p.1))
    }

    /// The bytes of the index file.
    pub fn index_bytes(&self) -> (r: Vec<u8>)
        requires
            self.wf(),
        ensures
            r@ == index_image(self.index_view()),
            self.index_view().len() == self.index_positions().len(),
            forall|b: int|
                0 <= b < self.index_view().len() ==> #[trigger] self.index_view()[b] == (
                self@[self.index_positions()[b]].0,
                self.record_offsets()[self.index_positions()[b]] as u64,
            ),
    {
        let mut out = match encode_u64(self.block_index.len() as u64) {
            Some(e) => e,
            None => Vec::new(),
        };
        let ghost head = out@;
        let ghost iv = self.index_view();
        let mut b: usize = 0;
        proof {
            assert(iv.subrange(0, 0) =~= Seq::<(Seq<u8>, u64)>::empty());
            assert(out@ =~= head + index_entries_image(iv.subrange(0, 0)));
        }
        while b < self.block_index.len()
            invariant
                iv == self.index_view(),
                iv.len() == self.block_index@.len(),
                head == varint(self.block_index@.len() as u64),
                b <= self.block_index@.len(),
                out@ == head + index_entries_image(iv.subrange(0, b as int)),
            decreases self.block_index@.len() - b,
        {
            let mut k = match encode_bytes(&self.block_index[b].0) {
                Some(e) => e,
                None => Vec::new(),
            };
            let mut o = match encode_u64(self.block_index[b].1) {
                Some(e) => e,
                None => Vec::new(),
            };
            let ghost before = out@;
            out.append(&mut k);
            out.append(&mut o);
            proof {
                assert(iv.subrange(0, b + 1).drop_last() =~= iv.subrange(0, b as int));
                assert(iv.subrange(0, b + 1).last() == iv[b as int]);
                assert(out@ =~= head + index_entries_image(iv.subrange(0, b + 1)));
            }
            b = b + 1;
        }
        proof {
            assert(iv.subrange(0, b as int) =~= iv);
            assert forall|c: int| 0 <= c < iv.len() implies #[trigger] iv[c] == (
                self@[self.index_positions()[c]].0,
                self.record_offsets()[self.index_positions()[c]] as u64,
            ) by {
                assert(0 <= self.starts@[c] < self.entries@.len());
            }
        }
        out
    }

    /// The bytes of the Bloom filter file.
    pub fn bloom_bytes(&self) -> (r: Vec<u8>)
        requires
            self.wf(),
        ensures
            r@ == bloom_image(self.spec_bloom()),
    {
        let mut out = match encode_bytes(self.bloom_filter.bit_bytes()) {
            Some(e) => e,
            None => Vec::new(),
        };
        let mut size = match encode_u64(self.bloom_filter.bit_size() as u64) {
            Some(e) => e,
            None => Vec::new(),
        };
        let mut hashes = match encode_u64(self.bloom_filter.hash_functions() as u64) {
            Some(e) => e,
            None => Vec::new(),
        };
        out.append(&mut size);
        out.append(&mut hashes);
        out
    }

    /// The Bloom filter over the table's keys.
    pub fn bloom_filter(&self) -> (r: &BloomFilter)
        requires
            self.wf(),
        ensures
            *r == self.spec_bloom(),
            r.wf(),
            forall|j: int|
                0 <= j < self@.len() ==> key_bits_set(
                    r.bits(),
                    #[trigger] self@[j].0,
                    r.spec_hash_functions(),
                ),
    {
        &self.bloom_filter
    }

    /// Whether `key` is the first key of a block, and so stands in the sparse index.
    pub fn is_index_key(&self, key: &Vec<u8>) -> (r: bool)
        requires
            self.wf(),
        ensures
            r == exists|b: int|
                0 <= b < self.index_positions().len() && self@[#[trigger] self.index_positions()[b]].0
                    == key@,
    {
        let mut b: usize = 0;
        while b < self.block_index.len()
            invariant
                self.wf(),
                b <= self.block_index@.len(),
                forall|c: int| 0 <= c < b ==> self@[#[trigger] self.index_positions()[c]].0 != key@,
            decreases self.block_index@.len() - b,
        {
            if compare_bytes(self.block_index[b].0.as_slice(), key.as_slice()) == 0 {
                proof {
                    assert(self@[self.index_positions()[b as int]].0 == key@);
                }
                return true;
            }
            b = b + 1;
        }
        false
    }

    /// Every record of the table, decoded in order from the data.
    pub fn iter(&self) -> (r: Vec<(Vec<u8>, Vec<u8>)>)
        requires
            self.wf(),
        ensures
            records_of(r@) == self@,
    {
        let ghost e = self.entries@;
        let ghost off = self.offsets@;
        let mut out: Vec<(Vec<u8>, Vec<u8>)> = Vec::new();
        let mut pos: usize = 0;
        let ghost mut j: int = 0;
        while pos < self.data.len()
            invariant
                self.wf(),
                e == self.entries@,
                off == self.offsets@,
                0 <= j <= e.len(),
                pos == off[j],
                records_of(out@) == e.subrange(0, j),
            decreases e.len() - j,
        {
            proof {
                if j == e.len() {
                    assert(false);
                }
                assert(j < e.len());
                self.lemma_offsets(j, j + 1);
                lemma_split_starts(self.data@, off[j], off[j + 1], bytes_encoding(e[j].0), bytes_encoding(e[j].1));
            }
            let (k, key_len) = match read_bytes_at(&self.data, pos) {
                Some(d) => d,
                None => return out,
            };
            let value_pos = pos + key_len;
            proof {
                assert(value_pos == off[j] + bytes_encoding(e[j].0).len());
                assert(starts_with(self.data@.skip(value_pos as int), bytes_encoding(e[j].1)));
            }
            let (v, value_len) = match read_bytes_at(&self.data, value_pos) {
                Some(d) => d,
                None => return out,
            };
            let ghost old_out = out@;
            proof {
                assert(records_of(old_out).len() == old_out.len());
                assert(old_out.len() == j);
                assert(k@ == e[j].0);
                assert(v@ == e[j].1);
            }
            let ghost rec: Record = (k@, v@);
            out.push((k, v));
            pos = value_pos + value_len;
            proof {
                assert(out@ == old_out.push(out@[j]));
                assert(records_of(out@)[j] == rec);
                assert(records_of(out@).subrange(0, j) =~= records_of(old_out));
                assert(records_of(out@) =~= e.subrange(0, j + 1));
                j = j + 1;
            }
        }
        proof {
            if j < e.len() {
                self.lemma_offsets(j, e.len() as int);
            }
            assert(e.subrange(0, j) =~= e);
        }
        out
    }
}

} // verus!
