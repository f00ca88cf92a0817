use vstd::prelude::*;

use crate::codec::{decode_u64_at, encode_u64, lemma_skip_skip, lemma_starts_concat, starts_with, varint};

verus! {

/// What a tree records about itself between runs: its configuration and its table counts.
#[derive(Debug, Clone, Copy, PartialEq, Eq, Structural)]
pub struct State {
    pub ss_table_block_size: usize,
    pub memtable_size: usize,
    pub level_0_ss_tables: usize,
    pub level_1_ss_tables: usize,
    pub level_0_size: usize,
}

/// The manifest's bytes: the five numbers as varints, in field order.
pub open spec fn state_encoding(s: State) -> Seq<u8> {
    varint(s.ss_table_block_size as u64) + (varint(s.memtable_size as u64) + (varint(
        s.level_0_ss_tables as u64,
    ) + (varint(s.level_1_ss_tables as u64) + varint(s.level_0_size as u64))))
}

fn push_varint(out: &mut Vec<u8>, v: usize)
    ensures
        final(out)@ == old(out)@ + varint(v as u64),
{
    let mut e = match encode_u64(v as u64) {
        Some(e) => e,
        None => Vec::new(),
    };
    out.append(&mut e);
}

/// The manifest's bytes for `s`.
pub fn encode_state(s: &State) -> (r: Vec<u8>)
    ensures
        r@ == state_encoding(*s),
{
    let mut out: Vec<u8> = Vec::new();
    push_varint(&mut out, s.ss_table_block_size);
    push_varint(&mut out, s.memtable_size);
    push_varint(&mut out, s.level_0_ss_tables);
    push_varint(&mut out, s.level_1_ss_tables);
    push_varint(&mut out, s.level_0_size);
    proof {
        assert(out@ =~= state_encoding(*s));
    }
    out
}

/// Reads one varint at `pos` that fits a `usize`.
fn read_varint(b: &Vec<u8>, pos: usize) -> (r: Option<(usize, usize)>)
    requires
        pos <= b@.len(),
    ensures
        forall|v: usize|
            #[trigger] starts_with(b@.skip(pos as int), varint(v as u64)) ==> (r is Some
                && r.unwrap().0 == v && r.unwrap().1 == pos + varint(v as u64).len()),
        r is Some ==> r.unwrap().1 <= b@.len(),
{
    let len = b.len();
    match decode_u64_at(b, pos) {
        Some((x, n)) => {
            assert(pos + n <= len);
            if x > usize::MAX as u64 {
                None
            } else {
                Some((x as usize, pos + n))
            }
        },
        None => None,
    }
}

proof fn lemma_state_prefixes(b: Seq<u8>, s: State)
    requires
        starts_with(b, state_encoding(s)),
    ensures
        ({
            let v1 = varint(s.ss_table_block_size as u64);
            let v2 = varint(s.memtable_size as u64);
            let v3 = varint(s.level_0_ss_tables as u64);
            let v4 = varint(s.level_1_ss_tables as u64);
            let v5 = varint(s.level_0_size as u64);
            &&& starts_with(b.skip(0), v1)
            &&& starts_with(b.skip(v1.len() as int), v2)
            &&& starts_with(b.skip((v1.len() + v2.len()) as int), v3)
            &&& starts_with(b.skip((v1.len() + v2.len() + v3.len()) as int), v4)
            &&& starts_with(b.skip((v1.len() + v2.len() + v3.len() + v4.len()) as int), v5)
        }),
{
    let v1 = varint(s.ss_table_block_size as u64);
    let v2 = varint(s.memtable_size as u64);
    let v3 = varint(s.level_0_ss_tables as u64);
    let v4 = varint(s.level_1_ss_tables as u64);
    let v5 = varint(s.level_0_size as u64);
    assert(b.skip(0) =~= b);
    lemma_starts_concat(b, v1, v2 + (v3 + (v4 + v5)));
    let s1 = b.skip(v1.len() as int);
    lemma_starts_concat(s1, v2, v3 + (v4 + v5));
    lemma_skip_skip(b, v1.len() as int, v2.len() as int);
    let s2 = b.skip((v1.len() + v2.len()) as int);
    lemma_starts_concat(s2, v3, v4 + v5);
    lemma_skip_skip(b, (v1.len() + v2.len()) as int, v3.len() as int);
    let s3 = b.skip((v1.len() + v2.len() + v3.len()) as int);
    lemma_starts_concat(s3, v4, v5);
    lemma_skip_skip(b, (v1.len() + v2.len() + v3.len()) as int, v4.len() as int);
}

/// Reads a manifest: a buffer that starts with the bytes of `s` gives `s`, and a buffer that
/// starts with the bytes of no state gives `None`.
pub fn decode_state(b: &Vec<u8>) -> (r: Option<State>)
    ensures
        forall|s: State| #[trigger] starts_with(b@, state_encoding(s)) ==> r == Some(s),
        r matches Some(s) ==> starts_with(b@, state_encoding(s)),
{
    let (block, p1) = match read_varint(b, 0) {
        Some(d) => d,
        None => {
            proof {
                assert forall|s: State| #[trigger] starts_with(b@, state_encoding(s)) implies false by {
                    lemma_state_prefixes(b@, s);
                }
            }
            return None;
        },
    };
    let (memtable, p2) = match read_varint(b, p1) {
        Some(d) => d,
        None => {
            proof {
                assert forall|s: State| #[trigger] starts_with(b@, state_encoding(s)) implies false by {
                    lemma_state_prefixes(b@, s);
                }
            }
            return None;
        },
    };
    let (l0, p3) = match read_varint(b, p2) {
        Some(d) => d,
        None => {
            proof {
                assert forall|s: State| #[trigger] starts_with(b@, state_encoding(s)) implies false by {
                    lemma_state_prefixes(b@, s);
                }
            }
            return None;
        },
    };
    let (l1, p4) = match read_varint(b, p3) {
        Some(d) => d,
        None => {
            proof {
                assert forall|s: State| #[trigger] starts_with(b@, state_encoding(s)) implies false by {
                    lemma_state_prefixes(b@, s);
                }
            }
            return None;
        },
    };
    let (l0_size, _p5) = match read_varint(b, p4) {
        Some(d) => d,
        None => {
            proof {
                assert forall|s: State| #[trigger] starts_with(b@, state_encoding(s)) implies false by {
                    lemma_state_prefixes(b@, s);
                }
            }
            return None;
        },
    };
    let r = State {
        ss_table_block_size: block,
        memtable_size: memtable,
        level_0_ss_tables: l0,
        level_1_ss_tables: l1,
        level_0_size: l0_size,
    };
    proof {
        assert forall|s: State| #[trigger] starts_with(b@, state_encoding(s)) implies r == s by {
            lemma_state_prefixes(b@, s);
        }
    }
    let written = encode_state(&r);
    if written.len() > b.len() {
        return None;
    }
    let mut i: usize = 0;
    while i < written.len()
        invariant
            written@ == state_encoding(r),
            written@.len() <= b@.len(),
            i <= written@.len(),
            forall|s: State| #[trigger] starts_with(b@, state_encoding(s)) ==> r == s,
            forall|x: int| 0 <= x < i ==> b@[x] == #[trigger] written@[x],
        decreases written@.len() - i,
    {
        if b[i] != written[i] {
            return None;
        }
        i = i + 1;
    }
    proof {
        assert(b@.subrange(0, written@.len() as int) =~= written@);
    }
    Some(r)
}

} // verus!
