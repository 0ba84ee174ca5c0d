//! Block primitives: the 256-bit `BlockHash` and the `BlockHeader`.
use core::cmp::Ordering;
use vstd::prelude::*;
use vstd::string::StringExecFns;

verus! {

/// Lexicographic order over byte sequences of equal length: `a` comes
/// before `b` when they agree up to some position and `a` is smaller there.
pub open spec fn bytes_lt(a: Seq<u8>, b: Seq<u8>) -> bool {
    exists|i: int|
        0 <= i < a.len() && i < b.len() && a[i] < b[i] && (forall|j: int|
            0 <= j < i ==> #[trigger] a[j] == b[j])
}

/// Strict order on hashes: lexicographic over the big-endian bytes.
pub open spec fn hash_lt(a: BlockHash, b: BlockHash) -> bool {
    bytes_lt(a.0@, b.0@)
}

/// The byte at position `i` (counting from the least significant end) of `v`.
pub open spec fn u64_byte(v: u64, i: int) -> u8 {
    ((v >> ((8 * i) as u64)) & 0xff) as u8
}

/// Lower-case hexadecimal digit of a value below 16.
pub open spec fn hex_digit(n: u8) -> char {
    if n < 10 {
        (('0' as u8) + n) as char
    } else {
        (('a' as u8) + (n - 10)) as char
    }
}

/// Two hex digits per byte, most significant nibble first.
pub open spec fn hex_of(b: Seq<u8>) -> Seq<char>
    decreases b.len(),
{
    if b.len() == 0 {
        Seq::empty()
    } else {
        hex_of(b.drop_last()).push(hex_digit(b.last() / 16)).push(hex_digit(b.last() % 16))
    }
}

/// The hex digit of a value below 16, as a one-character string.
fn hex_digit_str(n: u8) -> (r: &'static str)
    requires
        n < 16,
    ensures
        r@ == seq![hex_digit(n)],
{
    if n == 0 {
        proof {
            reveal_strlit("0");
        }
        "0"
    } else if n == 1 {
        proof {
            reveal_strlit("1");
        }
        "1"
    } else if n == 2 {
        proof {
            reveal_strlit("2");
        }
        "2"
    } else if n == 3 {
        proof {
            reveal_strlit("3");
        }
        "3"
    } else if n == 4 {
        proof {
            reveal_strlit("4");
        }
        "4"
    } else if n == 5 {
        proof {
            reveal_strlit("5");
        }
        "5"
    } else if n == 6 {
        proof {
            reveal_strlit("6");
        }
        "6"
    } else if n == 7 {
        proof {
            reveal_strlit("7");
        }
        "7"
    } else if n == 8 {
        proof {
            reveal_strlit("8");
        }
        "8"
    } else if n == 9 {
        proof {
            reveal_strlit("9");
        }
        "9"
    } else if n == 10 {
        proof {
            reveal_strlit("a");
        }
        "a"
    } else if n == 11 {
        proof {
            reveal_strlit("b");
        }
        "b"
    } else if n == 12 {
        proof {
            reveal_strlit("c");
        }
        "c"
    } else if n == 13 {
        proof {
            reveal_strlit("d");
        }
        "d"
    } else if n == 14 {
        proof {
            reveal_strlit("e");
        }
        "e"
    } else {
        proof {
            reveal_strlit("f");
        }
        "f"
    }
}

/// A 256-bit block hash. Ordering is lexicographic over the bytes.
#[derive(Clone, Copy, PartialEq, Eq, Hash, PartialOrd, Ord, Debug)]
pub struct BlockHash(pub [u8; 32]);

/// Two hashes are equal exactly when their bytes are.
pub proof fn lemma_hash_eq(a: BlockHash, b: BlockHash)
    ensures
        (a.0@ == b.0@) <==> (a == b),
{
    if a.0@ == b.0@ {
        assert(a.0 =~= b.0);
    }
}

/// `bytes_lt` is asymmetric.
pub proof fn lemma_bytes_lt_asymmetric(a: Seq<u8>, b: Seq<u8>)
    requires
        bytes_lt(a, b),
    ensures
        !bytes_lt(b, a),
{
    let i = choose|i: int|
        0 <= i < a.len() && i < b.len() && a[i] < b[i] && (forall|j: int| 0 <= j < i ==> #[trigger] a[j] == b[j]);
    if bytes_lt(b, a) {
        let k = choose|k: int|
            0 <= k < b.len() && k < a.len() && b[k] < a[k] && (forall|j: int| 0 <= j < k ==> #[trigger] b[j] == a[j]);
        if i < k {
            assert(b[i] == a[i]);
        } else if k < i {
            assert(a[k] == b[k]);
        }
    }
}

/// `hash_lt` is transitive.
pub proof fn lemma_hash_lt_transitive(a: BlockHash, b: BlockHash, c: BlockHash)
    requires
        hash_lt(a, b),
        hash_lt(b, c),
    ensures
        hash_lt(a, c),
{
    let i = choose|i: int|
        0 <= i < a.0@.len() && i < b.0@.len() && a.0@[i] < b.0@[i] && (forall|j: int|
            0 <= j < i ==> #[trigger] a.0@[j] == b.0@[j]);
    let k = choose|k: int|
        0 <= k < b.0@.len() && k < c.0@.len() && b.0@[k] < c.0@[k] && (forall|j: int|
            0 <= j < k ==> #[trigger] b.0@[j] == c.0@[j]);
    if i <= k {
        assert(forall|j: int| 0 <= j < i ==> #[trigger] a.0@[j] == c.0@[j]);
        assert(a.0@[i] < c.0@[i]);
    } else {
        assert(forall|j: int| 0 <= j < k ==> #[trigger] a.0@[j] == c.0@[j]);
        assert(a.0@[k] < c.0@[k]);
    }
}

/// `hash_lt` is asymmetric.
pub proof fn lemma_hash_lt_asymmetric(a: BlockHash, b: BlockHash)
    requires
        hash_lt(a, b),
    ensures
        !hash_lt(b, a),
{
    if hash_lt(b, a) {
        lemma_hash_lt_transitive(a, b, a);
    }
}

impl BlockHash {
    /// The zero hash, used as a sentinel for "no block".
    pub fn zero() -> (r: BlockHash)
        ensures
            forall|i: int| 0 <= i < 32 ==> r.0@[i] == 0,
    {
        BlockHash([0u8; 32])
    }

    /// A hash whose last byte is `b` and all others are zero.
    pub fn from_byte(b: u8) -> (r: BlockHash)
        ensures
            r.0@[31] == b,
            forall|i: int| 0 <= i < 31 ==> r.0@[i] == 0,
    {
        let mut h = [0u8; 32];
        h[31] = b;
        BlockHash(h)
    }

    /// A hash holding `v` big-endian in its last eight bytes, zero elsewhere.
    pub fn from_u64(v: u64) -> (r: BlockHash)
        ensures
            forall|i: int| 0 <= i < 24 ==> r.0@[i] == 0,
            forall|i: int| 0 <= i < 8 ==> r.0@[31 - i] == u64_byte(v, i),
    {
        let mut h = [0u8; 32];
        let mut i: usize = 0;
        while i < 8
            invariant
                i <= 8,
                forall|j: int| 0 <= j < 24 ==> h@[j] == 0,
                forall|j: int| 0 <= j < i ==> h@[31 - j] == u64_byte(v, j),
            decreases 8 - i,
        {
            h[31 - i] = ((v >> ((8 * i) as u64)) & 0xff) as u8;
            i = i + 1;
        }
        BlockHash(h)
    }

    /// Bitwise XOR of two hashes.
    pub fn xor(&self, other: &BlockHash) -> (r: BlockHash)
        ensures
            forall|i: int| 0 <= i < 32 ==> r.0@[i] == self.0@[i] ^ other.0@[i],
    {
        let mut result = [0u8; 32];
        let mut i: usize = 0;
        while i < 32
            invariant
                i <= 32,
                forall|j: int| 0 <= j < i ==> result@[j] == self.0@[j] ^ other.0@[j],
            decreases 32 - i,
        {
            result[i] = self.0[i] ^ other.0[i];
            i = i + 1;
        }
        BlockHash(result)
    }

    /// The raw bytes.
    pub fn as_bytes(&self) -> (r: &[u8; 32])
        ensures
            *r == self.0,
    {
        &self.0
    }

    /// Lower-case hex, two digits per byte.
    pub fn to_hex(&self) -> (r: String)
        ensures
            r@ == hex_of(self.0@),
    {
        let mut s = String::new();
        let mut i: usize = 0;
        while i < 32
            invariant
                i <= 32,
                s@ == hex_of(self.0@.take(i as int)),
            decreases 32 - i,
        {
            let b = self.0[i];
            s.append(hex_digit_str(b / 16));
            s.append(hex_digit_str(b % 16));
            proof {
                assert(self.0@.take(i + 1).drop_last() =~= self.0@.take(i as int));
                assert(self.0@.take(i + 1).last() == b);
            }
            i = i + 1;
        }
        proof {
            assert(self.0@.take(32) =~= self.0@);
        }
        s
    }

    /// Equality of two hashes, byte by byte.
    pub fn same(&self, other: &BlockHash) -> (r: bool)
        ensures
            r == (*self == *other),
    {
        let mut i: usize = 0;
        while i < 32
            invariant
                i <= 32,
                forall|j: int| 0 <= j < i ==> self.0@[j] == other.0@[j],
            decreases 32 - i,
        {
            if self.0[i] != other.0[i] {
                return false;
            }
            i = i + 1;
        }
        proof {
            assert(self.0@ =~= other.0@);
            lemma_hash_eq(*self, *other);
        }
        true
    }

    /// Three-way lexicographic comparison.
    pub fn compare(&self, other: &BlockHash) -> (r: Ordering)
        ensures
            r is Less <==> hash_lt(*self, *other),
            r is Equal <==> *self == *other,
            r is Greater <==> hash_lt(*other, *self),
    {
        let mut i: usize = 0;
        while i < 32
            invariant
                i <= 32,
                forall|j: int| 0 <= j < i ==> self.0@[j] == other.0@[j],
            decreases 32 - i,
        {
            if self.0[i] < other.0[i] {
                proof {
                    assert(hash_lt(*self, *other));
                    lemma_hash_lt_asymmetric(*self, *other);
                }
                return Ordering::Less;
            }
            if self.0[i] > other.0[i] {
                proof {
                    assert(hash_lt(*other, *self));
                    lemma_hash_lt_asymmetric(*other, *self);
                }
                return Ordering::Greater;
            }
            i = i + 1;
        }
        proof {
            assert(self.0@ =~= other.0@);
            lemma_hash_eq(*self, *other);
        }
        Ordering::Equal
    }
}

} // verus!

verus! {

/// A block header: its hash, its parent links, and the fields that the
/// coloring pass computes (`blue_score`, `blue_work`, `selected_parent`).
#[derive(Clone, Debug)]
pub struct BlockHeader {
    pub hash: BlockHash,
    /// Direct parents; empty only for genesis.
    pub parents: Vec<BlockHash>,
    /// Milliseconds since the epoch; opaque to the core.
    pub timestamp: u64,
    /// Number of blue blocks in the past of this block.
    pub blue_score: u64,
    /// Work along the selected-parent chain: one unit for genesis and one
    /// for each blue block. It never exceeds the number of blocks.
    pub blue_work: u64,
    /// The parent with the highest blue score; `None` for genesis.
    pub selected_parent: Option<BlockHash>,
}

impl BlockHeader {
    /// A header whose coloring fields are still unset.
    pub fn new(hash: BlockHash, parents: Vec<BlockHash>, timestamp: u64) -> (r: BlockHeader)
        ensures
            r.hash == hash,
            r.parents@ == parents@,
            r.timestamp == timestamp,
            r.blue_score == 0,
            r.blue_work == 0,
            r.selected_parent is None,
    {
        BlockHeader { hash, parents, timestamp, blue_score: 0, blue_work: 0, selected_parent: None }
    }

    /// The genesis header: no parents, score 0, one unit of work.
    pub fn genesis(hash: BlockHash, timestamp: u64) -> (r: BlockHeader)
        ensures
            r.hash == hash,
            r.parents@.len() == 0,
            r.timestamp == timestamp,
            r.blue_score == 0,
            r.blue_work == 1,
            r.selected_parent is None,
    {
        BlockHeader {
            hash,
            parents: Vec::new(),
            timestamp,
            blue_score: 0,
            blue_work: 1,
            selected_parent: None,
        }
    }

    /// Whether this is a genesis header (it has no parents).
    pub fn is_genesis(&self) -> (r: bool)
        ensures
            r == (self.parents@.len() == 0),
    {
        self.parents.len() == 0
    }
}

} // verus!
