use vstd::prelude::*;
use rand::Rng;
use crate::board::{OthelloBoard, lemma_cells_len};
use crate::tile::Tile;

verus! {

broadcast use lemma_cells_len;

/// Relies on rand's `thread_rng` and `Rng::gen_range`: a value drawn from `lo..hi`,
/// which must not be empty.
#[verifier::external_body]
fn random_in(lo: i64, hi: i64) -> (r: i64)
    requires
        lo < hi,
    ensures
        lo <= r < hi,
{
    rand::thread_rng().gen_range(lo..hi)
}

/// The key made from a random draw: its magnitude.
fn key_of_draw(n: i64) -> (r: i64)
    requires
        n > i64::MIN,
    ensures
        r == if n >= 0 {
            n as int
        } else {
            -(n as int)
        },
        r >= 0,
{
    if n >= 0 {
        n
    } else {
        -n
    }
}

/// The fingerprint of the first `n` cells: the exclusive-or of the key of each
/// cell's state.
pub open spec fn fingerprint(keys: Seq<[i64; 3]>, cells: Seq<u8>, n: int) -> i64
    decreases n,
{
    if n <= 0 {
        0
    } else {
        fingerprint(keys, cells, n - 1) ^ keys[n - 1][cells[n - 1] as int]
    }
}

/// Position fingerprints from a table of random keys, one per cell and state.
pub struct ZHasher {
    table: Vec<[i64; 3]>,
}

proof fn lemma_xor_nonneg(a: i64, b: i64)
    by (bit_vector)
    requires
        a >= 0,
        b >= 0,
    ensures
        a ^ b >= 0,
{
}

impl ZHasher {
    /// The key table: entry `i` holds the keys of cell `i` for each state.
    pub closed spec fn keys(self) -> Seq<[i64; 3]> {
        self.table@
    }

    /// 64 entries of three non-negative keys.
    pub open spec fn wf(self) -> bool {
        &&& self.keys().len() == 64
        &&& forall|i: int, j: int| 0 <= i < 64 && 0 <= j < 3 ==> #[trigger] self.keys()[i][j] >= 0
    }

    /// A hasher with fresh random keys, each a non-negative 63-bit value.
    pub fn new() -> (r: ZHasher)
        ensures
            r.wf(),
    {
        let mut table: Vec<[i64; 3]> = Vec::new();
        let mut i: usize = 0;
        while i < 64
            invariant
                i <= 64,
                table@.len() == i,
                forall|k: int, j: int| 0 <= k < i && 0 <= j < 3 ==> #[trigger] table@[k][j] >= 0,
            decreases 64 - i,
        {
            let mut entry: [i64; 3] = [0, 0, 0];
            let mut j: usize = 0;
            while j < 3
                invariant
                    j <= 3,
                    forall|k: int| 0 <= k < 3 ==> #[trigger] entry[k] >= 0,
                decreases 3 - j,
            {
                let n = random_in(i64::MIN + 1, i64::MAX);
                entry[j] = key_of_draw(n);
                j = j + 1;
            }
            table.push(entry);
            i = i + 1;
        }
        ZHasher { table }
    }

    /// The fingerprint of `board`'s cells; equal cells give equal fingerprints,
    /// whatever the moves that led to them.
    pub fn hash(&self, board: &OthelloBoard) -> (r: i64)
        requires
            self.wf(),
            board.wf(),
        ensures
            r == fingerprint(self.keys(), board.cells(), 64),
            r >= 0,
    {
        let mut hash: i64 = 0;
        let mut i: usize = 0;
        while i < self.table.len()
            invariant
                self.wf(),
                board.wf(),
                i <= 64,
                hash == fingerprint(self.keys(), board.cells(), i as int),
                hash >= 0,
            decreases 64 - i,
        {
            let t = Tile::from_index(i);
            let v = board.get_tile(t);
            let key = self.table[i][v as usize];
            proof {
                lemma_xor_nonneg(hash, key);
            }
            hash = hash ^ key;
            i = i + 1;
        }
        hash
    }
}

} // verus!
