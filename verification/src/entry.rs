//! Table entries and the value that the benchmarks store.
use vstd::prelude::*;

verus! {

/// The value that every populated bucket holds.
pub const VALUE: [u8; 8] = [120, 120, 120, 120, 120, 120, 120, 120];

/// The value of a bucket that nothing was stored in.
pub const EMPTY: [u8; 8] = [0, 0, 0, 0, 0, 0, 0, 0];

/// One bucket of the table: the key that was stored last, and its value.
#[derive(Debug, Clone, Copy)]
pub struct GlobalEntry {
    pub key: usize,
    pub value: [u8; 8],
}

impl GlobalEntry {
    /// The entry of a bucket that nothing was stored in.
    pub open spec fn empty() -> GlobalEntry {
        GlobalEntry { key: 0, value: EMPTY }
    }
}

impl Default for GlobalEntry {
    fn default() -> (entry: Self)
        ensures
            entry == GlobalEntry::empty(),
            entry.key == 0,
            forall|i: int| 0 <= i < 8 ==> entry.value@[i] == 0,
    {
        GlobalEntry { key: 0, value: EMPTY }
    }
}

/// Compares two values byte by byte.
pub fn same_value(a: &[u8; 8], b: &[u8; 8]) -> (same: bool)
    ensures
        same == (*a == *b),
{
    let mut i: usize = 0;
    while i < 8
        invariant
            i <= 8,
            forall|j: int| 0 <= j < i ==> a@[j] == b@[j],
        decreases 8 - i,
    {
        if a[i] != b[i] {
            return false;
        }
        i = i + 1;
    }
    assert(*a =~= *b);
    true
}

/// The stored value is eight times the letter x, and a bucket that nothing was stored in is all
/// zeros; so a read can tell them apart.
pub proof fn law_stored_and_empty_values()
    ensures
        forall|i: int| 0 <= i < 8 ==> #[trigger] VALUE@[i] == 120,
        forall|i: int| 0 <= i < 8 ==> #[trigger] EMPTY@[i] == 0,
        GlobalEntry::empty().key == 0,
        forall|i: int| 0 <= i < 8 ==> #[trigger] GlobalEntry::empty().value@[i] == 0,
        GlobalEntry::empty().value != VALUE,
{
    assert(VALUE@[0] == 120);
    assert(EMPTY@[0] == 0);
}

} // verus!
