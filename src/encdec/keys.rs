//! Loading the key table that drives the packet transform.
use vstd::prelude::*;
use crate::encdec::cipher::KEY_TABLE_LEN;

verus! {

/// Why a key source could not become a key table.
#[derive(Debug, PartialEq, Eq, Structural)]
pub enum KeyTableError {
    /// The source did not hold exactly `KEY_TABLE_LEN` bytes; `len` is what it held.
    WrongLength { len: usize },
}

/// Takes the bytes read from a key source as the key table. A source of any
/// length other than `KEY_TABLE_LEN` is rejected, since the transform indexes
/// the table up to its last byte.
pub fn load_keys(source: &[u8]) -> (r: Result<Vec<u8>, KeyTableError>)
    ensures
        r is Ok <==> source@.len() == KEY_TABLE_LEN,
        r matches Ok(keys) ==> keys@ == source@,
        r matches Err(KeyTableError::WrongLength { len }) ==> len == source@.len(),
{
    if source.len() != KEY_TABLE_LEN {
        return Err(KeyTableError::WrongLength { len: source.len() });
    }
    let mut keys: Vec<u8> = Vec::with_capacity(KEY_TABLE_LEN);
    let mut i: usize = 0;
    while i < source.len()
        invariant
            i <= source@.len(),
            keys@ == source@.subrange(0, i as int),
        decreases source@.len() - i,
    {
        keys.push(source[i]);
        i = i + 1;
        proof {
            assert(keys@ =~= source@.subrange(0, i as int));
        }
    }
    proof {
        assert(source@.subrange(0, i as int) =~= source@);
    }
    Ok(keys)
}

} // verus!
