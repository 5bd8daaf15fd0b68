use vstd::prelude::*;

verus! {

/// Length of a ChaCha20Poly1305 key.
pub const KEY_SIZE: usize = 32;

/// Reads a key from its raw bytes, which must be exactly 32.
pub fn key_from_bytes(input: &[u8]) -> (r: Option<[u8; 32]>)
    ensures
        r is Some <==> input@.len() == KEY_SIZE,
        r matches Some(k) ==> k@ == input@,
{
    if input.len() != KEY_SIZE {
        return None;
    }
    let mut key = [0u8; 32];
    let mut i: usize = 0;
    while i < KEY_SIZE
        invariant
            input@.len() == KEY_SIZE,
            i <= KEY_SIZE,
            forall|j: int| 0 <= j < i ==> key@[j] == input@[j],
        decreases KEY_SIZE - i,
    {
        key[i] = input[i];
        i += 1;
    }
    assert(key@ =~= input@);
    Some(key)
}

} // verus!
