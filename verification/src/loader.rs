//! The word-level program loader: a flat byte stream whose length is a
//! multiple of four becomes a sequence of big-endian 32-bit instruction
//! words, in file order — no header, no magic number, no length prefix.

use vstd::prelude::*;

verus! {

/// The load-time error: the file's length is not a multiple of four, so the
/// trailing bytes form no whole instruction word.
#[derive(Clone, Copy, Debug, PartialEq, Eq, Structural)]
pub enum LoadError {
    UnalignedLength,
}

/// The big-endian 32-bit word formed by the four bytes at positions
/// `4*i .. 4*i+4`.
pub open spec fn word_at(bytes: Seq<u8>, i: int) -> u32 {
    ((bytes[4 * i] as u32) << 24) | ((bytes[4 * i + 1] as u32) << 16) | ((bytes[4 * i + 2] as u32)
        << 8) | (bytes[4 * i + 3] as u32)
}

/// Turn a program file into instruction words: every four consecutive bytes
/// form one big-endian word, in file order. Fails exactly when the length is
/// not a multiple of four.
pub fn load(bytes: &[u8]) -> (r: Result<Vec<u32>, LoadError>)
    ensures
        r is Ok <==> bytes@.len() % 4 == 0,
        (r matches Ok(words) ==> {
            &&& words@.len() == bytes@.len() / 4
            &&& forall|i: int| 0 <= i < words@.len() ==> words@[i] == word_at(bytes@, i)
        }),
        (r is Err ==> r == Result::<Vec<u32>, LoadError>::Err(LoadError::UnalignedLength)),
{
    let n = bytes.len();
    if n % 4 != 0 {
        return Err(LoadError::UnalignedLength);
    }
    let mut words: Vec<u32> = Vec::new();
    let mut i: usize = 0;
    while i < n / 4
        invariant
            n == bytes@.len(),
            n % 4 == 0,
            i <= n / 4,
            words@.len() == i,
            forall|j: int| 0 <= j < i ==> words@[j] == word_at(bytes@, j),
        decreases n / 4 - i,
    {
        assert(4 * i + 3 < n);
        let b0 = bytes[4 * i];
        let b1 = bytes[4 * i + 1];
        let b2 = bytes[4 * i + 2];
        let b3 = bytes[4 * i + 3];
        let w = ((b0 as u32) << 24) | ((b1 as u32) << 16) | ((b2 as u32) << 8) | (b3 as u32);
        words.push(w);
        i = i + 1;
    }
    Ok(words)
}

} // verus!
