use vstd::prelude::*;

verus! {

/// Relies on std's String::push: appends the given char to the end of the
/// string.
pub assume_specification[ String::push ](s: &mut String, ch: char)
    ensures
        final(s)@ == old(s)@.push(ch),
;

/// Convert a fixed byte array of grid letters into a fixed char array.
pub fn convert_to_char(data: &[u8; 25]) -> (chars: [char; 25])
    ensures
        forall|i: int| 0 <= i < 25 ==> chars@[i] == data@[i] as char,
{
    let mut chars: [char; 25] = ['A'; 25];
    let mut i: usize = 0;
    while i < 25
        invariant
            i <= 25,
            forall|k: int| 0 <= k < i ==> chars@[k] == data@[k] as char,
        decreases 25 - i,
    {
        chars[i] = data[i] as char;
        i += 1;
    }
    chars
}

} // verus!
