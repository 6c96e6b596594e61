use vstd::prelude::*;

verus! {

/// ROT13 of one character: a lowercase ASCII letter moves 13 places round the
/// alphabet; every other character stays.
pub open spec fn rot13_char(c: char) -> char {
    if 'a' <= c && c <= 'z' {
        ((((c as u32 - 'a' as u32) + 13) % 26) + 'a' as u32) as char
    } else {
        c
    }
}

/// Collects characters into a string.
///
/// Relies on `FromIterator<char> for String`: the string holds the
/// characters in order.
#[verifier::external_body]
fn string_of_chars(chars: Vec<char>) -> (r: String)
    ensures
        r@ == chars@,
{
    chars.into_iter().collect()
}

/// ROT13 applied to the lowercase ASCII letters of `text` only.
pub fn theoretical_rot13(text: &str) -> (r: String)
    ensures
        r@ == text@.map_values(|c: char| rot13_char(c)),
{
    let mut out: Vec<char> = Vec::new();
    for c in it: text.chars()
        invariant
            it.seq() == text@,
            out@ == text@.take(it.index() as int).map_values(|c: char| rot13_char(c)),
    {
        let ghost k = it.index();
        let n: char = if 'a' <= c && c <= 'z' {
            let pos: u8 = c as u8 - 97u8;
            let npos: u8 = (pos + 13) % 26;
            (npos + 97u8) as char
        } else {
            c
        };
        out.push(n);
        assert(text@.take(k + 1) == text@.take(k).push(c));
        assert(out@ =~= text@.take(k + 1).map_values(|c: char| rot13_char(c)));
    }
    assert(text@.take(text@.len() as int) == text@);
    string_of_chars(out)
}

} // verus!
