//! Base64 text, with optional padding.
use vstd::prelude::*;

verus! {

/// The six bits a base64 symbol stands for.
pub open spec fn symbol_value(c: u8) -> Option<u8> {
    if 65 <= c <= 90 {
        Some((c - 65) as u8)
    } else if 97 <= c <= 122 {
        Some((c - 71) as u8)
    } else if 48 <= c <= 57 {
        Some((c + 4) as u8)
    } else if c == 43 {
        Some(62u8)
    } else if c == 47 {
        Some(63u8)
    } else {
        None
    }
}

/// Whether a byte separates tokens: space, newline, carriage return or tab.
pub open spec fn is_blank(c: u8) -> bool {
    c == 32 || c == 10 || c == 13 || c == 9
}

/// The values in the group of symbols that continues at `i`, and where it ends. A group
/// is complete at four symbols, padding included. Nothing where a byte is no symbol.
pub open spec fn group_from(input: Seq<u8>, i: int, values: Seq<u8>, pads: int) -> Option<
    (Seq<u8>, int),
>
    decreases input.len() - i,
{
    if values.len() + pads >= 4 || i >= input.len() {
        Some((values, i))
    } else if input[i] == 61 {
        group_from(input, i + 1, values, pads + 1)
    } else {
        match symbol_value(input[i]) {
            None => None,
            Some(v) => group_from(input, i + 1, values.push(v), pads),
        }
    }
}

/// The bytes that a group of values encodes.
pub open spec fn group_bytes(v: Seq<u8>) -> Seq<u8> {
    if v.len() < 2 {
        seq![]
    } else if v.len() == 2 {
        seq![(v[0] * 4 + v[1] / 16) as u8]
    } else if v.len() == 3 {
        seq![(v[0] * 4 + v[1] / 16) as u8, ((v[1] % 16) * 16 + v[2] / 4) as u8]
    } else {
        seq![
            (v[0] * 4 + v[1] / 16) as u8,
            ((v[1] % 16) * 16 + v[2] / 4) as u8,
            ((v[2] % 4) * 64 + v[3]) as u8,
        ]
    }
}

pub proof fn lemma_group_advances(input: Seq<u8>, i: int, values: Seq<u8>, pads: int)
    ensures
        group_from(input, i, values, pads) matches Some(g) ==> g.1 >= i && g.0.len()
            >= values.len(),
        group_from(input, i, values, pads) matches Some(g) ==> i <= input.len() ==> g.1
            <= input.len(),
        group_from(input, i, values, pads) matches Some(g) ==> values.len() + pads < 4 && i
            < input.len() ==> g.1 > i,
    decreases input.len() - i,
{
    if !(values.len() + pads >= 4 || i >= input.len()) {
        if input[i] == 61 {
            lemma_group_advances(input, i + 1, values, pads + 1);
        } else {
            match symbol_value(input[i]) {
                None => {},
                Some(v) => lemma_group_advances(input, i + 1, values.push(v), pads),
            }
        }
    }
}

/// The bytes encoded from position `i` on. Blanks may stand between groups; a group
/// without a symbol ends the text.
pub open spec fn decoded_from(input: Seq<u8>, i: int) -> Option<Seq<u8>>
    decreases input.len() - i,
{
    proof {
        lemma_group_advances(input, i, seq![], 0);
    }
    if i >= input.len() {
        Some(seq![])
    } else if is_blank(input[i]) {
        decoded_from(input, i + 1)
    } else {
        match group_from(input, i, seq![], 0) {
            None => None,
            Some(g) => if g.0.len() == 0 {
                Some(seq![])
            } else {
                match decoded_from(input, g.1) {
                    None => None,
                    Some(rest) => Some(group_bytes(g.0) + rest),
                }
            },
        }
    }
}

fn symbol_of(c: u8) -> (r: Option<u8>)
    ensures
        r == symbol_value(c),
        r matches Some(v) ==> v < 64,
{
    if 65 <= c && c <= 90 {
        Some(c - 65)
    } else if 97 <= c && c <= 122 {
        Some(c - 71)
    } else if 48 <= c && c <= 57 {
        Some(c + 4)
    } else if c == 43 {
        Some(62)
    } else if c == 47 {
        Some(63)
    } else {
        None
    }
}

/// The group of symbols at `start`, and where it ends.
fn read_group(input: &[u8], start: usize) -> (r: Option<(Vec<u8>, usize)>)
    requires
        start <= input@.len(),
    ensures
        match r {
            Some(g) => group_from(input@, start as int, seq![], 0) == Some((g.0@, g.1 as int))
                && g.1 <= input@.len() && g.0@.len() <= 4 && forall|k: int|
                #![trigger g.0@[k]]
                0 <= k < g.0@.len() ==> g.0@[k] < 64,
            None => group_from(input@, start as int, seq![], 0) is None,
        },
{
    let mut values: Vec<u8> = Vec::new();
    let mut pads: usize = 0;
    let mut i: usize = start;
    while values.len() + pads < 4 && i < input.len()
        invariant
            start <= i <= input@.len(),
            values@.len() + pads <= 4,
            forall|k: int| #![trigger values@[k]] 0 <= k < values@.len() ==> values@[k] < 64,
            group_from(input@, start as int, seq![], 0) == group_from(
                input@,
                i as int,
                values@,
                pads as int,
            ),
        decreases input@.len() - i,
    {
        if input[i] == 61 {
            pads = pads + 1;
        } else {
            match symbol_of(input[i]) {
                None => {
                    return None;
                },
                Some(v) => {
                    values.push(v);
                },
            }
        }
        i = i + 1;
    }
    Some((values, i))
}

/// Appends the bytes that a group encodes.
fn push_group(output: &mut Vec<u8>, v: &Vec<u8>)
    requires
        v@.len() <= 4,
        forall|k: int| #![trigger v@[k]] 0 <= k < v@.len() ==> v@[k] < 64,
    ensures
        final(output)@ == old(output)@ + group_bytes(v@),
{
    if v.len() >= 2 {
        output.push(v[0] * 4 + v[1] / 16);
    }
    if v.len() >= 3 {
        output.push((v[1] % 16) * 16 + v[2] / 4);
    }
    if v.len() >= 4 {
        output.push((v[2] % 4) * 64 + v[3]);
    }
    assert(output@ =~= old(output)@ + group_bytes(v@));
}

/// Decodes base64 text, with or without padding. Nothing where a byte is no symbol.
pub fn base64_decode(input: &[u8]) -> (r: Option<Vec<u8>>)
    ensures
        match r {
            Some(v) => decoded_from(input@, 0) == Some(v@),
            None => decoded_from(input@, 0) is None,
        },
{
    let mut output: Vec<u8> = Vec::new();
    let mut i: usize = 0;
    while i < input.len()
        invariant
            i <= input@.len(),
            decoded_from(input@, 0) == match decoded_from(input@, i as int) {
                Some(rest) => Some(output@ + rest),
                None => None,
            },
        decreases input@.len() - i,
    {
        if input[i] == 32 || input[i] == 10 || input[i] == 13 || input[i] == 9 {
            i = i + 1;
        } else {
            proof {
                lemma_group_advances(input@, i as int, seq![], 0);
            }
            match read_group(input, i) {
                None => {
                    return None;
                },
                Some((values, next)) => {
                    if values.len() == 0 {
                        assert(output@ + Seq::<u8>::empty() =~= output@);
                        return Some(output);
                    }
                    let ghost before = output@;
                    push_group(&mut output, &values);
                    proof {
                        if let Some(rest) = decoded_from(input@, next as int) {
                            assert(before + (group_bytes(values@) + rest) =~= output@ + rest);
                        }
                    }
                    i = next;
                },
            }
        }
    }
    assert(output@ + Seq::<u8>::empty() =~= output@);
    Some(output)
}

} // verus!
