//! The byte sequence that is signed: the parameter text, one line per field
//! value, then the body unless it is left out.

use vstd::prelude::*;
use vstd::utf8::encode_utf8;

verus! {

/// Each value followed by a newline, in order.
pub open spec fn lines(values: Seq<Seq<u8>>) -> Seq<u8>
    decreases values.len(),
{
    if values.len() == 0 {
        Seq::empty()
    } else {
        lines(values.drop_last()) + values.last() + seq![10u8]
    }
}

/// The canonical message for the parameter text `text`, the field values
/// `values` and the body, `None` where it is left out.
pub open spec fn canonical(text: Seq<char>, values: Seq<Seq<u8>>, body: Option<Seq<u8>>) -> Seq<
    u8,
> {
    encode_utf8(text) + seq![10u8] + lines(values) + match body {
        Some(b) => b,
        None => Seq::empty(),
    }
}

pub open spec fn values_view(v: Seq<Vec<u8>>) -> Seq<Seq<u8>> {
    v.map_values(|x: Vec<u8>| x@)
}

/// Appends the bytes `s` to `v`.
pub fn push_bytes(v: &mut Vec<u8>, s: &[u8])
    ensures
        final(v)@ == old(v)@ + s@,
{
    let ghost v0 = v@;
    let mut i: usize = 0;
    while i < s.len()
        invariant
            i <= s@.len(),
            v@ == v0 + s@.subrange(0, i as int),
        decreases s@.len() - i,
    {
        v.push(s[i]);
        i = i + 1;
        assert(v@ =~= v0 + s@.subrange(0, i as int));
    }
    assert(s@.subrange(0, s@.len() as int) =~= s@);
}

/// Builds `canonical(text@, values, body)`.
pub fn canonical_message(text: &str, values: &Vec<Vec<u8>>, body: Option<&[u8]>) -> (r: Vec<u8>)
    ensures
        r@ == canonical(
            text@,
            values_view(values@),
            match body {
                Some(b) => Some(b@),
                None => None,
            },
        ),
{
    let mut m: Vec<u8> = Vec::new();
    push_bytes(&mut m, text.as_bytes());
    m.push(10u8);
    let ghost head = m@;
    assert(head =~= encode_utf8(text@) + seq![10u8]);
    let mut i: usize = 0;
    while i < values.len()
        invariant
            i <= values@.len(),
            head == encode_utf8(text@) + seq![10u8],
            m@ == head + lines(values_view(values@).subrange(0, i as int)),
        decreases values@.len() - i,
    {
        let ghost before = m@;
        push_bytes(&mut m, values[i].as_slice());
        m.push(10u8);
        let ghost vs = values_view(values@).subrange(0, i + 1);
        assert(vs.drop_last() =~= values_view(values@).subrange(0, i as int));
        assert(vs.last() == values@[i as int]@);
        i = i + 1;
        assert(m@ =~= head + lines(values_view(values@).subrange(0, i as int)));
    }
    assert(values_view(values@).subrange(0, values@.len() as int) =~= values_view(values@));
    let ghost before = m@;
    match body {
        Some(b) => {
            push_bytes(&mut m, b);
        },
        None => {},
    }
    assert(m@ =~= canonical(
        text@,
        values_view(values@),
        match body {
            Some(b) => Some(b@),
            None => None,
        },
    ));
    m
}

} // verus!
