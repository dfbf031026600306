//! Properties of the protocol that hold for all inputs.

use vstd::prelude::*;
use crate::canonical::{canonical, lines};
use crate::crypto::{b64url_decoding, ed25519_verifies, is_public_key};
use crate::header::HeaderView;
use crate::verify::{check_outcome, in_window, Error};

verus! {

/// A window `[start, start + window]` admits both of its ends and neither
/// second just outside it.
pub proof fn window_boundary(start: u64, window: u64)
    requires
        start + window <= u64::MAX,
    ensures
        in_window(start, start, window),
        in_window((start + window) as u64, start, window),
        start > 0 ==> !in_window((start - 1) as u64, start, window),
        start + window < u64::MAX ==> !in_window((start + window + 1) as u64, start, window),
{
}

/// A key lookup that fails ends verification with that failure, whatever the
/// signature; a lookup that gives the key accepts exactly when the key is
/// valid and the signature verifies over the rebuilt message.
pub proof fn key_rotation<E>(h: HeaderView, e: E, k: [u8; 32], values: Seq<Seq<u8>>, body: Seq<u8>)
    ensures
        check_outcome(h, Err::<[u8; 32], E>(e), values, body) == Err::<u32, Error<E>>(Error::Key(e)),
        check_outcome(h, Ok::<[u8; 32], E>(k), values, body) == Ok::<u32, Error<E>>(h.key) <==> (
        is_public_key(k@) && match b64url_decoding(h.sig) {
            Some(s) => s.len() == 64 && ed25519_verifies(
                k@,
                canonical(h.header, values, if h.omit_body { None } else { Some(body) }),
                s,
            ),
            None => false,
        }),
{
}

proof fn lemma_lines_len(v1: Seq<Seq<u8>>, v2: Seq<Seq<u8>>)
    requires
        v1.len() == v2.len(),
        forall|i: int| 0 <= i < v1.len() ==> #[trigger] v1[i].len() == v2[i].len(),
    ensures
        lines(v1).len() == lines(v2).len(),
    decreases v1.len(),
{
    if v1.len() > 0 {
        lemma_lines_len(v1.drop_last(), v2.drop_last());
        assert(v1.last().len() == v2.last().len());
    }
}

proof fn lemma_lines_injective(v1: Seq<Seq<u8>>, v2: Seq<Seq<u8>>)
    requires
        v1.len() == v2.len(),
        forall|i: int| 0 <= i < v1.len() ==> #[trigger] v1[i].len() == v2[i].len(),
        lines(v1) == lines(v2),
    ensures
        v1 == v2,
    decreases v1.len(),
{
    if v1.len() > 0 {
        let (p1, p2) = (v1.drop_last(), v2.drop_last());
        assert forall|i: int| 0 <= i < p1.len() implies #[trigger] p1[i].len() == p2[i].len() by {
            assert(v1[i].len() == v2[i].len());
        }
        lemma_lines_len(p1, p2);
        let n = lines(p1).len() as int;
        let (a, b) = (v1.last(), v2.last());
        assert(a.len() == b.len());
        let l1 = lines(v1);
        assert(l1 == lines(p1) + a + seq![10u8]);
        assert(lines(v2) == lines(p2) + b + seq![10u8]);
        assert(l1.subrange(0, n) =~= lines(p1));
        assert(lines(v2).subrange(0, n) =~= lines(p2));
        assert(l1.subrange(n, n + a.len()) =~= a);
        assert(lines(v2).subrange(n, n + a.len()) =~= b);
        lemma_lines_injective(p1, p2);
        assert(v1 =~= p1.push(a));
        assert(v2 =~= p2.push(b));
    }
}

/// Changing any signed value (method, path, a header's value, or the body
/// where it is signed) without changing its length changes the signed
/// message; a request that verified before then fails, if at all, only at
/// the signature check, never at an earlier stage.
pub proof fn tamper_sensitivity<E>(
    h: HeaderView,
    k: [u8; 32],
    v1: Seq<Seq<u8>>,
    v2: Seq<Seq<u8>>,
    b1: Seq<u8>,
    b2: Seq<u8>,
)
    requires
        v1.len() == v2.len(),
        forall|i: int| 0 <= i < v1.len() ==> #[trigger] v1[i].len() == v2[i].len(),
        b1.len() == b2.len(),
        v1 != v2 || (!h.omit_body && b1 != b2),
        check_outcome(h, Ok::<[u8; 32], E>(k), v1, b1) is Ok,
    ensures
        canonical(h.header, v1, if h.omit_body { None } else { Some(b1) }) != canonical(
            h.header,
            v2,
            if h.omit_body { None } else { Some(b2) },
        ),
        check_outcome(h, Ok::<[u8; 32], E>(k), v2, b2) is Ok || check_outcome(
            h,
            Ok::<[u8; 32], E>(k),
            v2,
            b2,
        ) == Err::<u32, Error<E>>(Error::Check),
{
    let o1: Option<Seq<u8>> = if h.omit_body { None } else { Some(b1) };
    let o2: Option<Seq<u8>> = if h.omit_body { None } else { Some(b2) };
    let m1 = canonical(h.header, v1, o1);
    let m2 = canonical(h.header, v2, o2);
    if m1 == m2 {
        lemma_lines_len(v1, v2);
        let head = vstd::utf8::encode_utf8(h.header) + seq![10u8];
        let n = head.len() as int;
        let ln = lines(v1).len() as int;
        let t1 = match o1 { Some(b) => b, None => Seq::<u8>::empty() };
        let t2 = match o2 { Some(b) => b, None => Seq::<u8>::empty() };
        assert(m1 == head + lines(v1) + t1);
        assert(m2 == head + lines(v2) + t2);
        assert(m1.subrange(n, n + ln) =~= lines(v1));
        assert(m2.subrange(n, n + ln) =~= lines(v2));
        assert(m1.subrange(n + ln, m1.len() as int) =~= t1);
        assert(m2.subrange(n + ln, m2.len() as int) =~= t2);
        lemma_lines_injective(v1, v2);
    }
}

} // verus!
