use vstd::prelude::*;

verus! {

/// The index of the first byte of `t` that `ok` refuses, if there is one.
pub open spec fn first_refused(t: Seq<u8>, ok: spec_fn(u8) -> bool) -> int {
    choose|i: int| 0 <= i < t.len() && !ok(t[i]) && forall|j: int| 0 <= j < i ==> ok(t[j])
}

/// Whether `ok` accepts every byte of `t`.
pub open spec fn all_accepted(t: Seq<u8>, ok: spec_fn(u8) -> bool) -> bool {
    forall|i: int| 0 <= i < t.len() ==> ok(t[i])
}

/// When `i` is the first refused byte, `first_refused` names it.
pub proof fn lemma_first_refused(t: Seq<u8>, ok: spec_fn(u8) -> bool, i: int)
    requires
        0 <= i < t.len(),
        !ok(t[i]),
        forall|j: int| 0 <= j < i ==> ok(t[j]),
    ensures
        first_refused(t, ok) == i,
        !all_accepted(t, ok),
{
    let k = first_refused(t, ok);
    assert(0 <= k < t.len() && !ok(t[k]) && forall|j: int| 0 <= j < k ==> ok(t[j]));
    if k < i {
        assert(ok(t[k]));
    } else if k > i {
        assert(ok(t[i]));
    }
}

/// The bytes that UTF-8 gives for characters that are all ASCII.
pub proof fn lemma_ascii_bytes(c: Seq<char>)
    requires
        vstd::utf8::is_ascii_chars(c),
    ensures
        vstd::utf8::encode_utf8(c) == Seq::new(c.len(), |i: int| c[i] as u8),
{
    vstd::utf8::is_ascii_chars_encode_utf8(c);
    assert(vstd::utf8::encode_utf8(c) =~= Seq::new(c.len(), |i: int| c[i] as u8));
}

/// Relies on `String::push`: the character is appended to the string.
#[verifier::external_body]
pub(crate) fn push_char(s: &mut String, c: char)
    ensures
        final(s)@ == old(s)@.push(c),
{
    s.push(c)
}

/// When some byte is refused, `first_refused` is the first such byte.
pub proof fn lemma_first_refused_exists(t: Seq<u8>, ok: spec_fn(u8) -> bool)
    requires
        !all_accepted(t, ok),
    ensures
        0 <= first_refused(t, ok) < t.len(),
        !ok(t[first_refused(t, ok)]),
        forall|j: int| 0 <= j < first_refused(t, ok) ==> ok(t[j]),
    decreases t.len(),
{
    let i = choose|i: int| 0 <= i < t.len() && !ok(t[i]);
    let head = t.subrange(0, i);
    if all_accepted(head, ok) {
        assert forall|j: int| 0 <= j < i implies ok(t[j]) by {
            assert(head[j] == t[j]);
        }
        lemma_first_refused(t, ok, i);
    } else {
        lemma_first_refused_exists(head, ok);
        let k = first_refused(head, ok);
        assert(head[k] == t[k]);
        assert forall|j: int| 0 <= j < k implies ok(t[j]) by {
            assert(head[j] == t[j]);
        }
        lemma_first_refused(t, ok, k);
    }
}

} // verus!
