//! Small verified helpers on byte strings. Keys, symbols and payloads are
//! byte strings throughout the library; these are the comparisons and copies
//! everything else builds on.

use vstd::prelude::*;

verus! {

/// The views of a sequence of owned byte strings.
pub open spec fn byte_views(keys: Seq<Vec<u8>>) -> Seq<Seq<u8>> {
    keys.map_values(|k: Vec<u8>| k@)
}

/// Byte-for-byte equality of two byte strings.
pub fn bytes_eq(a: &[u8], b: &[u8]) -> (r: bool)
    ensures
        r <==> a@ == b@,
{
    if a.len() != b.len() {
        assert(a@ != b@) by {
            assert(a@.len() != b@.len());
        }
        return false;
    }
    let mut i: usize = 0;
    while i < a.len()
        invariant
            i <= a@.len(),
            a@.len() == b@.len(),
            forall|j: int| 0 <= j < i ==> a@[j] == b@[j],
        decreases a@.len() - i,
    {
        if a[i] != b[i] {
            return false;
        }
        i += 1;
    }
    proof {
        assert(a@ =~= b@);
    }
    true
}

/// A fresh owned copy of a byte string.
pub fn copy_bytes(src: &[u8]) -> (r: Vec<u8>)
    ensures
        r@ == src@,
{
    let mut r: Vec<u8> = Vec::new();
    let mut i: usize = 0;
    while i < src.len()
        invariant
            i <= src@.len(),
            r@ == src@.take(i as int),
        decreases src@.len() - i,
    {
        r.push(src[i]);
        proof {
            assert(r@ =~= src@.take(i + 1));
        }
        i += 1;
    }
    proof {
        assert(src@.take(src@.len() as int) =~= src@);
    }
    r
}

/// Append a copy of `src`.
pub fn append_bytes(out: &mut Vec<u8>, src: &[u8])
    ensures
        final(out)@ == old(out)@ + src@,
{
    let mut i: usize = 0;
    while i < src.len()
        invariant
            i <= src@.len(),
            out@ == old(out)@ + src@.take(i as int),
        decreases src@.len() - i,
    {
        out.push(src[i]);
        proof {
            assert(old(out)@ + src@.take(i + 1) =~= (old(out)@ + src@.take(i as int)).push(
                src@[i as int],
            ));
        }
        i += 1;
    }
    proof {
        assert(old(out)@ + src@.take(src@.len() as int) =~= old(out)@ + src@);
    }
}

/// Index of the first `sep` in `s`, or `s.len()` if there is none.
pub open spec fn first_at(s: Seq<u8>, sep: u8) -> nat
    decreases s.len(),
{
    if s.len() == 0 {
        0
    } else if s[0] == sep {
        0
    } else {
        1 + first_at(s.drop_first(), sep)
    }
}

/// `s` split on `sep`: the fragments between separators, in order, always
/// one more fragment than there are separators.
pub open spec fn split_bytes(s: Seq<u8>, sep: u8) -> Seq<Seq<u8>>
    decreases s.len(),
{
    let i = first_at(s, sep);
    if i >= s.len() {
        seq![s]
    } else {
        seq![s.take(i as int)] + split_bytes(s.skip(i as int + 1), sep)
    }
}

/// `first_at` answers the position of the first separator.
pub(crate) proof fn lemma_first_at(s: Seq<u8>, sep: u8, k: int)
    requires
        0 <= k <= s.len(),
        forall|j: int| 0 <= j < k ==> s[j] != sep,
        k < s.len() ==> s[k] == sep,
    ensures
        first_at(s, sep) == k,
    decreases s.len(),
{
    if s.len() == 0 {
    } else if s[0] == sep {
        assert(k == 0);
    } else {
        assert(k > 0);
        assert forall|j: int| 0 <= j < k - 1 implies s.drop_first()[j] != sep by {
            assert(s.drop_first()[j] == s[j + 1]);
        }
        lemma_first_at(s.drop_first(), sep, k - 1);
    }
}

/// Split a byte string on a separator.
pub fn split_exec(src: &[u8], sep: u8) -> (parts: Vec<Vec<u8>>)
    ensures
        byte_views(parts@) == split_bytes(src@, sep),
{
    let mut parts: Vec<Vec<u8>> = Vec::new();
    let mut start: usize = 0;
    let mut i: usize = 0;
    proof {
        assert(src@.skip(0) =~= src@);
        assert(byte_views(parts@) =~= Seq::<Seq<u8>>::empty());
        assert(byte_views(parts@) + split_bytes(src@, sep) =~= split_bytes(src@, sep));
    }
    while i < src.len()
        invariant
            start <= i <= src@.len(),
            split_bytes(src@, sep) == byte_views(parts@) + split_bytes(
                src@.skip(start as int),
                sep,
            ),
            forall|j: int| start <= j < i ==> src@[j] != sep,
        decreases src@.len() - i,
    {
        if src[i] == sep {
            let frag = copy_bytes(&src[start..i]);
            proof {
                let tail = src@.skip(start as int);
                assert forall|j: int| 0 <= j < i - start implies tail[j] != sep by {
                    assert(tail[j] == src@[start + j]);
                }
                assert(tail[i - start] == src@[i as int]);
                lemma_first_at(tail, sep, i - start);
                assert(tail.take(i - start) =~= src@.subrange(start as int, i as int));
                assert(tail.skip(i - start + 1) =~= src@.skip(i + 1));
                assert(frag@ == tail.take(i - start));
            }
            let ghost old_parts = parts@;
            parts.push(frag);
            proof {
                assert(byte_views(parts@) =~= byte_views(old_parts).push(frag@));
                assert(byte_views(old_parts) + (seq![frag@] + split_bytes(src@.skip(i + 1), sep))
                    =~= byte_views(parts@) + split_bytes(src@.skip(i + 1), sep));
            }
            start = i + 1;
        }
        i += 1;
    }
    let frag = copy_bytes(&src[start..src.len()]);
    proof {
        let tail = src@.skip(start as int);
        assert forall|j: int| 0 <= j < tail.len() implies tail[j] != sep by {
            assert(tail[j] == src@[start + j]);
        }
        lemma_first_at(tail, sep, tail.len() as int);
        assert(frag@ =~= tail);
    }
    let ghost old_parts = parts@;
    parts.push(frag);
    proof {
        assert(byte_views(parts@) =~= byte_views(old_parts).push(frag@));
        assert(byte_views(old_parts) + seq![frag@] =~= byte_views(parts@));
    }
    parts
}

} // verus!
