//! Utility functions for operating on raw keys: the successor of a single
//! key, prefix tests, and the least upper bound of a prefix range.

use vstd::prelude::*;

use crate::error::{FdbError, FdbResult, TUPLE_KEY_UTIL_STRINC_ERROR};
use crate::order::{lex_cmp, lemma_lex_cmp_skip, lex_lt};

verus! {

/// The longest prefix of `s` that does not end in `0xFF`.
pub open spec fn rstrip_xff_spec(s: Seq<u8>) -> Seq<u8>
    decreases s.len(),
{
    if s.len() == 0 {
        s
    } else if s.last() == 0xFF {
        rstrip_xff_spec(s.drop_last())
    } else {
        s
    }
}

/// Computes the key that would sort immediately after `key`: the key with a
/// single `0x00` byte appended.
pub fn key_after(key: Vec<u8>) -> (r: Vec<u8>)
    ensures
        r@ == key@ + seq![0x00u8],
{
    let mut res = key;
    let ghost orig = res@;
    res.push(0x00);
    proof {
        assert(res@ =~= orig + seq![0x00u8]);
    }
    res
}

/// Checks whether `key` starts with `prefix`.
pub fn starts_with(key: &Vec<u8>, prefix: &Vec<u8>) -> (r: bool)
    ensures
        r == (prefix@.len() <= key@.len() && key@.subrange(0, prefix@.len() as int) == prefix@),
{
    if key.len() < prefix.len() {
        return false;
    }
    let mut i: usize = 0;
    while i < prefix.len()
        invariant
            i <= prefix@.len() <= key@.len(),
            forall|j: int| 0 <= j < i ==> key@[j] == prefix@[j],
        decreases prefix@.len() - i,
    {
        if key[i] != prefix[i] {
            proof {
                assert(key@.subrange(0, prefix@.len() as int)[i as int] != prefix@[i as int]);
            }
            return false;
        }
        i = i + 1;
    }
    proof {
        assert(key@.subrange(0, prefix@.len() as int) =~= prefix@);
    }
    true
}

/// Computes the first key that sorts after every key prefixed by `prefix`:
/// trailing `0xFF` bytes are stripped and the last remaining byte is
/// incremented. Fails exactly when `prefix` is empty or all `0xFF`.
pub fn strinc(prefix: Vec<u8>) -> (r: FdbResult<Vec<u8>>)
    ensures
        (r is Ok) <==> exists|j: int| 0 <= j < prefix@.len() && prefix@[j] != 0xFF,
        r matches Ok(v) ==> {
            let stripped = rstrip_xff_spec(prefix@);
            v@ == stripped.drop_last().push((stripped.last() + 1) as u8)
        },
        r matches Err(e) ==> e == (FdbError { error_code: TUPLE_KEY_UTIL_STRINC_ERROR }),
{
    let mut end: usize = prefix.len();
    proof {
        assert(prefix@.subrange(0, prefix@.len() as int) =~= prefix@);
    }
    while end > 0 && prefix[end - 1] == 0xFF
        invariant
            end <= prefix@.len(),
            rstrip_xff_spec(prefix@) == rstrip_xff_spec(prefix@.subrange(0, end as int)),
            forall|j: int| end <= j < prefix@.len() ==> prefix@[j] == 0xFF,
        decreases end,
    {
        proof {
            assert(prefix@.subrange(0, end as int).last() == 0xFF);
            assert(prefix@.subrange(0, end as int).drop_last() =~= prefix@.subrange(
                0,
                (end - 1) as int,
            ));
        }
        end = end - 1;
    }
    if end == 0 {
        proof {
            assert(forall|j: int| 0 <= j < prefix@.len() ==> prefix@[j] == 0xFF);
        }
        return Err(FdbError::new(TUPLE_KEY_UTIL_STRINC_ERROR));
    }
    proof {
        assert(prefix@.subrange(0, end as int).last() == prefix@[end - 1]);
        assert(prefix@[end - 1] != 0xFF);
        assert(rstrip_xff_spec(prefix@.subrange(0, end as int)) == prefix@.subrange(0, end as int));
    }
    let mut res: Vec<u8> = Vec::new();
    let mut i: usize = 0;
    while i < end - 1
        invariant
            end >= 1,
            end <= prefix@.len(),
            i <= end - 1,
            res@ =~= prefix@.subrange(0, i as int),
        decreases end - i,
    {
        res.push(prefix[i]);
        i = i + 1;
    }
    res.push(prefix[end - 1] + 1);
    proof {
        let stripped = rstrip_xff_spec(prefix@);
        assert(stripped == prefix@.subrange(0, end as int));
        assert(stripped.drop_last() =~= prefix@.subrange(0, (end - 1) as int));
        assert(res@ =~= stripped.drop_last().push((stripped.last() + 1) as u8));
    }
    Ok(res)
}

/// Shape of the stripped prefix: it is the prefix of `s` up to and
/// including its last byte that is not `0xFF`.
pub proof fn lemma_rstrip_xff_shape(s: Seq<u8>)
    requires
        exists|j: int| 0 <= j < s.len() && s[j] != 0xFF,
    ensures
        ({
            let st = rstrip_xff_spec(s);
            &&& 1 <= st.len() <= s.len()
            &&& st == s.subrange(0, st.len() as int)
            &&& st.last() != 0xFF
            &&& forall|i: int| st.len() <= i < s.len() ==> s[i] == 0xFF
        }),
    decreases s.len(),
{
    let st = rstrip_xff_spec(s);
    if s.last() == 0xFF {
        assert(exists|j: int| 0 <= j < s.drop_last().len() && s.drop_last()[j] != 0xFF) by {
            let j = choose|j: int| 0 <= j < s.len() && s[j] != 0xFF;
            assert(j < s.len() - 1);
            assert(s.drop_last()[j] != 0xFF);
        }
        lemma_rstrip_xff_shape(s.drop_last());
        assert(rstrip_xff_spec(s.drop_last()) == s.drop_last().subrange(
            0,
            rstrip_xff_spec(s.drop_last()).len() as int,
        ));
        assert(st =~= s.subrange(0, st.len() as int));
        assert forall|i: int| st.len() <= i < s.len() implies s[i] == 0xFF by {
            if i < s.len() - 1 {
                assert(s.drop_last()[i] == 0xFF);
                assert(s.drop_last()[i] == s[i]);
            } else {
                assert(s[i] == s.last());
            }
        }
    } else {
        assert(st == s);
        assert(st =~= s.subrange(0, st.len() as int));
    }
}

/// Law: the successor of a prefix bounds every key extending it. Any key
/// that starts with `prefix` sorts strictly before what [`strinc`] returns
/// for `prefix`.
pub proof fn lemma_strinc_bounds_extensions(prefix: Seq<u8>, key: Seq<u8>)
    requires
        exists|j: int| 0 <= j < prefix.len() && prefix[j] != 0xFF,
        prefix.len() <= key.len(),
        key.subrange(0, prefix.len() as int) == prefix,
    ensures
        ({
            let st = rstrip_xff_spec(prefix);
            lex_lt(key, st.drop_last().push((st.last() + 1) as u8))
        }),
{
    lemma_rstrip_xff_shape(prefix);
    let st = rstrip_xff_spec(prefix);
    let v = st.drop_last().push((st.last() + 1) as u8);
    let j = st.len() - 1;
    assert(v.len() == st.len());
    assert forall|i: int| 0 <= i < j implies key[i] == v[i] by {
        assert(v[i] == st[i]);
        assert(st[i] == prefix[i]);
        assert(key.subrange(0, prefix.len() as int)[i] == key[i]);
    }
    lemma_lex_cmp_skip(key, v, j);
    assert(key.skip(j)[0] == key[j]);
    assert(v.skip(j)[0] == v[j]);
    assert(key[j] == prefix[j]) by {
        assert(key.subrange(0, prefix.len() as int)[j] == key[j]);
    }
    assert(prefix[j] == st.last());
    assert(v[j] == st.last() + 1);
    assert(lex_cmp(key.skip(j), v.skip(j)) == core::cmp::Ordering::Less);
}

} // verus!
