//! Locating the unique unresolved versionstamp in a tuple: a walk over the
//! elements that accumulates encoded lengths until it finds the one
//! unresolved versionstamp, whose transaction-version offset it reports.

use vstd::prelude::*;

use crate::element::{
    lemma_repr_encode_piece_le, lemma_repr_encode_seq_push, lemma_repr_stamp_offset_bound_element,
    lemma_repr_stamp_offset_bound_seq, lemma_repr_stamp_offsets_push, lemma_tv_size_seq_index,
    lemma_tv_view_seq_len, lemma_tv_wf_seq_index, repr_encode, repr_encode_seq, repr_stamp_offset,
    repr_stamp_offsets, tv_size_seq, tv_view, tv_view_seq, tv_wf, tv_wf_seq, TupleValue,
};
use crate::encoder::encode_element;
use crate::encoding::{
    incomplete_count_element, incomplete_count_elements, lemma_incomplete_count_push,
};

verus! {

/// Result of scanning a sequence of elements for unresolved versionstamps.
#[derive(Debug, PartialEq, Eq)]
pub enum IncompleteQuery {
    /// No unresolved versionstamp; carries the sequence's encoded length.
    NotFound(usize),
    /// Exactly one; carries the offset of its transaction version within
    /// the sequence's encoding.
    Found(usize),
    /// More than one.
    MultipleFound,
}

/// Scan the elements for unresolved versionstamps, at any nesting depth.
/// The offset is measured in the bytes the elements actually encode to.
pub fn query_incomplete(vs: &Vec<TupleValue>, nested: bool) -> (r: IncompleteQuery)
    requires
        tv_wf_seq(vs@),
        repr_encode_seq(vs@, nested).len() <= usize::MAX,
    ensures
        incomplete_count_elements(tv_view_seq(vs@)) == 0 ==> (r matches IncompleteQuery::NotFound(n)
            && n == repr_encode_seq(vs@, nested).len()),
        incomplete_count_elements(tv_view_seq(vs@)) == 1 ==> (r matches IncompleteQuery::Found(o)
            && o == repr_stamp_offsets(vs@, nested)),
        incomplete_count_elements(tv_view_seq(vs@)) >= 2 ==> r is MultipleFound,
    decreases tv_size_seq(vs@),
{
    let ghost es = tv_view_seq(vs@);
    let mut running: usize = 0;
    let mut offset: usize = 0;
    let mut found = false;
    let mut multiple = false;
    let mut i: usize = 0;
    proof {
        lemma_tv_view_seq_len(vs@);
        lemma_tv_wf_seq_index(vs@);
        assert(vs@.subrange(0, 0) =~= Seq::<TupleValue>::empty());
        assert(vs@.subrange(0, vs@.len() as int) =~= vs@);
    }
    while i < vs.len()
        invariant
            i <= vs@.len(),
            tv_wf_seq(vs@),
            repr_encode_seq(vs@, nested).len() <= usize::MAX,
            es == tv_view_seq(vs@),
            es.len() == vs@.len(),
            forall|j: int| 0 <= j < vs@.len() ==> #[trigger] es[j] == tv_view(vs@[j]),
            forall|j: int| 0 <= j < vs@.len() ==> tv_wf(#[trigger] vs@[j]),
            !multiple && !found ==> incomplete_count_elements(tv_view_seq(
                vs@.subrange(0, i as int),
            )) == 0 && running == repr_encode_seq(vs@.subrange(0, i as int), nested).len()
                && running + repr_encode_seq(vs@.subrange(i as int, vs@.len() as int),
            nested).len() <= usize::MAX,
            !multiple && found ==> incomplete_count_elements(tv_view_seq(
                vs@.subrange(0, i as int),
            )) == 1 && offset == repr_stamp_offsets(vs@.subrange(0, i as int), nested) && offset
                <= usize::MAX,
            multiple ==> incomplete_count_elements(tv_view_seq(vs@.subrange(0, i as int))) >= 2,
        decreases vs@.len() - i,
    {
        let ghost prefix = vs@.subrange(0, i as int);
        let ghost pv = vs@[i as int];
        let ghost ev = tv_view(pv);
        proof {
            assert(vs@.subrange(0, (i + 1) as int) =~= prefix.push(pv));
            crate::element::lemma_tv_view_seq_push(prefix, pv);
            lemma_incomplete_count_push(tv_view_seq(prefix), ev);
            lemma_repr_stamp_offsets_push(prefix, pv, nested);
            lemma_repr_encode_seq_push(prefix, pv, nested);
            // the whole encoding splits around position i + 1
            assert(vs@ =~= vs@.subrange(0, (i + 1) as int) + vs@.subrange(
                (i + 1) as int,
                vs@.len() as int,
            ));
            crate::element::lemma_repr_encode_seq_concat(
                vs@.subrange(0, (i + 1) as int),
                vs@.subrange((i + 1) as int, vs@.len() as int),
                nested,
            );
            assert(vs@.subrange(i as int, vs@.len() as int) =~= seq![pv] + vs@.subrange(
                (i + 1) as int,
                vs@.len() as int,
            ));
            crate::element::lemma_repr_encode_seq_concat(
                seq![pv],
                vs@.subrange((i + 1) as int, vs@.len() as int),
                nested,
            );
            assert(seq![pv].len() == 1);
            assert(seq![pv][0] == pv);
            assert(seq![pv].skip(1) =~= Seq::<TupleValue>::empty());
            assert(repr_encode_seq(seq![pv], nested) == repr_encode(pv, nested) + repr_encode_seq(
                Seq::<TupleValue>::empty(),
                nested,
            ));
            assert(repr_encode_seq(Seq::<TupleValue>::empty(), nested) =~= Seq::<u8>::empty());
            assert(repr_encode_seq(seq![pv], nested) =~= repr_encode(pv, nested));
        }
        // classify this element: (count of unresolved stamps, offset, length)
        let mut elem_found = false;
        let mut elem_multiple = false;
        let mut elem_offset: usize = 0;
        let mut elem_len: usize = 0;
        match &vs[i] {
            TupleValue::Versionstamp96Bit(v) if !v.complete => {
                elem_found = true;
                elem_offset = 1;
                proof {
                    assert(incomplete_count_element(ev) == 1);
                    assert(repr_stamp_offset(pv, nested) == 1);
                }
            },
            TupleValue::NestedTuple(t) => {
                proof {
                    lemma_tv_size_seq_index(vs@, i as int);
                    lemma_repr_encode_piece_le(vs@, i as int, nested);
                }
                let inner = query_incomplete(&t.elements, true);
                match inner {
                    IncompleteQuery::NotFound(n) => {
                        elem_len = n + 2;
                        proof {
                            assert(incomplete_count_element(ev) == 0);
                            assert(repr_encode(pv, nested).len() == n + 2);
                        }
                    },
                    IncompleteQuery::Found(o) => {
                        elem_found = true;
                        proof {
                            lemma_repr_stamp_offset_bound_seq(t.elements@, true);
                        }
                        elem_offset = o + 1;
                        proof {
                            assert(incomplete_count_element(ev) == 1);
                            assert(repr_stamp_offset(pv, nested) == 1 + o);
                        }
                    },
                    IncompleteQuery::MultipleFound => {
                        elem_multiple = true;
                        proof {
                            assert(incomplete_count_element(ev) >= 2);
                        }
                    },
                }
            },
            _ => {
                let piece = encode_element(&vs[i], nested);
                proof {
                    assert(incomplete_count_element(ev) == 0);
                }
                elem_len = piece.len();
            },
        }
        // fold this element into the running state
        if multiple {
            // stay in the error state
        } else if found {
            if elem_found || elem_multiple {
                multiple = true;
            }
        } else {
            if elem_multiple {
                multiple = true;
            } else if elem_found {
                proof {
                    lemma_repr_stamp_offset_bound_element(vs@[i as int], nested);
                }
                found = true;
                offset = running + elem_offset;
            } else {
                running = running + elem_len;
            }
        }
        i = i + 1;
    }
    proof {
        assert(vs@.subrange(0, vs@.len() as int) =~= vs@);
    }
    if multiple {
        IncompleteQuery::MultipleFound
    } else if found {
        IncompleteQuery::Found(offset)
    } else {
        IncompleteQuery::NotFound(running)
    }
}

} // verus!
