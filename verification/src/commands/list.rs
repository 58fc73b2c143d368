//! Listing notes: newest first.
use vstd::prelude::*;
use crate::note::Note;
use crate::timestamp::Timestamp;

verus! {

/// `a` is an earlier instant than `b` (offsets do not matter).
pub open spec fn earlier(a: Timestamp, b: Timestamp) -> bool {
    a.secs < b.secs || (a.secs == b.secs && a.nanos < b.nanos)
}

fn earlier_exec(a: Timestamp, b: Timestamp) -> (r: bool)
    ensures
        r == earlier(a, b),
{
    a.secs < b.secs || (a.secs == b.secs && a.nanos < b.nanos)
}

/// `out` is `input` sorted newest-created first, notes created at the same
/// instant keeping their order: `order[k]` is the position in `input` of
/// `out[k]`.
pub open spec fn newest_first_by(input: Seq<Note>, out: Seq<Note>, order: Seq<int>) -> bool {
    &&& out.len() == input.len()
    &&& order.len() == input.len()
    &&& forall|k: int| 0 <= k < order.len() ==> 0 <= #[trigger] order[k] < input.len() && out[k] == input[order[k]]
    &&& forall|k: int, l: int| 0 <= k < l < order.len() ==> #[trigger] order[k] != #[trigger] order[l]
    &&& forall|k: int, l: int| 0 <= k < l < out.len() ==> !earlier(#[trigger] out[k].meta.created, #[trigger] out[l].meta.created)
    &&& forall|k: int, l: int|
        0 <= k < l < out.len() && !earlier(out[l].meta.created, out[k].meta.created)
            ==> #[trigger] order[k] < #[trigger] order[l]
}

/// Sort notes newest-created first; notes created at the same instant keep
/// their order (a stable sort, as `sort_by_key` with `Reverse` is).
#[verifier::spinoff_prover]
pub fn newest_first(notes: Vec<Note>) -> (out: Vec<Note>)
    ensures
        exists|order: Seq<int>| newest_first_by(notes@, out@, order),
{
    let ghost input = notes@;
    let total = notes.len();
    let mut rest = notes;
    let mut out: Vec<Note> = Vec::new();
    let ghost mut order: Seq<int> = seq![];
    let mut i: usize = 0;
    while rest.len() > 0
        invariant
            i <= input.len(),
            total == input.len(),
            rest@ == input.skip(i as int),
            out@.len() == i,
            order.len() == i,
            forall|k: int| 0 <= k < order.len() ==> 0 <= #[trigger] order[k] < i && out@[k] == input[order[k]],
            forall|k: int, l: int| 0 <= k < l < order.len() ==> #[trigger] order[k] != #[trigger] order[l],
            forall|k: int, l: int| 0 <= k < l < out@.len() ==> !earlier(#[trigger] out@[k].meta.created, #[trigger] out@[l].meta.created),
            forall|k: int, l: int|
                0 <= k < l < out@.len() && !earlier(out@[l].meta.created, out@[k].meta.created)
                    ==> #[trigger] order[k] < #[trigger] order[l],
        decreases rest.len(),
    {
        assert(input.skip(i as int)[0] == input[i as int]);
        let note = rest.remove(0);
        proof {
            assert(rest@ =~= input.skip(i + 1));
        }
        let created = note.meta.created;
        let mut pos: usize = 0;
        while pos < out.len() && !earlier_exec(out[pos].meta.created, created)
            invariant
                pos <= out@.len(),
                forall|k: int| 0 <= k < pos ==> !earlier(#[trigger] out@[k].meta.created, created),
            decreases out.len() - pos,
        {
            pos = pos + 1;
        }
        let ghost old_out = out@;
        let ghost old_order = order;
        out.insert(pos, note);
        proof {
            order = old_order.insert(pos as int, i as int);
            assert forall|k: int| pos <= k < old_out.len() implies earlier(#[trigger] old_out[k].meta.created, created) by {
                if k > pos {
                    assert(!earlier(old_out[pos as int].meta.created, old_out[k].meta.created));
                }
            }
            assert forall|k: int| 0 <= k < order.len() implies 0 <= #[trigger] order[k] < i + 1 && out@[k] == input[order[k]] by {
                if k < pos {
                    assert(order[k] == old_order[k] && out@[k] == old_out[k]);
                } else if k > pos {
                    assert(order[k] == old_order[k - 1] && out@[k] == old_out[k - 1]);
                }
            }
            assert forall|k: int, l: int| 0 <= k < l < order.len() implies #[trigger] order[k] != #[trigger] order[l] by {
                if k != pos && l != pos {
                    let a = if k < pos { k } else { k - 1 };
                    let b = if l < pos { l } else { l - 1 };
                    assert(order[k] == old_order[a] && order[l] == old_order[b]);
                } else if k == pos {
                    assert(order[l] == old_order[l - 1]);
                } else {
                    assert(order[k] == old_order[k]);
                }
            }
            assert forall|k: int, l: int| 0 <= k < l < out@.len()
                implies !earlier(#[trigger] out@[k].meta.created, #[trigger] out@[l].meta.created) by {
                if k != pos && l != pos {
                    let a = if k < pos { k } else { k - 1 };
                    let b = if l < pos { l } else { l - 1 };
                    assert(out@[k] == old_out[a] && out@[l] == old_out[b]);
                } else if k == pos {
                    assert(out@[l] == old_out[l - 1]);
                } else {
                    assert(out@[k] == old_out[k]);
                }
            }
            assert forall|k: int, l: int|
                0 <= k < l < out@.len() && !earlier(out@[l].meta.created, out@[k].meta.created)
                    implies #[trigger] order[k] < #[trigger] order[l] by {
                if k != pos && l != pos {
                    let a = if k < pos { k } else { k - 1 };
                    let b = if l < pos { l } else { l - 1 };
                    assert(out@[k] == old_out[a] && out@[l] == old_out[b]);
                    assert(order[k] == old_order[a] && order[l] == old_order[b]);
                } else if k == pos {
                    assert(out@[l] == old_out[l - 1]);
                } else {
                    assert(out@[k] == old_out[k]);
                    assert(order[k] == old_order[k]);
                }
            }
        }
        i = i + 1;
    }
    proof {
        assert(newest_first_by(input, out@, order));
    }
    out
}

} // verus!
