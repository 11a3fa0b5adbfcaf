//! The transformations on a caption sequence: renumbering and the uniform
//! forward and backward time shifts, together with the laws that hold of
//! them.

use vstd::prelude::*;
use crate::model::{SrtError, SubRec, Subtitle, TimeCode};

verus! {

/// The sequence renumbered 1 through N in its current order; all other
/// fields are untouched.
pub open spec fn spec_renumber(subs: Seq<SubRec>) -> Seq<SubRec> {
    Seq::new(subs.len(), |i: int| SubRec { number: (i + 1) as usize, ..subs[i] })
}

/// Every record shifted forward by `secs` whole seconds, start and end.
pub open spec fn spec_shift_add(subs: Seq<SubRec>, secs: u64) -> Seq<SubRec> {
    Seq::new(
        subs.len(),
        |i: int| SubRec {
            start: subs[i].start.spec_add_secs(secs),
            end: subs[i].end.spec_add_secs(secs),
            ..subs[i]
        },
    )
}

/// Every record shifted backward by `secs` whole seconds, start and end.
pub open spec fn spec_shift_sub(subs: Seq<SubRec>, secs: u64) -> Seq<SubRec> {
    Seq::new(
        subs.len(),
        |i: int| SubRec {
            start: subs[i].start.spec_sub_secs(secs),
            end: subs[i].end.spec_sub_secs(secs),
            ..subs[i]
        },
    )
}

/// A record can be shifted backward by `secs` without underflow.
pub open spec fn spec_can_sub(r: SubRec, secs: u64) -> bool {
    secs <= r.start.total_secs && secs <= r.end.total_secs
}

/// Renumbering is idempotent: renumbering an already renumbered sequence
/// changes nothing.
pub proof fn lemma_renumber_idempotent(subs: Seq<SubRec>)
    ensures
        spec_renumber(spec_renumber(subs)) == spec_renumber(subs),
{
    assert(spec_renumber(spec_renumber(subs)) =~= spec_renumber(subs));
}

/// Reassigns sequence numbers 1 through N in current order.
pub fn reset_nums(subs: &mut Vec<Subtitle>)
    ensures
        final(subs).deep_view() == spec_renumber(old(subs).deep_view()),
{
    let ghost all = old(subs).deep_view();
    let n = subs.len();
    let mut i: usize = 0;
    while i < n
        invariant
            0 <= i <= n,
            n == subs.len(),
            subs.deep_view().len() == all.len() == n,
            forall|j: int| 0 <= j < i ==> subs.deep_view()[j] == spec_renumber(all)[j],
            forall|j: int| i <= j < n ==> subs.deep_view()[j] == all[j],
        decreases n - i,
    {
        let sub = subs.remove(i);
        let renumbered = Subtitle { number: i + 1, ..sub };
        subs.insert(i, renumbered);
        proof {
            assert(subs.deep_view()[i as int] == spec_renumber(all)[i as int]);
        }
        i += 1;
    }
    proof {
        assert(subs.deep_view() =~= spec_renumber(all));
    }
}

/// Shifts every record forward by `secs` seconds, start and end alike.
pub fn add_secs(subs: &mut Vec<Subtitle>, secs: u64)
    requires
        forall|j: int| 0 <= j < old(subs).deep_view().len() ==> {
            &&& (#[trigger] old(subs).deep_view()[j]).start.total_secs + secs <= u64::MAX
            &&& old(subs).deep_view()[j].end.total_secs + secs <= u64::MAX
        },
    ensures
        final(subs).deep_view() == spec_shift_add(old(subs).deep_view(), secs),
{
    let ghost all = old(subs).deep_view();
    let n = subs.len();
    let mut i: usize = 0;
    while i < n
        invariant
            0 <= i <= n,
            n == subs.len(),
            subs.deep_view().len() == all.len() == n,
            forall|j: int| 0 <= j < n ==> {
                &&& (#[trigger] all[j]).start.total_secs + secs <= u64::MAX
                &&& all[j].end.total_secs + secs <= u64::MAX
            },
            forall|j: int| 0 <= j < i ==> subs.deep_view()[j] == spec_shift_add(all, secs)[j],
            forall|j: int| i <= j < n ==> subs.deep_view()[j] == all[j],
        decreases n - i,
    {
        let mut sub = subs.remove(i);
        proof {
            assert(sub@ == all[i as int]);
        }
        sub.start.add_secs(secs);
        sub.end.add_secs(secs);
        subs.insert(i, sub);
        proof {
            assert(subs.deep_view()[i as int] == spec_shift_add(all, secs)[i as int]);
        }
        i += 1;
    }
    proof {
        assert(subs.deep_view() =~= spec_shift_add(all, secs));
    }
}

/// Shifts every record backward by `secs` seconds. The shift is atomic: if
/// any record's start or end would underflow, the error names the first
/// such record and the whole sequence is left unchanged.
pub fn sub_secs(subs: &mut Vec<Subtitle>, secs: u64) -> (r: Result<(), SrtError>)
    ensures
        r is Ok <==> (forall|j: int| 0 <= j < old(subs).deep_view().len()
            ==> spec_can_sub(#[trigger] old(subs).deep_view()[j], secs)),
        r is Ok ==> final(subs).deep_view() == spec_shift_sub(old(subs).deep_view(), secs),
        r matches Err(e) ==> {
            &&& final(subs)@ == old(subs)@
            &&& exists|k: int| {
                &&& 0 <= k < old(subs).deep_view().len()
                &&& e == (SrtError::TimeUnderflow { index: k as usize })
                &&& !spec_can_sub(#[trigger] old(subs).deep_view()[k], secs)
                &&& forall|j: int| 0 <= j < k
                    ==> spec_can_sub(#[trigger] old(subs).deep_view()[j], secs)
            }
        },
{
    let ghost all = old(subs).deep_view();
    let n = subs.len();
    let mut i: usize = 0;
    while i < n
        invariant
            0 <= i <= n,
            n == subs.len(),
            *subs == *old(subs),
            all == subs.deep_view(),
            forall|j: int| 0 <= j < i ==> spec_can_sub(#[trigger] all[j], secs),
        decreases n - i,
    {
        if secs > subs[i].start.total_secs || secs > subs[i].end.total_secs {
            proof {
                assert(all[i as int] == subs@[i as int]@);
                assert(!spec_can_sub(all[i as int], secs));
            }
            return Err(SrtError::TimeUnderflow { index: i });
        }
        proof {
            assert(all[i as int] == subs@[i as int]@);
        }
        i += 1;
    }
    i = 0;
    while i < n
        invariant
            0 <= i <= n,
            n == subs.len(),
            subs.deep_view().len() == all.len() == n,
            forall|j: int| 0 <= j < n ==> spec_can_sub(#[trigger] all[j], secs),
            forall|j: int| 0 <= j < i ==> subs.deep_view()[j] == spec_shift_sub(all, secs)[j],
            forall|j: int| i <= j < n ==> subs.deep_view()[j] == all[j],
        decreases n - i,
    {
        let mut sub = subs.remove(i);
        proof {
            assert(sub@ == all[i as int]);
        }
        let start_ok = sub.start.sub_secs(secs);
        let end_ok = sub.end.sub_secs(secs);
        proof {
            assert(start_ok && end_ok);
        }
        subs.insert(i, sub);
        proof {
            assert(subs.deep_view()[i as int] == spec_shift_sub(all, secs)[i as int]);
        }
        i += 1;
    }
    proof {
        assert(subs.deep_view() =~= spec_shift_sub(all, secs));
    }
    Ok(())
}

} // verus!
