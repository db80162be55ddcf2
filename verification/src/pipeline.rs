use crate::error::BdfError;
use std::collections::HashMap;
use vstd::prelude::*;
use vstd::std_specs::hash::*;

verus! {

/// What a sequencer holds: how many tags it has issued, how many results it has
/// handed on, and the results that wait for an earlier one.
pub struct SequencerView {
    pub issued: nat,
    pub written: nat,
    pub waiting: Map<u64, Seq<u8>>,
}

impl SequencerView {
    /// Whether every result that waits bears a tag that was issued and is not yet
    /// due: the result that is due never waits.
    pub open spec fn wf(self) -> bool {
        &&& self.written <= self.issued <= u64::MAX
        &&& forall|tag: u64| #[trigger]
            self.waiting.contains_key(tag) ==> self.written < tag < self.issued
    }
}

/// The results of the tags from `from` up to `to`, one after the other.
pub open spec fn in_order(results: Map<u64, Seq<u8>>, from: nat, to: nat) -> Seq<u8>
    decreases to - from,
{
    if from >= to {
        Seq::empty()
    } else {
        results[from as u64] + in_order(results, from + 1, to)
    }
}

/// Whether a result is at hand for each tag from `from` up to `to`.
pub open spec fn all_at_hand(results: Map<u64, Seq<u8>>, from: nat, to: nat) -> bool {
    forall|tag: u64| from <= tag < to ==> results.contains_key(tag)
}

/// The results in order reach as far as the results up to a tag and then that tag's.
proof fn lemma_in_order_push(results: Map<u64, Seq<u8>>, from: nat, to: nat)
    requires
        from <= to < u64::MAX,
    ensures
        in_order(results, from, to + 1) == in_order(results, from, to) + results[to as u64],
    decreases to - from,
{
    if from < to {
        lemma_in_order_push(results, from + 1, to);
        assert(in_order(results, from, to + 1) =~= in_order(results, from, to)
            + results[to as u64]);
    } else {
        assert(in_order(results, from + 1, to + 1) =~= Seq::<u8>::empty());
        assert(in_order(results, from, to + 1) =~= in_order(results, from, to)
            + results[to as u64]);
    }
}

/// The results in order depend only on the results of the tags that they span.
proof fn lemma_in_order_agrees(a: Map<u64, Seq<u8>>, b: Map<u64, Seq<u8>>, from: nat, to: nat)
    requires
        to <= u64::MAX,
        forall|tag: u64| from <= tag < to ==> a[tag] == b[tag],
    ensures
        in_order(a, from, to) == in_order(b, from, to),
    decreases to - from,
{
    if from < to {
        lemma_in_order_agrees(a, b, from + 1, to);
    }
}

/// Restores the order of results that workers hand back in any order: each piece of
/// work takes a tag when it is handed out, and the results are handed on in the
/// order of their tags.
pub struct Sequencer {
    issued: u64,
    written: u64,
    waiting: HashMap<u64, Vec<u8>>,
}

/// The results that wait, as bytes.
pub open spec fn waiting_view(waiting: Map<u64, Vec<u8>>) -> Map<u64, Seq<u8>> {
    waiting.map_values(|bytes: Vec<u8>| bytes@)
}

impl View for Sequencer {
    type V = SequencerView;

    closed spec fn view(&self) -> SequencerView {
        SequencerView {
            issued: self.issued as nat,
            written: self.written as nat,
            waiting: waiting_view(self.waiting@),
        }
    }
}

impl Sequencer {
    /// A sequencer that has issued no tag.
    pub fn new() -> (sequencer: Self)
        ensures
            sequencer@ == (SequencerView { issued: 0, written: 0, waiting: Map::empty() }),
            sequencer@.wf(),
    {
        let sequencer = Sequencer { issued: 0, written: 0, waiting: HashMap::new() };
        assert(sequencer@.waiting =~= Map::empty());
        sequencer
    }

    /// The tag for the next piece of work: the number of tags issued before. There
    /// is none once 64 bits cannot count the tags any more.
    pub fn issue(&mut self) -> (tag: Option<u64>)
        ensures
            old(self)@.issued < u64::MAX ==> tag == Some(old(self)@.issued as u64) && final(self)@
                == (SequencerView { issued: old(self)@.issued + 1, ..old(self)@ }),
            old(self)@.issued >= u64::MAX ==> tag is None && final(self)@ == old(self)@,
            old(self)@.wf() ==> final(self)@.wf(),
    {
        if self.issued == u64::MAX {
            return None;
        }
        let tag = self.issued;
        self.issued = tag + 1;
        Some(tag)
    }

    /// Takes the result of the work that bears `tag`, and hands on the results that
    /// are due now, in the order of their tags: this one, if all before it have been
    /// handed on, and those that waited for it. A tag that is not outstanding, because
    /// it was never issued or its result has come before, is refused.
    pub fn accept(&mut self, tag: u64, bytes: Vec<u8>) -> (due: Result<Vec<u8>, BdfError>)
        requires
            old(self)@.wf(),
        ensures
            final(self)@.wf(),
            final(self)@.issued == old(self)@.issued,
            !(old(self)@.written <= tag < old(self)@.issued) || old(self)@.waiting.contains_key(tag)
                ==> due == Err::<Vec<u8>, BdfError>(BdfError::StateViolation) && final(self)@
                == old(self)@,
            old(self)@.written <= tag < old(self)@.issued && !old(self)@.waiting.contains_key(tag)
                ==> due is Ok && ({
                let all = old(self)@.waiting.insert(tag, bytes@);
                let from = old(self)@.written;
                let to = final(self)@.written;
                &&& from <= to
                &&& all_at_hand(all, from, to)
                &&& !all.contains_key(to as u64)
                &&& due->Ok_0@ == in_order(all, from, to)
                &&& final(self)@.waiting == all.remove_keys(
                    Set::new(|done: u64| from <= done < to),
                )
            }),
    {
        broadcast use group_hash_axioms;

        if tag < self.written || tag >= self.issued || self.waiting.contains_key(&tag) {
            return Err(BdfError::StateViolation);
        }
        let ghost from = self.written as nat;
        let ghost all = self@.waiting.insert(tag, bytes@);
        self.waiting.insert(tag, bytes);
        let mut due: Vec<u8> = Vec::new();
        proof {
            assert(waiting_view(self.waiting@) =~= all);
            assert(all.remove_keys(Set::new(|done: u64| from <= done < from)) =~= all);
        }
        while self.waiting.contains_key(&self.written)
            invariant
                from <= self.written <= self.issued,
                self.issued == old(self).issued,
                from == old(self)@.written,
                all == old(self)@.waiting.insert(tag, bytes@),
                old(self)@.wf(),
                from <= tag < self.issued,
                all_at_hand(all, from, self.written as nat),
                due@ == in_order(all, from, self.written as nat),
                waiting_view(self.waiting@) == all.remove_keys(
                    Set::new(|done: u64| from <= done < self.written),
                ),
            decreases self.issued - self.written,
        {
            let ghost at = self.written;
            let ghost raw = self.waiting@;
            let ghost before = waiting_view(raw);
            assert(raw.contains_key(at));
            assert(before.contains_key(at));
            assert(all.contains_key(at));
            assert(at < self.issued);
            match self.waiting.remove(&self.written) {
                Some(piece) => {
                    let mut piece = piece;
                    assert(piece@ == all[at]) by {
                        assert(before[at] == all[at]);
                    }
                    due.append(&mut piece);
                },
                None => {},
            }
            self.written = self.written + 1;
            proof {
                lemma_in_order_push(all, from, at as nat);
                assert(self.waiting@ == raw.remove(at));
                assert(waiting_view(self.waiting@) =~= before.remove(at));
                assert(before.remove(at) =~= all.remove_keys(
                    Set::new(|done: u64| from <= done < self.written),
                ));
                assert forall|other: u64| from <= other < self.written implies all.contains_key(
                    other,
                ) by {
                    if other < at {
                        assert(all_at_hand(all, from, at as nat));
                    }
                }
            }
        }
        proof {
            assert(!waiting_view(self.waiting@).contains_key(self.written));
            assert(!all.contains_key(self.written));
        }
        Ok(due)
    }
}

/// Whatever the order in which the results come back, what the sequencer has handed
/// on is what the workers made, in the order of the tags. With `results` the result
/// of each piece of work by its tag: if the results that wait are among them, and
/// the result that comes is the one of its tag, then the results handed on before,
/// which are those of the tags under `written`, and the results that are due now are
/// together those of the tags under the new `written`, and the results that still
/// wait are among `results`.
pub proof fn lemma_sequencer_keeps_order(
    results: Map<u64, Seq<u8>>,
    before: SequencerView,
    tag: u64,
    bytes: Seq<u8>,
    after: SequencerView,
    due: Seq<u8>,
)
    requires
        before.wf(),
        before.written <= tag < before.issued,
        !before.waiting.contains_key(tag),
        forall|waits: u64| #[trigger]
            before.waiting.contains_key(waits) ==> results.contains_key(waits)
                && before.waiting[waits] == results[waits],
        results.contains_key(tag),
        results[tag] == bytes,
        before.written <= after.written <= u64::MAX,
        due == in_order(before.waiting.insert(tag, bytes), before.written, after.written),
        all_at_hand(before.waiting.insert(tag, bytes), before.written, after.written),
        after.waiting == before.waiting.insert(tag, bytes).remove_keys(
            Set::new(|done: u64| before.written <= done < after.written),
        ),
    ensures
        in_order(results, 0, before.written) + due == in_order(results, 0, after.written),
        forall|waits: u64| #[trigger]
            after.waiting.contains_key(waits) ==> results.contains_key(waits)
                && after.waiting[waits] == results[waits],
{
    let all = before.waiting.insert(tag, bytes);
    assert forall|at: u64| before.written <= at < after.written implies all[at]
        == results[at] by {
        assert(all.contains_key(at));
        if at != tag {
            assert(before.waiting.contains_key(at));
        }
    }
    assert forall|waits: u64| #[trigger] after.waiting.contains_key(waits) implies
        results.contains_key(waits) && after.waiting[waits] == results[waits] by {
        assert(all.contains_key(waits));
        if waits != tag {
            assert(before.waiting.contains_key(waits));
        }
    }
    lemma_in_order_agrees(all, results, before.written, after.written);
    lemma_in_order_joins(results, 0, before.written, after.written);
}

/// The results in order of two spans that meet are those of the whole span.
proof fn lemma_in_order_joins(results: Map<u64, Seq<u8>>, from: nat, mid: nat, to: nat)
    requires
        from <= mid <= to,
    ensures
        in_order(results, from, mid) + in_order(results, mid, to) == in_order(results, from, to),
    decreases mid - from,
{
    if from < mid {
        lemma_in_order_joins(results, from + 1, mid, to);
        assert(in_order(results, from, mid) + in_order(results, mid, to) =~= in_order(
            results,
            from,
            to,
        ));
    } else {
        assert(in_order(results, from, mid) + in_order(results, mid, to) =~= in_order(
            results,
            from,
            to,
        ));
    }
}

} // verus!
