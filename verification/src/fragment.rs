//! Fragmentation of reliable messages that do not fit in the MTU
//! budget of a single packet, and their reassembly. Fragments are
//! stored by index, so the reassembled message does not depend on the
//! order in which they arrive.
use vstd::prelude::*;
use crate::bytes::copy_range;

verus! {

/// The concatenation of a sequence of byte strings.
pub open spec fn concat_bytes(frags: Seq<Seq<u8>>) -> Seq<u8>
    decreases frags.len(),
{
    if frags.len() == 0 {
        Seq::empty()
    } else {
        frags[0] + concat_bytes(frags.drop_first())
    }
}

pub proof fn lemma_concat_push(frags: Seq<Seq<u8>>, x: Seq<u8>)
    ensures
        concat_bytes(frags.push(x)) == concat_bytes(frags) + x,
    decreases frags.len(),
{
    if frags.len() == 0 {
        let p = frags.push(x);
        assert(p.drop_first() =~= Seq::<Seq<u8>>::empty());
        assert(concat_bytes(p.drop_first()) =~= Seq::<u8>::empty());
        assert(concat_bytes(p) == p[0] + concat_bytes(p.drop_first()));
        assert(p[0] + Seq::<u8>::empty() =~= x);
        assert(concat_bytes(frags) + x =~= x);
    } else {
        let p = frags.push(x);
        assert(p.drop_first() =~= frags.drop_first().push(x));
        lemma_concat_push(frags.drop_first(), x);
        assert(concat_bytes(p) == p[0] + (concat_bytes(frags.drop_first()) + x));
        assert(p[0] + (concat_bytes(frags.drop_first()) + x) =~= (frags[0] + concat_bytes(
            frags.drop_first(),
        )) + x);
    }
}

/// The views of a vector of fragments.
pub open spec fn frag_views(frags: Seq<Vec<u8>>) -> Seq<Seq<u8>> {
    frags.map_values(|f: Vec<u8>| f@)
}

/// Split a message into fragments of at most `max_frag` bytes each.
/// Every fragment except the last is exactly `max_frag` bytes, so the
/// fragment count is the rounded-up quotient; concatenating the
/// fragments in index order restores the message.
pub fn split_message(data: &Vec<u8>, max_frag: usize) -> (frags: Vec<Vec<u8>>)
    requires
        1 <= max_frag,
        data@.len() <= 255 * max_frag,
    ensures
        1 <= frags@.len() <= 255,
        concat_bytes(frag_views(frags@)) == data@,
        forall|i: int| 0 <= i < frags@.len() ==> #[trigger] frags@[i]@.len() <= max_frag,
        forall|i: int| 0 <= i < frags@.len() - 1 ==> #[trigger] frags@[i]@.len() == max_frag,
{
    let len: usize = data.len();
    if len == 0 {
        let mut frags: Vec<Vec<u8>> = Vec::new();
        frags.push(Vec::new());
        proof {
            let fv = frag_views(frags@);
            assert(fv =~= seq![Seq::<u8>::empty()]);
            assert(fv.drop_first() =~= Seq::<Seq<u8>>::empty());
            assert(concat_bytes(fv.drop_first()) =~= Seq::<u8>::empty());
            assert(concat_bytes(fv) == fv[0] + concat_bytes(fv.drop_first()));
            assert(fv[0] + Seq::<u8>::empty() =~= data@);
        }
        return frags;
    }
    let mut frags: Vec<Vec<u8>> = Vec::new();
    let mut pos: usize = 0;
    while pos < len
        invariant
            pos <= len,
            len == data@.len(),
            1 <= max_frag,
            len <= 255 * max_frag,
            concat_bytes(frag_views(frags@)) == data@.subrange(0, pos as int),
            frags@.len() == 0 ==> pos == 0,
            frags@.len() >= 1 ==> pos > (frags@.len() - 1) * max_frag,
            pos < len ==> pos == frags@.len() * max_frag,
            forall|i: int| 0 <= i < frags@.len() ==> #[trigger] frags@[i]@.len() <= max_frag,
            forall|i: int|
                0 <= i < frags@.len() && (pos < len || i < frags@.len() - 1)
                    ==> #[trigger] frags@[i]@.len() == max_frag,
        decreases len - pos,
    {
        let take: usize = if len - pos < max_frag {
            len - pos
        } else {
            max_frag
        };
        let piece = copy_range(data, pos, pos + take);
        proof {
            lemma_concat_push(frag_views(frags@), piece@);
            assert(frag_views(frags@.push(piece)) =~= frag_views(frags@).push(piece@));
            assert(data@.subrange(0, pos as int) + data@.subrange(pos as int, pos + take)
                =~= data@.subrange(0, pos + take));
            assert((frags@.len() + 1 - 1) * max_frag == frags@.len() * max_frag);
            assert((frags@.len() + 1) * max_frag == frags@.len() * max_frag + max_frag)
                by (nonlinear_arith);
        }
        frags.push(piece);
        pos = pos + take;
    }
    proof {
        assert(data@.subrange(0, len as int) =~= data@);
        let c = frags@.len() as int;
        assert(c <= 255) by (nonlinear_arith)
            requires
                len > (c - 1) * max_frag,
                len <= 255 * max_frag,
                max_frag >= 1,
                c >= 1,
        ;
    }
    frags
}

/// Reassembly buffer for one fragmented message: fragments land in
/// their declared slot, whatever order they arrive in.
pub struct Reassembly {
    /// How many fragments the message was split into.
    pub count: u8,
    /// One slot per fragment index.
    pub slots: Vec<Option<Vec<u8>>>,
}

impl Reassembly {
    /// The byte string of slot `i`, empty while the slot is unfilled.
    pub open spec fn slot_bytes(self, i: int) -> Seq<u8> {
        match self.slots@[i] {
            Some(v) => v@,
            None => Seq::empty(),
        }
    }

    /// Whether slot `i` is filled.
    pub open spec fn filled(self, i: int) -> bool {
        self.slots@[i] is Some
    }

    pub open spec fn wf(self) -> bool {
        &&& self.slots@.len() == self.count
        &&& self.count >= 1
    }

    /// The fragments filled so far, in index order.
    pub open spec fn fragments(self) -> Seq<Seq<u8>> {
        Seq::new(self.slots@.len(), |i: int| self.slot_bytes(i))
    }

    /// A buffer expecting `count` fragments, all slots empty.
    pub fn new(count: u8) -> (r: Reassembly)
        requires
            count >= 1,
        ensures
            r.wf(),
            r.count == count,
            forall|i: int| 0 <= i < count ==> !r.filled(i),
    {
        let mut slots: Vec<Option<Vec<u8>>> = Vec::new();
        let mut i: usize = 0;
        while i < count as usize
            invariant
                i <= count as usize,
                slots@.len() == i,
                forall|j: int| 0 <= j < i ==> slots@[j] is None,
            decreases count as usize - i,
        {
            slots.push(None);
            i = i + 1;
        }
        Reassembly { count, slots }
    }

    /// Store fragment `idx`. Returns whether the fragment was new; a
    /// duplicate leaves the buffer unchanged.
    pub fn insert(&mut self, idx: u8, data: Vec<u8>) -> (fresh: bool)
        requires
            old(self).wf(),
            idx < old(self).count,
        ensures
            final(self).wf(),
            final(self).count == old(self).count,
            fresh <==> !old(self).filled(idx as int),
            final(self).filled(idx as int),
            fresh ==> final(self).slot_bytes(idx as int) == data@,
            !fresh ==> *final(self) == *old(self),
            forall|i: int|
                0 <= i < old(self).count && i != idx ==> final(self).filled(i) == old(
                    self,
                ).filled(i) && final(self).slot_bytes(i) == old(self).slot_bytes(i),
    {
        if self.slots[idx as usize].is_some() {
            return false;
        }
        self.slots.set(idx as usize, Some(data));
        true
    }

    /// Whether every fragment has arrived.
    pub fn complete(&self) -> (r: bool)
        requires
            self.wf(),
        ensures
            r <==> forall|i: int| 0 <= i < self.count ==> self.filled(i),
    {
        let mut i: usize = 0;
        while i < self.count as usize
            invariant
                self.wf(),
                i <= self.count as usize,
                forall|j: int| 0 <= j < i ==> self.filled(j),
            decreases self.count as usize - i,
        {
            if self.slots[i].is_none() {
                proof {
                    assert(!self.filled(i as int));
                }
                return false;
            }
            i = i + 1;
        }
        true
    }

    /// Concatenate all fragments in index order: the reassembled
    /// message, independent of arrival order.
    pub fn assemble(&self) -> (r: Vec<u8>)
        requires
            self.wf(),
            forall|i: int| 0 <= i < self.count ==> self.filled(i),
        ensures
            r@ == concat_bytes(self.fragments()),
    {
        let mut r: Vec<u8> = Vec::new();
        let mut i: usize = 0;
        proof {
            assert(Seq::new(0, |j: int| self.slot_bytes(j)) =~= Seq::<Seq<u8>>::empty());
        }
        while i < self.count as usize
            invariant
                self.wf(),
                forall|j: int| 0 <= j < self.count ==> self.filled(j),
                i <= self.count as usize,
                r@ == concat_bytes(Seq::new(i as nat, |j: int| self.slot_bytes(j))),
            decreases self.count as usize - i,
        {
            let frag: &Vec<u8> = match &self.slots[i] {
                Some(v) => v,
                None => {
                    proof {
                        assert(self.filled(i as int));
                        assert(false);
                    }
                    unreached()
                },
            };
            let mut k: usize = 0;
            while k < frag.len()
                invariant
                    k <= frag@.len(),
                    frag@ == self.slot_bytes(i as int),
                    r@ == concat_bytes(Seq::new(i as nat, |j: int| self.slot_bytes(j)))
                        + frag@.subrange(0, k as int),
                decreases frag@.len() - k,
            {
                let b: u8 = frag[k];
                r.push(b);
                proof {
                    assert(concat_bytes(Seq::new(i as nat, |j: int| self.slot_bytes(j)))
                        + frag@.subrange(0, k + 1) =~= (concat_bytes(
                        Seq::new(i as nat, |j: int| self.slot_bytes(j)),
                    ) + frag@.subrange(0, k as int)).push(b));
                }
                k = k + 1;
            }
            proof {
                assert(frag@.subrange(0, frag@.len() as int) =~= frag@);
                lemma_concat_push(Seq::new(i as nat, |j: int| self.slot_bytes(j)), frag@);
                assert(Seq::new((i + 1) as nat, |j: int| self.slot_bytes(j)) =~= Seq::new(
                    i as nat,
                    |j: int| self.slot_bytes(j),
                ).push(frag@));
            }
            i = i + 1;
        }
        proof {
            assert(Seq::new(self.count as nat, |j: int| self.slot_bytes(j)) =~= self.fragments());
        }
        r
    }
}

} // verus!
