//! Reassembly of messages that arrive split over several frames.
use vstd::prelude::*;
use vstd::slice::slice_to_vec;
use std::collections::HashMap;
use crate::arq::{FrameSetPacket, FrameView};
use vstd::std_specs::iter::IteratorSpec;

verus! {

broadcast use vstd::std_specs::hash::group_hash_axioms;

/// `ks` is strictly increasing.
pub open spec fn ascending(ks: Seq<u32>) -> bool {
    forall|i: int, j: int| 0 <= i < j < ks.len() ==> ks[i] < ks[j]
}

/// `ks` is strictly increasing.
pub open spec fn ascending_ids(ks: Seq<u16>) -> bool {
    forall|i: int, j: int| 0 <= i < j < ks.len() ==> ks[i] < ks[j]
}

/// The members of `s` in increasing order.
pub open spec fn sorted_keys(s: Set<u32>) -> Seq<u32> {
    choose|ks: Seq<u32>| ascending(ks) && ks.to_set() == s
}

/// The members of `s` in increasing order.
pub open spec fn sorted_ids(s: Set<u16>) -> Seq<u16> {
    choose|ks: Seq<u16>| ascending_ids(ks) && ks.to_set() == s
}

/// The payloads of `frames` at the keys `ks`, one after another.
pub open spec fn concat_data(frames: Map<u32, FrameSetPacket>, ks: Seq<u32>) -> Seq<u8>
    decreases ks.len(),
{
    if ks.len() == 0 {
        Seq::empty()
    } else {
        concat_data(frames, ks.drop_last()) + frames[ks.last()].data@
    }
}

/// What a fragment holds: the flags and compound size of its message, the ordered
/// index of the whole message and the fragments received, by fragment index.
pub struct FragmentView {
    pub flags: u8,
    pub compound_size: u32,
    pub ordered_frame_index: u32,
    pub frames: Map<u32, FrameSetPacket>,
}

/// The fragments received so far of one message.
pub struct Fragment {
    pub flags: u8,
    pub compound_size: u32,
    pub ordered_frame_index: u32,
    pub frames: HashMap<u32, FrameSetPacket>,
}

impl View for Fragment {
    type V = FragmentView;

    open spec fn view(&self) -> FragmentView {
        FragmentView {
            flags: self.flags,
            compound_size: self.compound_size,
            ordered_frame_index: self.ordered_frame_index,
            frames: self.frames@,
        }
    }
}

/// Every fragment of the message has arrived.
pub open spec fn fragment_full(f: FragmentView) -> bool {
    f.frames.len() == f.compound_size
}

/// A fragment after `frame` arrives: kept unless the message is complete or that
/// fragment index is already there.
pub open spec fn fragment_insert(f: FragmentView, frame: FrameSetPacket) -> FragmentView {
    if fragment_full(f) || f.frames.contains_key(frame.fragment_index) {
        f
    } else {
        FragmentView {
            flags: f.flags,
            compound_size: f.compound_size,
            ordered_frame_index: f.ordered_frame_index,
            frames: f.frames.insert(frame.fragment_index, frame),
        }
    }
}

/// An empty fragment for the message that `frame` belongs to.
pub open spec fn fragment_for(frame: FrameSetPacket) -> FragmentView {
    FragmentView {
        flags: frame.flags,
        compound_size: frame.compound_size,
        ordered_frame_index: frame.ordered_frame_index,
        frames: Map::empty(),
    }
}

/// The whole message rebuilt from a fragment: the payloads in increasing fragment
/// index order, the reliability bits of the fragments' flags and the message's
/// ordered index.
pub open spec fn merged(f: FragmentView) -> FrameView {
    let data = concat_data(f.frames, sorted_keys(f.frames.dom()));
    FrameView {
        id: 0,
        sequence_number: 0,
        flags: f.flags & 224,
        length_in_bytes: (data.len() % 0x1_0000) as u16,
        reliable_frame_index: 0,
        sequenced_frame_index: 0,
        ordered_frame_index: f.ordered_frame_index,
        order_channel: 0,
        compound_size: 0,
        compound_id: 0,
        fragment_index: 0,
        data,
    }
}

/// Two increasing sequences with the same members are equal.
pub proof fn lemma_ascending_unique(a: Seq<u32>, b: Seq<u32>)
    requires
        ascending(a),
        ascending(b),
        forall|x: u32| a.contains(x) <==> b.contains(x),
    ensures
        a == b,
    decreases a.len(),
{
    if a.len() == 0 {
        if b.len() > 0 {
            assert(b.contains(b[0]));
        }
        assert(a =~= b);
    } else {
        assert(a.contains(a[0]));
        assert(b.contains(b[0]));
        assert(b.len() > 0);
        let i = choose|i: int| 0 <= i < a.len() && a[i] == b[0];
        let j = choose|j: int| 0 <= j < b.len() && b[j] == a[0];
        assert(a[0] == b[0]) by {
            if i > 0 {
                assert(a[0] < a[i]);
            }
            if j > 0 {
                assert(b[0] < b[j]);
            }
        }
        let a1 = a.drop_first();
        let b1 = b.drop_first();
        assert forall|x: u32| a1.contains(x) <==> b1.contains(x) by {
            if a1.contains(x) {
                let k = choose|k: int| 0 <= k < a1.len() && a1[k] == x;
                assert(a[k + 1] == x && a[0] < a[k + 1]);
                assert(b.contains(x));
                let m = choose|m: int| 0 <= m < b.len() && b[m] == x;
                assert(m != 0);
                assert(b1[m - 1] == x);
            }
            if b1.contains(x) {
                let k = choose|k: int| 0 <= k < b1.len() && b1[k] == x;
                assert(b[k + 1] == x && b[0] < b[k + 1]);
                assert(a.contains(x));
                let m = choose|m: int| 0 <= m < a.len() && a[m] == x;
                assert(m != 0);
                assert(a1[m - 1] == x);
            }
        }
        lemma_ascending_unique(a1, b1);
        assert(a =~= seq![a[0]] + a1);
        assert(b =~= seq![b[0]] + b1);
    }
}

/// Two increasing sequences with the same members are equal.
pub proof fn lemma_ascending_ids_unique(a: Seq<u16>, b: Seq<u16>)
    requires
        ascending_ids(a),
        ascending_ids(b),
        forall|x: u16| a.contains(x) <==> b.contains(x),
    ensures
        a == b,
    decreases a.len(),
{
    if a.len() == 0 {
        if b.len() > 0 {
            assert(b.contains(b[0]));
        }
        assert(a =~= b);
    } else {
        assert(a.contains(a[0]));
        assert(b.contains(b[0]));
        assert(b.len() > 0);
        let i = choose|i: int| 0 <= i < a.len() && a[i] == b[0];
        let j = choose|j: int| 0 <= j < b.len() && b[j] == a[0];
        assert(a[0] == b[0]) by {
            if i > 0 {
                assert(a[0] < a[i]);
            }
            if j > 0 {
                assert(b[0] < b[j]);
            }
        }
        let a1 = a.drop_first();
        let b1 = b.drop_first();
        assert forall|x: u16| a1.contains(x) <==> b1.contains(x) by {
            if a1.contains(x) {
                let k = choose|k: int| 0 <= k < a1.len() && a1[k] == x;
                assert(a[k + 1] == x && a[0] < a[k + 1]);
                assert(b.contains(x));
                let m = choose|m: int| 0 <= m < b.len() && b[m] == x;
                assert(m != 0);
                assert(b1[m - 1] == x);
            }
            if b1.contains(x) {
                let k = choose|k: int| 0 <= k < b1.len() && b1[k] == x;
                assert(b[k + 1] == x && b[0] < b[k + 1]);
                assert(a.contains(x));
                let m = choose|m: int| 0 <= m < a.len() && a[m] == x;
                assert(m != 0);
                assert(a1[m - 1] == x);
            }
        }
        lemma_ascending_ids_unique(a1, b1);
        assert(a =~= seq![a[0]] + a1);
        assert(b =~= seq![b[0]] + b1);
    }
}

/// `sorted_keys` is the one increasing sequence of a set's members.
proof fn lemma_sorted_keys_is(ks: Seq<u32>, s: Set<u32>)
    requires
        ascending(ks),
        forall|x: u32| ks.contains(x) <==> s.contains(x),
    ensures
        sorted_keys(s) == ks,
{
    assert(ks.to_set() =~= s);
    let c = sorted_keys(s);
    assert(ascending(c) && c.to_set() == s);
    assert forall|x: u32| c.contains(x) <==> ks.contains(x) by {
        assert(c.to_set().contains(x) <==> c.contains(x));
    }
    lemma_ascending_unique(c, ks);
}

/// `sorted_ids` is the one increasing sequence of a set's members.
proof fn lemma_sorted_ids_is(ks: Seq<u16>, s: Set<u16>)
    requires
        ascending_ids(ks),
        forall|x: u16| ks.contains(x) <==> s.contains(x),
    ensures
        sorted_ids(s) == ks,
{
    assert(ks.to_set() =~= s);
    let c = sorted_ids(s);
    assert(ascending_ids(c) && c.to_set() == s);
    assert forall|x: u16| c.contains(x) <==> ks.contains(x) by {
        assert(c.to_set().contains(x) <==> c.contains(x));
    }
    lemma_ascending_ids_unique(c, ks);
}

/// The keys of `m`, each once.
pub(crate) fn frame_keys(m: &HashMap<u32, FrameSetPacket>) -> (ks: Vec<u32>)
    ensures
        ks@.no_duplicates(),
        forall|k: u32| #[trigger] ks@.contains(k) <==> m@.contains_key(k),
{
    let ghost all: Seq<u32> = vstd::std_specs::hash::spec_keys_iter(m).remaining().unref();
    proof {
        assert(all.to_set() == m@.dom());
    }
    let mut ks: Vec<u32> = Vec::new();
    for k in it: m.keys()
        invariant
            all == it.seq().unref(),
            all.to_set() == m@.dom(),
            all.no_duplicates(),
            ks@ == all.take(it.index()),
    {
        ks.push(*k);
        proof {
            assert(ks@ =~= all.take(it.index() + 1));
        }
    }
    proof {
        assert(ks@ =~= all);
        assert forall|k: u32| #[trigger] ks@.contains(k) <==> m@.contains_key(k) by {
            assert(all.to_set().contains(k) <==> all.contains(k));
        }
    }
    ks
}

/// The keys of `m`, each once.
fn fragment_ids(m: &HashMap<u16, Fragment>) -> (ks: Vec<u16>)
    ensures
        ks@.no_duplicates(),
        forall|k: u16| #[trigger] ks@.contains(k) <==> m@.contains_key(k),
{
    let ghost all: Seq<u16> = vstd::std_specs::hash::spec_keys_iter(m).remaining().unref();
    proof {
        assert(all.to_set() == m@.dom());
    }
    let mut ks: Vec<u16> = Vec::new();
    for k in it: m.keys()
        invariant
            all == it.seq().unref(),
            all.to_set() == m@.dom(),
            all.no_duplicates(),
            ks@ == all.take(it.index()),
    {
        ks.push(*k);
        proof {
            assert(ks@ =~= all.take(it.index() + 1));
        }
    }
    proof {
        assert(ks@ =~= all);
        assert forall|k: u16| #[trigger] ks@.contains(k) <==> m@.contains_key(k) by {
            assert(all.to_set().contains(k) <==> all.contains(k));
        }
    }
    ks
}

/// Puts `x` into the increasing `v` where it belongs.
fn insert_ascending(v: &mut Vec<u32>, x: u32)
    requires
        ascending(old(v)@),
        !old(v)@.contains(x),
    ensures
        ascending(final(v)@),
        forall|y: u32| final(v)@.contains(y) <==> (old(v)@.contains(y) || y == x),
{
    let mut p: usize = 0;
    while p < v.len() && v[p] < x
        invariant
            p <= v@.len(),
            forall|j: int| 0 <= j < p ==> v@[j] < x,
        decreases v@.len() - p,
    {
        p = p + 1;
    }
    let ghost v0 = v@;
    proof {
        assert forall|j: int| p <= j < v0.len() implies x < v0[j] by {
            assert(v0[p as int] >= x);
            assert(v0[p as int] != x);
            if j > p {
                assert(v0[p as int] < v0[j]);
            }
        }
    }
    v.insert(p, x);
    proof {
        assert forall|y: u32| v@.contains(y) <==> (v0.contains(y) || y == x) by {
            if v@.contains(y) {
                let k = choose|k: int| 0 <= k < v@.len() && v@[k] == y;
                if k < p {
                    assert(v0[k] == y);
                } else if k > p {
                    assert(v0[k - 1] == y);
                }
            }
            if v0.contains(y) {
                let k = choose|k: int| 0 <= k < v0.len() && v0[k] == y;
                if k < p {
                    assert(v@[k] == y);
                } else {
                    assert(v@[k + 1] == y);
                }
            }
            if y == x {
                assert(v@[p as int] == x);
            }
        }
    }
}

/// Puts `x` into the increasing `v` where it belongs.
fn insert_ascending_id(v: &mut Vec<u16>, x: u16)
    requires
        ascending_ids(old(v)@),
        !old(v)@.contains(x),
    ensures
        ascending_ids(final(v)@),
        forall|y: u16| final(v)@.contains(y) <==> (old(v)@.contains(y) || y == x),
{
    let mut p: usize = 0;
    while p < v.len() && v[p] < x
        invariant
            p <= v@.len(),
            forall|j: int| 0 <= j < p ==> v@[j] < x,
        decreases v@.len() - p,
    {
        p = p + 1;
    }
    let ghost v0 = v@;
    proof {
        assert forall|j: int| p <= j < v0.len() implies x < v0[j] by {
            assert(v0[p as int] >= x);
            assert(v0[p as int] != x);
            if j > p {
                assert(v0[p as int] < v0[j]);
            }
        }
    }
    v.insert(p, x);
    proof {
        assert forall|y: u16| v@.contains(y) <==> (v0.contains(y) || y == x) by {
            if v@.contains(y) {
                let k = choose|k: int| 0 <= k < v@.len() && v@[k] == y;
                if k < p {
                    assert(v0[k] == y);
                } else if k > p {
                    assert(v0[k - 1] == y);
                }
            }
            if v0.contains(y) {
                let k = choose|k: int| 0 <= k < v0.len() && v0[k] == y;
                if k < p {
                    assert(v@[k] == y);
                } else {
                    assert(v@[k + 1] == y);
                }
            }
            if y == x {
                assert(v@[p as int] == x);
            }
        }
    }
}

/// The keys of `m` in increasing order.
pub(crate) fn sorted_frame_keys(m: &HashMap<u32, FrameSetPacket>) -> (ks: Vec<u32>)
    ensures
        ks@ == sorted_keys(m@.dom()),
        ascending(ks@),
        forall|y: u32| #[trigger] ks@.contains(y) <==> m@.contains_key(y),
{
    let all = frame_keys(m);
    let mut ks: Vec<u32> = Vec::new();
    let mut i: usize = 0;
    while i < all.len()
        invariant
            i <= all@.len(),
            all@.no_duplicates(),
            ascending(ks@),
            forall|y: u32| ks@.contains(y) <==> all@.take(i as int).contains(y),
        decreases all@.len() - i,
    {
        proof {
            if ks@.contains(all@[i as int]) {
                let k = choose|k: int| 0 <= k < i && all@.take(i as int)[k] == all@[i as int];
                assert(all@[k] == all@[i as int]);
            }
        }
        let ghost ks0 = ks@;
        insert_ascending(&mut ks, all[i]);
        proof {
            let t = all@.take(i as int);
            let t1 = all@.take(i + 1);
            assert(t1 =~= t.push(all@[i as int]));
            assert forall|y: u32| ks@.contains(y) <==> t1.contains(y) by {
                if t.contains(y) {
                    let k = choose|k: int| 0 <= k < t.len() && t[k] == y;
                    assert(t1[k] == y);
                }
                if y == all@[i as int] {
                    assert(t1[i as int] == y);
                }
                if t1.contains(y) {
                    let k = choose|k: int| 0 <= k < t1.len() && t1[k] == y;
                    if k < i {
                        assert(t[k] == y);
                    }
                }
            }
        }
        i = i + 1;
    }
    proof {
        assert(all@.take(i as int) =~= all@);
        lemma_sorted_keys_is(ks@, m@.dom());
    }
    ks
}

/// The keys of `m` in increasing order.
fn sorted_fragment_ids(m: &HashMap<u16, Fragment>) -> (ks: Vec<u16>)
    ensures
        ks@ == sorted_ids(m@.dom()),
        ascending_ids(ks@),
        forall|y: u16| #[trigger] ks@.contains(y) <==> m@.contains_key(y),
{
    let all = fragment_ids(m);
    let mut ks: Vec<u16> = Vec::new();
    let mut i: usize = 0;
    while i < all.len()
        invariant
            i <= all@.len(),
            all@.no_duplicates(),
            ascending_ids(ks@),
            forall|y: u16| ks@.contains(y) <==> all@.take(i as int).contains(y),
        decreases all@.len() - i,
    {
        proof {
            if ks@.contains(all@[i as int]) {
                let k = choose|k: int| 0 <= k < i && all@.take(i as int)[k] == all@[i as int];
                assert(all@[k] == all@[i as int]);
            }
        }
        let ghost ks0 = ks@;
        insert_ascending_id(&mut ks, all[i]);
        proof {
            let t = all@.take(i as int);
            let t1 = all@.take(i + 1);
            assert(t1 =~= t.push(all@[i as int]));
            assert forall|y: u16| ks@.contains(y) <==> t1.contains(y) by {
                if t.contains(y) {
                    let k = choose|k: int| 0 <= k < t.len() && t[k] == y;
                    assert(t1[k] == y);
                }
                if y == all@[i as int] {
                    assert(t1[i as int] == y);
                }
                if t1.contains(y) {
                    let k = choose|k: int| 0 <= k < t1.len() && t1[k] == y;
                    if k < i {
                        assert(t[k] == y);
                    }
                }
            }
        }
        i = i + 1;
    }
    proof {
        assert(all@.take(i as int) =~= all@);
        lemma_sorted_ids_is(ks@, m@.dom());
    }
    ks
}

impl Fragment {
    pub fn new(flags: u8, compound_size: u32, ordered_frame_index: u32) -> (r: Self)
        ensures
            r@ == (FragmentView {
                flags,
                compound_size,
                ordered_frame_index,
                frames: Map::empty(),
            }),
    {
        Fragment { flags, compound_size, ordered_frame_index, frames: HashMap::new() }
    }

    /// Whether every fragment of the message has arrived.
    pub fn full(&self) -> (r: bool)
        ensures
            r == fragment_full(self@),
    {
        self.frames.len() == self.compound_size as usize
    }

    /// Keeps `frame` unless the message is complete or its index is already here.
    pub fn insert(&mut self, frame: FrameSetPacket)
        ensures
            final(self)@ == fragment_insert(old(self)@, frame),
    {
        if self.full() {
            return;
        }
        if self.frames.contains_key(&frame.fragment_index) {
            return;
        }
        self.frames.insert(frame.fragment_index, frame);
    }

    /// Rebuilds the whole message from the fragments held.
    pub fn merge(&mut self) -> (r: FrameSetPacket)
        ensures
            r@ == merged(old(self)@),
            final(self)@ == old(self)@,
    {
        self.merged_packet()
    }

    fn merged_packet(&self) -> (r: FrameSetPacket)
        ensures
            r@ == merged(self@),
    {
        let keys = sorted_frame_keys(&self.frames);
        let mut buf: Vec<u8> = Vec::new();
        let mut i: usize = 0;
        while i < keys.len()
            invariant
                i <= keys@.len(),
                keys@ == sorted_keys(self.frames@.dom()),
                forall|y: u32| #[trigger] keys@.contains(y) <==> self.frames@.contains_key(y),
                buf@ == concat_data(self.frames@, keys@.take(i as int)),
            decreases keys@.len() - i,
        {
            let k = keys[i];
            proof {
                assert(keys@.take(i + 1).drop_last() =~= keys@.take(i as int));
                assert(keys@.take(i + 1).last() == k);
                assert(keys@.contains(k));
            }
            match self.frames.get(&k) {
                Some(f) => {
                    let mut d = slice_to_vec(f.data.as_slice());
                    buf.append(&mut d);
                },
                None => {},
            }
            i = i + 1;
        }
        proof {
            assert(keys@.take(i as int) =~= keys@);
        }
        let length_in_bytes = (buf.len() % 65536) as u16;
        FrameSetPacket {
            id: 0,
            sequence_number: 0,
            flags: self.flags & 224,
            length_in_bytes,
            reliable_frame_index: 0,
            sequenced_frame_index: 0,
            ordered_frame_index: self.ordered_frame_index,
            order_channel: 0,
            compound_size: 0,
            compound_id: 0,
            fragment_index: 0,
            data: buf,
        }
    }
}


/// The merged messages of the complete fragments among `ids`, in that order.
pub open spec fn full_merges(m: Map<u16, FragmentView>, ids: Seq<u16>) -> Seq<FrameView>
    decreases ids.len(),
{
    if ids.len() == 0 {
        Seq::empty()
    } else {
        let rest = full_merges(m, ids.drop_last());
        if fragment_full(m[ids.last()]) {
            rest.push(merged(m[ids.last()]))
        } else {
            rest
        }
    }
}

/// The messages being reassembled, by compound id.
pub struct FragmentQ {
    fragments: HashMap<u16, Fragment>,
}

impl View for FragmentQ {
    type V = Map<u16, FragmentView>;

    closed spec fn view(&self) -> Map<u16, FragmentView> {
        self.fragments@.map_values(|f: Fragment| f@)
    }
}

impl FragmentQ {
    pub fn new() -> (r: Self)
        ensures
            r@ == Map::<u16, FragmentView>::empty(),
    {
        let r = FragmentQ { fragments: HashMap::new() };
        assert(r@ =~= Map::<u16, FragmentView>::empty());
        r
    }

    /// Files `frame` under its compound id, opening a fragment for a new message.
    pub fn insert(&mut self, frame: FrameSetPacket)
        ensures
            final(self)@ == old(self)@.insert(
                frame.compound_id,
                fragment_insert(
                    if old(self)@.contains_key(frame.compound_id) {
                        old(self)@[frame.compound_id]
                    } else {
                        fragment_for(frame)
                    },
                    frame,
                ),
            ),
    {
        let k = frame.compound_id;
        let ghost m0 = self.fragments@;
        if self.fragments.contains_key(&k) {
            match self.fragments.remove(&k) {
                Some(mut f) => {
                    f.insert(frame);
                    self.fragments.insert(k, f);
                    proof {
                        assert(self@ =~= old(self)@.insert(k, f@));
                    }
                },
                None => {},
            }
        } else {
            let mut v = Fragment::new(frame.flags, frame.compound_size, frame.ordered_frame_index);
            v.insert(frame);
            self.fragments.insert(k, v);
            proof {
                assert(self@ =~= old(self)@.insert(k, v@));
            }
        }
    }

    /// The rebuilt messages of every complete fragment, by increasing compound id.
    /// Complete fragments stay where they are.
    pub fn flush(&mut self) -> (r: Vec<FrameSetPacket>)
        ensures
            final(self)@ == old(self)@,
            crate::arq::frame_views(r@) == full_merges(old(self)@, sorted_ids(old(self)@.dom())),
    {
        let ids = sorted_fragment_ids(&self.fragments);
        proof {
            assert(self@.dom() =~= self.fragments@.dom());
        }
        let mut ret: Vec<FrameSetPacket> = Vec::new();
        let mut i: usize = 0;
        while i < ids.len()
            invariant
                i <= ids@.len(),
                ids@ == sorted_ids(self@.dom()),
                forall|y: u16| #[trigger] ids@.contains(y) <==> self.fragments@.contains_key(y),
                crate::arq::frame_views(ret@) == full_merges(self@, ids@.take(i as int)),
            decreases ids@.len() - i,
        {
            let k = ids[i];
            proof {
                assert(ids@.take(i + 1).drop_last() =~= ids@.take(i as int));
                assert(ids@.take(i + 1).last() == k);
                assert(ids@.contains(k));
            }
            match self.fragments.get(&k) {
                Some(f) => {
                    if f.full() {
                        let p = f.merged_packet();
                        let ghost before = ret@;
                        ret.push(p);
                        proof {
                            assert(crate::arq::frame_views(ret@) =~= crate::arq::frame_views(
                                before,
                            ).push(p@));
                        }
                    }
                },
                None => {},
            }
            i = i + 1;
        }
        proof {
            assert(ids@.take(i as int) =~= ids@);
        }
        ret
    }

    /// How many messages are being reassembled.
    pub fn size(&self) -> (r: usize)
        ensures
            r == self@.len(),
    {
        proof {
            assert(self@.dom() =~= self.fragments@.dom());
        }
        self.fragments.len()
    }
}


/// A fragment after the frames `frames` arrive, in that order.
pub open spec fn insert_all(f: FragmentView, frames: Seq<FrameSetPacket>) -> FragmentView
    decreases frames.len(),
{
    if frames.len() == 0 {
        f
    } else {
        fragment_insert(insert_all(f, frames.drop_last()), frames.last())
    }
}

/// The payloads of `frames`, one after another.
pub open spec fn concat_payloads(frames: Seq<FrameSetPacket>) -> Seq<u8>
    decreases frames.len(),
{
    if frames.len() == 0 {
        Seq::empty()
    } else {
        concat_payloads(frames.drop_last()) + frames.last().data@
    }
}

/// `order` lists each of `0..n` once.
pub open spec fn is_order(order: Seq<int>, n: nat) -> bool {
    &&& order.len() == n
    &&& order.no_duplicates()
    &&& forall|j: int| 0 <= j < n ==> 0 <= #[trigger] order[j] < n
}

/// The fragments of a message: fragment `i` carries index `i` and the count of fragments.
pub open spec fn numbered_fragments(frames: Seq<FrameSetPacket>) -> bool {
    &&& 0 < frames.len() <= u32::MAX
    &&& forall|i: int|
        0 <= i < frames.len() ==> #[trigger] frames[i].fragment_index == i && frames[i].compound_size
            == frames.len()
}

proof fn lemma_order_covers(order: Seq<int>, n: nat, i: int)
    requires
        is_order(order, n),
        0 <= i < n,
    ensures
        exists|j: int| 0 <= j < n && #[trigger] order[j] == i,
{
    let m = vstd::set_lib::set_int_range(0, n as int);
    vstd::set_lib::lemma_int_range(0, n as int);
    vstd::seq_lib::seq_to_set_is_finite(order);
    assert(order.to_set().subset_of(m)) by {
        assert forall|y: int| order.to_set().contains(y) implies m.contains(y) by {
            let j = choose|j: int| 0 <= j < order.len() && order[j] == y;
            assert(0 <= order[j] < n);
        }
    }
    order.unique_seq_to_set();
    vstd::set_lib::lemma_subset_equality(order.to_set(), m);
    assert(m.contains(i));
    assert(order.to_set().contains(i));
    let j = choose|j: int| 0 <= j < order.len() && order[j] == i;
    assert(0 <= j < n && order[j] == i);
}

proof fn lemma_insert_prefix(
    frames: Seq<FrameSetPacket>,
    order: Seq<int>,
    f0: FragmentView,
    k: nat,
)
    requires
        numbered_fragments(frames),
        is_order(order, frames.len()),
        f0.frames == Map::<u32, FrameSetPacket>::empty(),
        f0.compound_size == frames.len(),
        k <= frames.len(),
    ensures
        ({
            let f = insert_all(f0, order.map_values(|j: int| frames[j]).take(k as int));
            &&& f.compound_size == f0.compound_size
            &&& f.flags == f0.flags
            &&& f.ordered_frame_index == f0.ordered_frame_index
            &&& f.frames.dom().finite()
            &&& f.frames.len() == k
            &&& forall|x: u32|
                #[trigger] f.frames.contains_key(x) <==> exists|j: int|
                    0 <= j < k && #[trigger] order[j] == x
            &&& forall|x: u32| #[trigger] f.frames.contains_key(x) ==> f.frames[x] == frames[x as int]
        }),
    decreases k,
{
    let ins = order.map_values(|j: int| frames[j]);
    let f = insert_all(f0, ins.take(k as int));
    if k == 0 {
        assert(ins.take(0) =~= Seq::<FrameSetPacket>::empty());
    } else {
        lemma_insert_prefix(frames, order, f0, (k - 1) as nat);
        let prev = insert_all(f0, ins.take(k - 1));
        assert(ins.take(k as int).drop_last() =~= ins.take(k - 1));
        assert(0 <= order[k - 1] < frames.len());
        let fr = frames[order[k - 1]];
        assert(ins.take(k as int).last() == fr);
        assert(fr.fragment_index == order[k - 1]);
        assert(!prev.frames.contains_key(fr.fragment_index)) by {
            if prev.frames.contains_key(fr.fragment_index) {
                let j = choose|j: int| 0 <= j < k - 1 && #[trigger] order[j] == fr.fragment_index;
                assert(order[j] == order[k - 1]);
            }
        }
        assert(prev.frames.len() < prev.compound_size);
        assert(f.frames == prev.frames.insert(fr.fragment_index, fr));
        assert forall|x: u32|
            #[trigger] f.frames.contains_key(x) <==> exists|j: int|
                0 <= j < k && #[trigger] order[j] == x by {
            if f.frames.contains_key(x) {
                if x != fr.fragment_index {
                    assert(prev.frames.contains_key(x));
                    let j = choose|j: int| 0 <= j < k - 1 && #[trigger] order[j] == x;
                    assert(0 <= j < k && order[j] == x);
                } else {
                    assert(order[k - 1] == x);
                }
            }
            if exists|j: int| 0 <= j < k && #[trigger] order[j] == x {
                let j = choose|j: int| 0 <= j < k && #[trigger] order[j] == x;
                if j < k - 1 {
                    assert(prev.frames.contains_key(x));
                }
            }
        }
    }
}

/// Law: the fragments of a message, arriving in any order, fill a fragment that
/// rebuilds the message: the payloads in fragment order.
pub proof fn lemma_fragments_reassemble(frames: Seq<FrameSetPacket>, order: Seq<int>)
    requires
        numbered_fragments(frames),
        is_order(order, frames.len()),
    ensures
        ({
            let ins = order.map_values(|j: int| frames[j]);
            let f = insert_all(fragment_for(ins[0]), ins);
            &&& fragment_full(f)
            &&& merged(f).data == concat_payloads(frames)
            &&& merged(f).ordered_frame_index == ins[0].ordered_frame_index
            &&& merged(f).flags == ins[0].flags & 224
        }),
{
    let n = frames.len();
    let ins = order.map_values(|j: int| frames[j]);
    assert(0 <= order[0] < n);
    assert(ins[0] == frames[order[0]]);
    assert(frames[order[0]].fragment_index == order[0]);
    let f0 = fragment_for(ins[0]);
    assert(f0.compound_size == n);
    lemma_insert_prefix(frames, order, f0, n);
    assert(ins.take(n as int) =~= ins);
    let f = insert_all(f0, ins);
    let ks = Seq::new(n, |i: int| i as u32);
    assert(ascending(ks));
    assert forall|x: u32| ks.contains(x) <==> f.frames.dom().contains(x) by {
        if ks.contains(x) {
            let i = choose|i: int| 0 <= i < n && ks[i] == x;
            lemma_order_covers(order, n, i);
            assert(f.frames.contains_key(x));
        }
        if f.frames.dom().contains(x) {
            assert(f.frames.contains_key(x));
            let j = choose|j: int| 0 <= j < n && #[trigger] order[j] == x;
            assert(0 <= order[j] < n);
            assert(ks[x as int] == x);
        }
    }
    lemma_sorted_keys_is(ks, f.frames.dom());
    assert forall|x: u32| 0 <= x < n implies #[trigger] f.frames.contains_key(x) && f.frames[x]
        == frames[x as int] by {
        assert(ks[x as int] == x);
        assert(ks.contains(x));
    }
    lemma_concat_numbered(frames, f.frames, n);
    assert(ks.take(n as int) =~= ks);
    assert(frames.take(n as int) =~= frames);
}

proof fn lemma_concat_numbered(frames: Seq<FrameSetPacket>, m: Map<u32, FrameSetPacket>, k: nat)
    requires
        k <= frames.len() <= u32::MAX,
        forall|x: u32| 0 <= x < frames.len() ==> #[trigger] m.contains_key(x) && m[x] == frames[x as int],
    ensures
        concat_data(m, Seq::new(frames.len(), |i: int| i as u32).take(k as int)) == concat_payloads(
            frames.take(k as int),
        ),
    decreases k,
{
    let ks = Seq::new(frames.len(), |i: int| i as u32);
    if k == 0 {
        assert(ks.take(0) =~= Seq::<u32>::empty());
        assert(frames.take(0) =~= Seq::<FrameSetPacket>::empty());
    } else {
        lemma_concat_numbered(frames, m, (k - 1) as nat);
        assert(ks.take(k as int).drop_last() =~= ks.take(k - 1));
        assert(frames.take(k as int).drop_last() =~= frames.take(k - 1));
        assert(ks.take(k as int).last() == (k - 1) as u32);
        assert(m.contains_key((k - 1) as u32));
        assert(m[(k - 1) as u32] == frames[k - 1]);
    }
}

} // verus!
