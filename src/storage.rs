//! Text buffers keyed by drawing rank, serialized in ascending rank order.

use vstd::prelude::*;
use vstd::utf8::encode_utf8;

use crate::text::{byte_len, lemma_encode_concat, push_char, saturating, utf8_len};

verus! {

/// The text of all ranks below `k`, concatenated in ascending rank order.
pub open spec fn text_below(m: Map<u16, Seq<char>>, k: nat) -> Seq<char>
    decreases k,
{
    if k == 0 {
        Seq::empty()
    } else {
        let r = (k - 1) as u16;
        text_below(m, (k - 1) as nat) + if m.contains_key(r) {
            m[r]
        } else {
            Seq::empty()
        }
    }
}

/// The text of every rank, in ascending rank order, with no separators.
pub open spec fn ordered_text(m: Map<u16, Seq<char>>) -> Seq<char> {
    text_below(m, 0x1_0000)
}

/// Text below `k` of a map with no ranks is empty.
proof fn lemma_nothing_below(m: Map<u16, Seq<char>>, k: nat)
    requires
        m.dom() == Set::<u16>::empty(),
    ensures
        text_below(m, k) == Seq::<char>::empty(),
    decreases k,
{
    if k > 0 {
        lemma_nothing_below(m, (k - 1) as nat);
        assert(!m.contains_key((k - 1) as u16));
        assert(text_below(m, k) =~= Seq::<char>::empty());
    }
}

/// Giving rank `r` a text `d` bytes longer makes the text of every rank
/// range that holds `r` `d` bytes longer.
proof fn lemma_below_grows(m: Map<u16, Seq<char>>, r: u16, v: Seq<char>, d: nat, k: nat)
    requires
        k <= 0x1_0000,
        byte_len(v) == d + if m.contains_key(r) {
            byte_len(m[r])
        } else {
            0
        },
    ensures
        byte_len(text_below(m.insert(r, v), k)) == byte_len(text_below(m, k)) + if k > r {
            d
        } else {
            0
        },
    decreases k,
{
    if k > 0 {
        let j = (k - 1) as u16;
        let m2 = m.insert(r, v);
        lemma_below_grows(m, r, v, d, (k - 1) as nat);
        let p = if m.contains_key(j) { m[j] } else { Seq::<char>::empty() };
        let p2 = if m2.contains_key(j) { m2[j] } else { Seq::<char>::empty() };
        lemma_encode_concat(text_below(m, (k - 1) as nat), p);
        lemma_encode_concat(text_below(m2, (k - 1) as nat), p2);
        assert(byte_len(Seq::<char>::empty()) == 0);
    }
}

/// Ranks that are not in use add no text.
proof fn lemma_gap_free(m: Map<u16, Seq<char>>, lo: nat, hi: nat)
    requires
        lo <= hi <= 0x1_0000,
        forall|r: u16| lo <= r < hi ==> !m.contains_key(r),
    ensures
        text_below(m, hi) == text_below(m, lo),
    decreases hi - lo,
{
    if hi > lo {
        lemma_gap_free(m, lo, (hi - 1) as nat);
        assert(!m.contains_key((hi - 1) as u16));
        assert(text_below(m, hi) =~= text_below(m, (hi - 1) as nat));
    }
}

/// The texts of `ranks`, concatenated in the order of the list.
pub open spec fn texts_of(m: Map<u16, Seq<char>>, ranks: Seq<u16>) -> Seq<char>
    decreases ranks.len(),
{
    if ranks.len() == 0 {
        Seq::empty()
    } else {
        texts_of(m, ranks.drop_last()) + m[ranks.last()]
    }
}

/// The text of the first `n` ranks of the list is the text below the n-th.
proof fn lemma_prefix_text(m: Map<u16, Seq<char>>, ranks: Seq<u16>, n: int)
    requires
        0 <= n <= ranks.len(),
        forall|i: int, j: int| 0 <= i < j < ranks.len() ==> ranks[i] < ranks[j],
        forall|r: u16| m.contains_key(r) <==> ranks.contains(r),
    ensures
        text_below(m, if n == 0 { 0 } else { (ranks[n - 1] + 1) as nat }) == texts_of(
            m,
            ranks.take(n),
        ),
    decreases n,
{
    if n > 0 {
        lemma_prefix_text(m, ranks, n - 1);
        let lo: nat = if n == 1 { 0 } else { (ranks[n - 2] + 1) as nat };
        let r = ranks[n - 1];
        assert forall|q: u16| lo <= q < r implies !m.contains_key(q) by {
            if m.contains_key(q) {
                assert(ranks.contains(q));
                let j = choose|j: int| 0 <= j < ranks.len() && ranks[j] == q;
                if j < n - 2 {
                    assert(ranks[j] < ranks[n - 2]);
                } else if j > n - 1 {
                    assert(ranks[n - 1] < ranks[j]);
                }
            }
        }
        if n > 1 {
            assert(ranks[n - 2] < r);
        }
        assert(m.contains_key(r)) by {
            assert(ranks[n - 1] == r);
            assert(ranks.contains(r));
        }
        lemma_gap_free(m, lo, r as nat);
        assert(ranks.take(n).drop_last() =~= ranks.take(n - 1));
        assert(ranks.take(n).last() == r);
    }
}

/// The text of a storage model lists the texts of its ranks in ascending
/// order, whatever order they were written in: for the ranks in use,
/// listed in strictly ascending order, it is their texts one after another.
pub proof fn lemma_ordered_text_ascending(m: Map<u16, Seq<char>>, ranks: Seq<u16>)
    requires
        forall|i: int, j: int| 0 <= i < j < ranks.len() ==> ranks[i] < ranks[j],
        forall|r: u16| m.contains_key(r) <==> ranks.contains(r),
    ensures
        ordered_text(m) == texts_of(m, ranks),
{
    let n = ranks.len() as int;
    lemma_prefix_text(m, ranks, n);
    assert(ranks.take(n) =~= ranks);
    let lo: nat = if n == 0 { 0 } else { (ranks[n - 1] + 1) as nat };
    assert forall|q: u16| lo <= q < 0x1_0000 implies !m.contains_key(q) by {
        if m.contains_key(q) {
            assert(ranks.contains(q));
            let j = choose|j: int| 0 <= j < ranks.len() && ranks[j] == q;
            if j < n - 1 {
                assert(ranks[j] < ranks[n - 1]);
            }
        }
    }
    lemma_gap_free(m, lo, 0x1_0000);
}

/// Relies on `String::with_capacity`: it returns an empty string.
#[verifier::external_body]
fn text_with_capacity(capacity: usize) -> (r: String)
    ensures
        r@ == Seq::<char>::empty(),
{
    String::with_capacity(capacity)
}

/// Stores the visualization of a map tile, one text per sort rank.
///
/// Features of a low rank are painted first; features of higher ranks are
/// painted later and may cover them. Text can be added to any rank in any
/// order; serializing the storage visits the ranks in ascending order.
pub struct Storage {
    /// One entry per rank in use, in strictly ascending rank order. A sorted
    /// vector rather than a `BTreeMap`: appending to a rank's text in place
    /// needs `BTreeMap::get_mut`, which has no specification to verify
    /// against, while `Vec` indexing does.
    data: Vec<(u16, String)>,
    /// Total length of all texts, used to allocate the result once.
    size: usize,
    model: Ghost<Map<u16, Seq<char>>>,
}

impl View for Storage {
    type V = Map<u16, Seq<char>>;

    closed spec fn view(&self) -> Map<u16, Seq<char>> {
        self.model@
    }
}

impl Storage {
    /// The running count of bytes written, kept to allocate the serialized
    /// text once.
    pub closed spec fn size(&self) -> usize {
        self.size
    }

    /// The counter holds the byte length of the serialized text, or
    /// `usize::MAX` where that does not fit.
    pub proof fn lemma_size_is_total(&self)
        requires
            self.wf(),
        ensures
            self.size() == saturating(byte_len(ordered_text(self@)) as int),
    {
    }

    /// The entries are sorted by rank and hold exactly the texts of the model.
    pub closed spec fn wf(&self) -> bool {
        &&& self.size == saturating(byte_len(ordered_text(self.model@)) as int)
        &&& forall|i: int, j: int|
            0 <= i < j < self.data@.len() ==> self.data@[i].0 < self.data@[j].0
        &&& forall|i: int|
            0 <= i < self.data@.len() ==> {
                &&& #[trigger] self.model@.contains_key(self.data@[i].0)
                &&& self.model@[self.data@[i].0] == self.data@[i].1@
            }
        &&& forall|r: u16|
            #![trigger self.model@.contains_key(r)]
            self.model@.contains_key(r) ==> exists|i: int|
                0 <= i < self.data@.len() && self.data@[i].0 == r
    }

    /// Creates a new, empty storage.
    pub fn new() -> (s: Storage)
        ensures
            s.wf(),
            s@ == Map::<u16, Seq<char>>::empty(),
            s.size() == 0,
    {
        let s = Storage { data: Vec::new(), size: 0, model: Ghost(Map::empty()) };
        proof {
            lemma_nothing_below(s.model@, 0x1_0000);
            assert(encode_utf8(Seq::<char>::empty()).len() == 0);
        }
        s
    }

    /// The index of the first entry whose rank is not below `rank`.
    fn position(&self, rank: u16) -> (i: usize)
        requires
            self.wf(),
        ensures
            i <= self.data@.len(),
            forall|j: int| 0 <= j < i ==> self.data@[j].0 < rank,
            i < self.data@.len() ==> self.data@[i as int].0 >= rank,
    {
        let mut i: usize = 0;
        while i < self.data.len() && self.data[i].0 < rank
            invariant
                self.wf(),
                i <= self.data@.len(),
                forall|j: int| 0 <= j < i ==> self.data@[j].0 < rank,
            decreases self.data@.len() - i,
        {
            i = i + 1;
        }
        i
    }

    /// Selects a sort rank and returns it for editing.
    ///
    /// If there is no text for the given rank yet, an empty one is created.
    pub fn select(&mut self, sort_rank: u16) -> (ret: Rank<'_>)
        requires
            old(self).wf(),
        ensures
            ret.wf(),
            ret.rank() == sort_rank,
            ret.storage()@ == if old(self)@.contains_key(sort_rank) {
                old(self)@
            } else {
                old(self)@.insert(sort_rank, Seq::empty())
            },
            ret.storage().size() == old(self).size(),
            *final(self) == *final(ret.target()),
    {
        let i = self.position(sort_rank);
        if i == self.data.len() || self.data[i].0 != sort_rank {
            let ghost old_data = self.data@;
            self.data.insert(i, (sort_rank, String::new()));
            let ghost m0 = self.model@;
            assert(byte_len(ordered_text(m0.insert(sort_rank, Seq::empty()))) == byte_len(
                ordered_text(m0),
            )) by {
                assert(encode_utf8(Seq::<char>::empty()).len() == 0);
                lemma_below_grows(m0, sort_rank, Seq::empty(), 0, 0x1_0000);
            }
            self.model = Ghost(self.model@.insert(sort_rank, Seq::empty()));
            assert forall|a: int, b: int|
                0 <= a < b < self.data@.len() implies self.data@[a].0 < self.data@[b].0 by {
                if b < i {
                } else if a < i && b == i {
                } else if a < i {
                    assert(old_data[b - 1].0 >= sort_rank);
                } else if a == i {
                    assert(old_data[b - 1].0 >= sort_rank);
                    assert(old_data[b - 1].0 != sort_rank) by {
                        assert(old_data[i as int].0 >= sort_rank);
                        if b - 1 > i {
                            assert(old_data[i as int].0 < old_data[b - 1].0);
                        }
                    }
                }
            }
            assert forall|r: u16| #[trigger] self.model@.contains_key(r) implies exists|j: int|
                0 <= j < self.data@.len() && self.data@[j].0 == r by {
                if r == sort_rank {
                    assert(self.data@[i as int].0 == r);
                } else {
                    let j = choose|j: int| 0 <= j < old_data.len() && old_data[j].0 == r;
                    if j < i {
                        assert(self.data@[j].0 == r);
                    } else {
                        assert(self.data@[j + 1].0 == r);
                    }
                }
            }
            assert forall|j: int| 0 <= j < self.data@.len() implies {
                &&& #[trigger] self.model@.contains_key(self.data@[j].0)
                &&& self.model@[self.data@[j].0] == self.data@[j].1@
            } by {
                if j < i {
                    assert(self.data@[j] == old_data[j]);
                    assert(old(self).model@.contains_key(old_data[j].0));
                    assert(old_data[j].0 < sort_rank);
                } else if j > i {
                    assert(self.data@[j] == old_data[j - 1]);
                    assert(old(self).model@.contains_key(old_data[j - 1].0));
                    assert(old_data[j - 1].0 >= sort_rank);
                    if j - 1 > i {
                        assert(old_data[i as int].0 < old_data[j - 1].0);
                    } else {
                        assert(old_data[i as int].0 != sort_rank);
                    }
                }
            }
        }
        Rank { store: self, rank: sort_rank }
    }

    /// Concatenates the texts of all ranks in ascending rank order.
    pub fn finalize(self) -> (s: String)
        requires
            self.wf(),
        ensures
            s@ == ordered_text(self@),
            self.size() == saturating(byte_len(s@) as int),
    {
        self.concatenate()
    }

    /// The texts of the entries in their order.
    fn concatenate(self) -> (s: String)
        ensures
            self.wf() ==> s@ == ordered_text(self@),
            self.wf() ==> self.size() == saturating(byte_len(s@) as int),
    {
        let mut s = text_with_capacity(self.size);
        let mut i: usize = 0;
        while i < self.data.len()
            invariant
                i <= self.data@.len(),
                self.wf() ==> s@ == text_below(self@, if i == 0 { 0 } else { (self.data@[i - 1].0 + 1) as nat }),
            decreases self.data@.len() - i,
        {
            proof {
                if self.wf() {
                    let lo: nat = if i == 0 { 0 } else { (self.data@[i - 1].0 + 1) as nat };
                    self.lemma_gap(i as int, lo);
                }
            }
            s.append(self.data[i].1.as_str());
            i = i + 1;
        }
        proof {
            if self.wf() {
                let lo: nat = if i == 0 { 0 } else { (self.data@[i - 1].0 + 1) as nat };
                lemma_gap_free(self@, lo, 0x1_0000);
            }
        }
        s
    }

    /// Between the previous entry and entry `i` no rank is in use, so the
    /// text up to and including entry `i` adds only that entry's text.
    proof fn lemma_gap(&self, i: int, lo: nat)
        requires
            self.wf(),
            0 <= i < self.data@.len(),
            lo == if i == 0 { 0 } else { (self.data@[i - 1].0 + 1) as nat },
        ensures
            text_below(self@, (self.data@[i].0 + 1) as nat) == text_below(self@, lo)
                + self.data@[i].1@,
    {
        let hi = self.data@[i].0;
        if i > 0 {
            assert(self.data@[i - 1].0 < hi);
        }
        lemma_gap_free(self@, lo, hi as nat);
    }
}

/// One sort rank of a storage, selected for editing.
///
/// While a rank is selected its storage is borrowed, so only one rank can
/// be edited at any time.
pub struct Rank<'a> {
    store: &'a mut Storage,
    rank: u16,
}

impl<'a> Rank<'a> {
    /// The rank being edited.
    pub closed spec fn rank(&self) -> u16 {
        self.rank
    }

    /// The storage as it stands now.
    pub closed spec fn storage(&self) -> Storage {
        *self.store
    }

    /// The borrow of the storage.
    pub closed spec fn target(&self) -> &'a mut Storage {
        self.store
    }

    /// The storage is well formed and holds the selected rank.
    pub open spec fn wf(&self) -> bool {
        self.storage().wf() && self.storage()@.contains_key(self.rank())
    }

    /// Ends the editing of the rank: the storage is left as the handle
    /// last saw it.
    pub fn release(self)
        ensures
            *final(self.target()) == self.storage(),
    {
    }

    /// Push a single char to the end of the rank's text.
    pub fn push(&mut self, c: char)
        requires
            old(self).wf(),
        ensures
            final(self).wf(),
            final(self).rank() == old(self).rank(),
            final(self).storage()@ == old(self).storage()@.insert(
                old(self).rank(),
                old(self).storage()@[old(self).rank()].push(c),
            ),
            final(self).storage().size() == saturating(
                old(self).storage().size() + byte_len(seq![c]),
            ),
            *final(final(self).target()) == *final(old(self).target()),
    {
        let i = self.entry();
        let ghost old_data = self.store.data@;
        let ghost m = self.store.model@;
        push_char(&mut self.store.data[i].1, c);
        let n = utf8_len(c);
        self.store.size = self.store.size.saturating_add(n);
        proof {
            lemma_encode_concat(m[self.rank], seq![c]);
            assert(m[self.rank].push(c) =~= m[self.rank] + seq![c]);
            lemma_below_grows(m, self.rank, m[self.rank].push(c), n as nat, 0x1_0000);
        }
        self.store.model = Ghost(
            self.store.model@.insert(self.rank, self.store.model@[self.rank].push(c)),
        );
        proof {
            self.lemma_updated(old_data, i as int);
        }
    }

    /// Push a string to the end of the rank's text.
    pub fn push_str(&mut self, s: &str)
        requires
            old(self).wf(),
        ensures
            final(self).wf(),
            final(self).rank() == old(self).rank(),
            final(self).storage()@ == old(self).storage()@.insert(
                old(self).rank(),
                old(self).storage()@[old(self).rank()] + s@,
            ),
            final(self).storage().size() == saturating(
                old(self).storage().size() + byte_len(s@),
            ),
            *final(final(self).target()) == *final(old(self).target()),
    {
        let i = self.entry();
        let ghost old_data = self.store.data@;
        let ghost m = self.store.model@;
        self.store.data[i].1.append(s);
        let n = s.as_bytes().len();
        self.store.size = self.store.size.saturating_add(n);
        proof {
            lemma_encode_concat(m[self.rank], s@);
            lemma_below_grows(m, self.rank, m[self.rank] + s@, byte_len(s@), 0x1_0000);
        }
        self.store.model = Ghost(
            self.store.model@.insert(self.rank, self.store.model@[self.rank] + s@),
        );
        proof {
            self.lemma_updated(old_data, i as int);
        }
    }

    /// The index of the selected rank's entry.
    fn entry(&self) -> (i: usize)
        requires
            self.wf(),
        ensures
            i < self.storage().data@.len(),
            self.storage().data@[i as int].0 == self.rank,
    {
        let i = self.store.position(self.rank);
        proof {
            let j = choose|j: int|
                0 <= j < self.store.data@.len() && self.store.data@[j].0 == self.rank;
            if j < i {
            } else if j > i {
                assert(self.store.data@[i as int].0 < self.store.data@[j].0);
            }
        }
        i
    }

    /// After entry `i`, the selected one, got a new text that the model
    /// records, the storage is well formed again.
    proof fn lemma_updated(&self, old_data: Seq<(u16, String)>, i: int)
        requires
            0 <= i < old_data.len(),
            old_data[i].0 == self.rank,
            self.store.data@.len() == old_data.len(),
            self.store.data@[i].0 == self.rank,
            forall|j: int| 0 <= j < old_data.len() && j != i ==> self.store.data@[j] == old_data[j],
            forall|a: int, b: int| 0 <= a < b < old_data.len() ==> old_data[a].0 < old_data[b].0,
            forall|j: int|
                0 <= j < old_data.len() && j != i ==> {
                    &&& #[trigger] self.store.model@.contains_key(old_data[j].0)
                    &&& self.store.model@[old_data[j].0] == old_data[j].1@
                },
            self.store.model@.contains_key(self.rank),
            self.store.model@[self.rank] == self.store.data@[i].1@,
            self.store.size == saturating(byte_len(ordered_text(self.store.model@)) as int),
            forall|r: u16|
                #![trigger self.store.model@.contains_key(r)]
                self.store.model@.contains_key(r) ==> exists|j: int|
                    0 <= j < old_data.len() && old_data[j].0 == r,
        ensures
            self.wf(),
    {
        assert forall|a: int, b: int| 0 <= a < b < self.store.data@.len() implies
            self.store.data@[a].0 < self.store.data@[b].0 by {
            assert(old_data[a].0 < old_data[b].0);
            if a != i {
                assert(self.store.data@[a] == old_data[a]);
            }
            if b != i {
                assert(self.store.data@[b] == old_data[b]);
            }
        }
        assert forall|r: u16| #[trigger] self.store.model@.contains_key(r) implies exists|j: int|
            0 <= j < self.store.data@.len() && self.store.data@[j].0 == r by {
            let j = choose|j: int| 0 <= j < old_data.len() && old_data[j].0 == r;
            if j != i {
                assert(self.store.data@[j].0 == r);
            }
        }
        assert forall|j: int| 0 <= j < self.store.data@.len() implies {
            &&& #[trigger] self.store.model@.contains_key(self.store.data@[j].0)
            &&& self.store.model@[self.store.data@[j].0] == self.store.data@[j].1@
        } by {
            if j != i {
                assert(self.store.data@[j] == old_data[j]);
            }
        }
    }
}

impl From<Storage> for String {
    /// Serializes ("paints") the storage.
    fn from(storage: Storage) -> (s: String)
        ensures
            storage.wf() ==> s@ == ordered_text(storage@),
            storage.wf() ==> storage.size() == saturating(byte_len(s@) as int),
    {
        storage.concatenate()
    }
}

impl vstd::std_specs::convert::FromSpecImpl<Storage> for String {
    open spec fn obeys_from_spec() -> bool {
        false
    }

    open spec fn from_spec(v: Storage) -> String {
        arbitrary()
    }
}

} // verus!
