use vstd::prelude::*;
use crate::types::{FullHash, HeaderEntry, BlockId, blockid_of, hash_eq};

verus! {

/// Heights run from 0 and each entry's `prev` is the hash of the entry below it.
pub open spec fn is_chain(s: Seq<HeaderEntry>) -> bool {
    &&& forall|i: int| 0 <= i < s.len() ==> (#[trigger] s[i]).height == i
    &&& forall|i: int| 0 < i < s.len() ==> (#[trigger] s[i].prev)@ == s[i - 1].hash@
}

/// A run of headers that follow one another: consecutive heights, each linked to the one before.
pub open spec fn is_run(s: Seq<HeaderEntry>) -> bool {
    &&& forall|i: int| 0 < i < s.len() ==> (#[trigger] s[i].height) == s[i - 1].height + 1
    &&& forall|i: int| 0 < i < s.len() ==> (#[trigger] s[i].prev)@ == s[i - 1].hash@
}

/// Whether `run` can be laid over the chain `s`: it starts at or below the
/// height just past the tip and links to the entry beneath it.
pub open spec fn connects(s: Seq<HeaderEntry>, run: Seq<HeaderEntry>) -> bool {
    run.len() > 0 ==> {
        &&& run[0].height <= s.len()
        &&& run[0].height > 0 ==> run[0].prev@ == s[run[0].height - 1].hash@
    }
}

/// The chain after laying `run` over `s`: the diverging suffix is dropped.
pub open spec fn applied(s: Seq<HeaderEntry>, run: Seq<HeaderEntry>) -> Seq<HeaderEntry> {
    if run.len() == 0 {
        s
    } else {
        s.subrange(0, run[0].height as int) + run
    }
}

/// The index of the first entry with hash `h` at or after `i`, if any.
pub open spec fn pos_from(s: Seq<HeaderEntry>, h: Seq<u8>, i: int) -> Option<int>
    decreases s.len() - i,
{
    if i < 0 || i >= s.len() {
        None
    } else if s[i].hash@ == h {
        Some(i)
    } else {
        pos_from(s, h, i + 1)
    }
}

/// The index of the first entry with hash `h`, if any.
pub open spec fn position_of(s: Seq<HeaderEntry>, h: Seq<u8>) -> Option<int> {
    pos_from(s, h, 0)
}

pub proof fn lemma_pos_from(s: Seq<HeaderEntry>, h: Seq<u8>, i: int)
    requires
        0 <= i,
    ensures
        pos_from(s, h, i) matches Some(j) ==> i <= j < s.len() && s[j].hash@ == h,
        pos_from(s, h, i) is None ==> forall|j: int| i <= j < s.len() ==> (#[trigger] s[j]).hash@ != h,
    decreases s.len() - i,
{
    if i < s.len() && s[i].hash@ != h {
        lemma_pos_from(s, h, i + 1);
    }
}

/// Whether a block hash is on the best chain `s`.
pub open spec fn on_chain(s: Seq<HeaderEntry>, h: Seq<u8>) -> bool {
    exists|i: int| 0 <= i < s.len() && (#[trigger] s[i]).hash@ == h
}

/// The best-chain entry with hash `h`, if any.
#[verifier::opaque]
pub open spec fn entry_by_hash(s: Seq<HeaderEntry>, h: Seq<u8>) -> Option<HeaderEntry> {
    match position_of(s, h) {
        Some(i) => Some(s[i]),
        None => None,
    }
}

/// On a chain, the entry found for a hash stands at its own height.
pub proof fn lemma_entry_below_len(s: Seq<HeaderEntry>, h: Seq<u8>)
    requires
        is_chain(s),
        entry_by_hash(s, h) is Some,
    ensures
        entry_by_hash(s, h)->Some_0.height < s.len(),
        s[entry_by_hash(s, h)->Some_0.height as int] == entry_by_hash(s, h)->Some_0,
{
    reveal(entry_by_hash);
    lemma_pos_from(s, h, 0);
    let i = position_of(s, h)->Some_0;
    assert(s[i].height == i);
}

/// In a run, the `k`-th entry stands `k` above the first.
pub proof fn lemma_run_heights(s: Seq<HeaderEntry>, n: int)
    requires
        is_run(s),
        0 <= n <= s.len(),
    ensures
        forall|k: int| 0 <= k < n ==> (#[trigger] s[k]).height == s[0].height + k,
    decreases n,
{
    if n > 0 {
        lemma_run_heights(s, n - 1);
    }
}

/// The null hash (all zeros): the `prev` of the genesis block.
pub open spec fn is_null_hash(h: Seq<u8>) -> bool {
    h.len() == 32 && forall|i: int| 0 <= i < 32 ==> h[i] == 0u8
}

/// The index of the first stored header with hash `h` at or after `i`, if any.
pub open spec fn stored_find(stored: Seq<(FullHash, FullHash, u32)>, h: Seq<u8>, i: int) -> Option<int>
    decreases stored.len() - i,
{
    if i < 0 || i >= stored.len() {
        None
    } else if stored[i].0@ == h {
        Some(i)
    } else {
        stored_find(stored, h, i + 1)
    }
}

/// Following `prev` links from `h` through the stored headers reaches the
/// null hash within `fuel` steps.
pub open spec fn reaches_null(stored: Seq<(FullHash, FullHash, u32)>, h: Seq<u8>, fuel: nat) -> bool
    decreases fuel,
{
    if is_null_hash(h) {
        true
    } else if fuel == 0 {
        false
    } else {
        match stored_find(stored, h, 0) {
            Some(i) => reaches_null(stored, stored[i].1@, (fuel - 1) as nat),
            None => false,
        }
    }
}

/// How many of `w` are below `x`.
pub open spec fn count_lt(w: Seq<u32>, x: int) -> nat
    decreases w.len(),
{
    if w.len() == 0 {
        0
    } else {
        count_lt(w.drop_last(), x) + if (w.last() as int) < x { 1nat } else { 0nat }
    }
}

/// How many of `w` are at most `x`.
pub open spec fn count_le(w: Seq<u32>, x: int) -> nat
    decreases w.len(),
{
    if w.len() == 0 {
        0
    } else {
        count_le(w.drop_last(), x) + if (w.last() as int) <= x { 1nat } else { 0nat }
    }
}

/// `x` is the median of `w`: the element at index `len / 2` once sorted.
pub open spec fn is_median(w: Seq<u32>, x: u32) -> bool {
    w.contains(x) && count_lt(w, x as int) <= w.len() / 2 && w.len() / 2 < count_le(w, x as int)
}

/// The block times of the (up to) eleven blocks ending at `height`.
pub open spec fn mtp_window(s: Seq<HeaderEntry>, height: int) -> Seq<u32> {
    let n = if height + 1 < 11 { height + 1 } else { 11 };
    Seq::new(n as nat, |i: int| s[height + 1 - n + i].time)
}

proof fn lemma_counts_basic(w: Seq<u32>, t: int)
    ensures
        count_lt(w, t + 1) == count_le(w, t),
        count_le(w, t) > count_lt(w, t) ==> w.contains(t as u32) && 0 <= t,
        t >= u32::MAX ==> count_le(w, t) == w.len(),
        t <= 0 ==> count_lt(w, t) == 0,
        count_lt(w, t) <= count_le(w, t),
    decreases w.len(),
{
    if w.len() > 0 {
        lemma_counts_basic(w.drop_last(), t);
        if count_le(w, t) > count_lt(w, t) && !(count_le(w.drop_last(), t) > count_lt(w.drop_last(), t)) {
            assert(w.last() as int == t);
            assert(w[w.len() - 1] == w.last());
        }
        if count_le(w.drop_last(), t) > count_lt(w.drop_last(), t) {
            let j = choose|j: int| 0 <= j < w.drop_last().len() && w.drop_last()[j] == t as u32;
            assert(w[j] == t as u32);
        }
    }
}

/// Some element of a non-empty sequence is its median.
proof fn lemma_median_exists(w: Seq<u32>, t: int)
    requires
        w.len() > 0,
        0 <= t <= u32::MAX,
        count_le(w, t) > w.len() / 2,
    ensures
        exists|x: u32| is_median(w, x),
    decreases t,
{
    lemma_counts_basic(w, t);
    if count_lt(w, t) <= w.len() / 2 {
        assert(is_median(w, t as u32));
    } else {
        lemma_counts_basic(w, t - 1);
        lemma_median_exists(w, t - 1);
    }
}

fn count_below(w: &Vec<u32>, x: u32, inclusive: bool) -> (r: usize)
    ensures
        r == if inclusive { count_le(w@, x as int) } else { count_lt(w@, x as int) },
{
    let mut c: usize = 0;
    let mut j: usize = 0;
    while j < w.len()
        invariant
            0 <= j <= w@.len(),
            c <= j,
            c == if inclusive { count_le(w@.subrange(0, j as int), x as int) } else { count_lt(w@.subrange(0, j as int), x as int) },
        decreases w@.len() - j,
    {
        assert(w@.subrange(0, j + 1).drop_last() =~= w@.subrange(0, j as int));
        if (inclusive && w[j] <= x) || (!inclusive && w[j] < x) {
            c += 1;
        }
        j += 1;
    }
    assert(w@.subrange(0, w@.len() as int) =~= w@);
    c
}

/// The in-memory best chain of block headers.
pub struct HeaderList {
    pub headers: Vec<HeaderEntry>,
}

/// Whether the block status is "confirmed at `height`, followed by `next_best`" or "orphaned".
#[derive(Clone, Copy, Debug)]
pub struct BlockStatus {
    pub in_best_chain: bool,
    pub height: Option<usize>,
    pub next_best: Option<FullHash>,
}

impl HeaderList {
    pub open spec fn view(&self) -> Seq<HeaderEntry> {
        self.headers@
    }

    pub open spec fn wf(&self) -> bool {
        is_chain(self.headers@)
    }

    pub fn empty() -> (r: Self)
        ensures
            r@.len() == 0,
            r.wf(),
    {
        HeaderList { headers: Vec::new() }
    }

    pub fn len(&self) -> (r: usize)
        ensures
            r == self@.len(),
    {
        self.headers.len()
    }

    /// The hash of the tip; all zeros for an empty list.
    pub fn tip(&self) -> (r: FullHash)
        ensures
            self@.len() > 0 ==> r == self@.last().hash,
            self@.len() == 0 ==> forall|i: int| 0 <= i < 32 ==> r@[i] == 0u8,
    {
        if self.headers.len() == 0 {
            [0u8; 32]
        } else {
            self.headers[self.headers.len() - 1].hash
        }
    }

    pub fn header_by_height(&self, height: usize) -> (r: Option<HeaderEntry>)
        ensures
            height < self@.len() ==> r == Some(self@[height as int]),
            height >= self@.len() ==> r is None,
    {
        if height < self.headers.len() {
            Some(self.headers[height])
        } else {
            None
        }
    }

    /// The entry with this hash, only if it is on the best chain.
    pub fn header_by_blockhash(&self, hash: &FullHash) -> (r: Option<HeaderEntry>)
        ensures
            r == entry_by_hash(self@, hash@),
            r is Some <==> on_chain(self@, hash@),
            r matches Some(e) ==> exists|i: int| 0 <= i < self@.len() && self@[i] == e,
    {
        let mut i: usize = 0;
        while i < self.headers.len()
            invariant
                0 <= i <= self@.len(),
                forall|j: int| 0 <= j < i ==> (#[trigger] self@[j]).hash@ != hash@,
                position_of(self@, hash@) == pos_from(self@, hash@, i as int),
            decreases self@.len() - i,
        {
            if hash_eq(&self.headers[i].hash, hash) {
                proof {
                    reveal(entry_by_hash);
                }
                return Some(self.headers[i]);
            }
            i += 1;
        }
        proof {
            reveal(entry_by_hash);
        }
        None
    }

    pub fn blockid_by_height(&self, height: usize) -> (r: Option<BlockId>)
        ensures
            height < self@.len() ==> r == Some(blockid_of(self@[height as int])),
            height >= self@.len() ==> r is None,
    {
        match self.header_by_height(height) {
            Some(e) => Some(BlockId { height: e.height, hash: e.hash, time: e.time }),
            None => None,
        }
    }

    /// `None` for a hash that is not on the best chain.
    pub fn blockid_by_hash(&self, hash: &FullHash) -> (r: Option<BlockId>)
        ensures
            match entry_by_hash(self@, hash@) {
                Some(e) => r == Some(blockid_of(e)),
                None => r is None,
            },
    {
        match self.header_by_blockhash(hash) {
            Some(e) => Some(BlockId { height: e.height, hash: e.hash, time: e.time }),
            None => None,
        }
    }

    pub fn height_by_hash(&self, hash: &FullHash) -> (r: Option<usize>)
        ensures
            match entry_by_hash(self@, hash@) {
                Some(e) => r == Some(e.height),
                None => r is None,
            },
    {
        match self.header_by_blockhash(hash) {
            Some(e) => Some(e.height),
            None => None,
        }
    }

    /// Confirmed (with the next best-chain hash, if any) for a best-chain
    /// block, orphaned otherwise.
    pub fn get_block_status(&self, hash: &FullHash) -> (r: BlockStatus)
        requires
            self.wf(),
        ensures
            match entry_by_hash(self@, hash@) {
                Some(e) => {
                    &&& r.in_best_chain
                    &&& r.height == Some(e.height)
                    &&& (e.height + 1 < self@.len() ==> r.next_best == Some(self@[e.height + 1].hash))
                    &&& (e.height + 1 >= self@.len() ==> r.next_best is None)
                },
                None => !r.in_best_chain && r.height is None && r.next_best is None,
            },
    {
        match self.header_by_blockhash(hash) {
            Some(e) => {
                proof {
                    let i = choose|i: int| 0 <= i < self@.len() && self@[i] == e;
                    assert(self@[i].height == i);
                    assert(e.height < self@.len());
                }
                let n = self.headers.len();
                let next = if e.height + 1 < n {
                    Some(self.headers[e.height + 1].hash)
                } else {
                    None
                };
                BlockStatus { in_best_chain: true, height: Some(e.height), next_best: next }
            },
            None => BlockStatus { in_best_chain: false, height: None, next_best: None },
        }
    }

    /// Lays a run of new headers over the chain: a suffix that diverges from
    /// the run (a reorganisation) is dropped first.
    pub fn apply(&mut self, new_headers: Vec<HeaderEntry>)
        requires
            old(self).wf(),
            is_run(new_headers@),
            connects(old(self)@, new_headers@),
        ensures
            final(self)@ == applied(old(self)@, new_headers@),
            final(self).wf(),
            new_headers@.len() > 0 ==> final(self)@.last().hash == new_headers@.last().hash,
    {
        if new_headers.len() == 0 {
            return;
        }
        let start = new_headers[0].height;
        self.headers.truncate(start);
        let ghost base = self.headers@;
        let mut i: usize = 0;
        while i < new_headers.len()
            invariant
                0 <= i <= new_headers@.len(),
                new_headers@.len() > 0,
                start == new_headers@[0].height,
                start <= old(self)@.len(),
                base == old(self)@.subrange(0, start as int),
                self.headers@ == base + new_headers@.subrange(0, i as int),
                is_run(new_headers@),
            decreases new_headers@.len() - i,
        {
            self.headers.push(new_headers[i]);
            assert(new_headers@.subrange(0, i + 1) =~= new_headers@.subrange(0, i as int).push(
                new_headers@[i as int],
            ));
            i += 1;
        }
        assert(new_headers@.subrange(0, new_headers@.len() as int) =~= new_headers@);
        proof {
            crate::laws::lemma_apply_keeps_chain(old(self)@, new_headers@);
        }
    }

    /// Median time past: the median of the block times of the (up to)
    /// eleven blocks ending at `height`.
    pub fn get_mtp(&self, height: usize) -> (r: u32)
        requires
            height < self@.len(),
        ensures
            is_median(mtp_window(self@, height as int), r),
    {
        let len = self.headers.len();
        assert(height < len);
        let n: usize = if height + 1 < 11 { height + 1 } else { 11 };
        let first = height + 1 - n;
        let ghost w = mtp_window(self@, height as int);
        let mut times: Vec<u32> = Vec::new();
        let mut i: usize = 0;
        while i < n
            invariant
                0 <= i <= n,
                n == w.len(),
                first + n == height + 1,
                height < self@.len(),
                w == mtp_window(self@, height as int),
                times@ == w.subrange(0, i as int),
            decreases n - i,
        {
            times.push(self.headers[first + i].time);
            assert(times@ =~= w.subrange(0, i + 1));
            i += 1;
        }
        assert(times@ =~= w);
        proof {
            lemma_counts_basic(w, u32::MAX as int);
            lemma_median_exists(w, u32::MAX as int);
        }
        let mut k: usize = 0;
        while k < n
            invariant
                0 <= k <= n,
                n == w.len(),
                times@ == w,
                w == mtp_window(self@, height as int),
                forall|j: int| 0 <= j < k ==> !is_median(w, #[trigger] w[j]),
            decreases n - k,
        {
            let x = times[k];
            let lt = count_below(&times, x, false);
            let le = count_below(&times, x, true);
            if lt <= n / 2 && n / 2 < le {
                assert(w[k as int] == x);
                assert(w.contains(x));
                assert(is_median(w, x));
                return x;
            }
            assert(!is_median(w, w[k as int]));
            k += 1;
        }
        proof {
            let x = choose|x: u32| is_median(w, x);
            let j = choose|j: int| 0 <= j < w.len() && w[j] == x;
            assert(!is_median(w, w[j]));
        }
        times[0]
    }

    /// Rebuilds the best chain from stored headers `(hash, prev, time)` by
    /// following `prev` links back from `tip` to the null hash. `None` when a
    /// header on the way is missing or the links do not end.
    pub fn from_stored(stored: &Vec<(FullHash, FullHash, u32)>, tip: FullHash) -> (r: Option<HeaderList>)
        ensures
            r matches Some(list) ==> {
                &&& list.wf()
                &&& (is_null_hash(tip@) <==> list@.len() == 0)
                &&& list@.len() > 0 ==> list@.last().hash@ == tip@ && is_null_hash(list@[0].prev@)
                &&& forall|i: int| 0 <= i < list@.len() ==> #[trigger] stored@.contains(
                    (list@[i].hash, list@[i].prev, list@[i].time),
                )
            },
            r is Some <==> reaches_null(stored@, tip@, stored@.len()),
    {
        let zero: FullHash = [0u8; 32];
        assert(is_null_hash(zero@));
        let mut chain: Vec<(FullHash, FullHash, u32)> = Vec::new();
        let mut cur = tip;
        let mut steps: usize = 0;
        while !hash_eq(&cur, &zero)
            invariant
                steps == chain@.len(),
                steps <= stored@.len(),
                is_null_hash(zero@),
                chain@.len() == 0 ==> cur == tip,
                chain@.len() > 0 ==> chain@[0].0@ == tip@ && cur == chain@.last().1 && !is_null_hash(tip@),
                forall|k: int| 0 < k < chain@.len() ==> (#[trigger] chain@[k]).0@ == chain@[k - 1].1@,
                forall|k: int| 0 <= k < chain@.len() ==> stored@.contains(#[trigger] chain@[k]),
                reaches_null(stored@, tip@, stored@.len()) == reaches_null(stored@, cur@, (stored@.len() - steps) as nat),
            decreases stored@.len() - steps,
        {
            assert(!is_null_hash(cur@)) by {
                if is_null_hash(cur@) {
                    assert(cur@ =~= zero@);
                }
            }
            if steps >= stored.len() {
                return None;
            }
            let mut idx: usize = 0;
            while idx < stored.len() && !hash_eq(&stored[idx].0, &cur)
                invariant
                    0 <= idx <= stored@.len(),
                    stored_find(stored@, cur@, 0) == stored_find(stored@, cur@, idx as int),
                decreases stored@.len() - idx,
            {
                idx += 1;
            }
            if idx == stored.len() {
                return None;
            }
            let found = stored[idx];
            let ghost prev_chain = chain@;
            chain.push(found);
            assert(stored@.contains(found)) by {
                assert(stored@[idx as int] == found);
            }
            assert forall|k: int| 0 <= k < chain@.len() implies stored@.contains(#[trigger] chain@[k]) by {
                if k < prev_chain.len() {
                    assert(chain@[k] == prev_chain[k]);
                }
            }
            cur = found.1;
            steps += 1;
        }
        assert(is_null_hash(cur@)) by {
            assert(cur@ == zero@);
        }
        let n = chain.len();
        let mut headers: Vec<HeaderEntry> = Vec::new();
        let mut i: usize = 0;
        while i < n
            invariant
                0 <= i <= n,
                n == chain@.len(),
                headers@.len() == i,
                forall|k: int| 0 < k < chain@.len() ==> (#[trigger] chain@[k]).0@ == chain@[k - 1].1@,
                forall|k: int| 0 <= k < i ==> (#[trigger] headers@[k]) == (HeaderEntry {
                    height: k as usize,
                    hash: chain@[n - 1 - k].0,
                    prev: chain@[n - 1 - k].1,
                    time: chain@[n - 1 - k].2,
                }),
            decreases n - i,
        {
            let (hash, prev, time) = chain[n - 1 - i];
            headers.push(HeaderEntry { height: i, hash, prev, time });
            i += 1;
        }
        let list = HeaderList { headers };
        assert(list.wf()) by {
            assert forall|k: int| 0 < k < list@.len() implies (#[trigger] list@[k].prev)@ == list@[k - 1].hash@ by {
                assert(list@[k].prev == chain@[n - 1 - k].1);
                assert(list@[k - 1].hash == chain@[n - k].0);
                assert(chain@[n - k].0@ == chain@[n - k - 1].1@);
            }
        }
        assert forall|k: int| 0 <= k < list@.len() implies #[trigger] stored@.contains(
            (list@[k].hash, list@[k].prev, list@[k].time),
        ) by {
            assert(chain@[n - 1 - k] == (list@[k].hash, list@[k].prev, list@[k].time));
        }
        proof {
            if n > 0 {
                assert(list@.last() == list@[n - 1]);
                assert(list@[0].prev == chain@[n - 1].1);
                assert(!is_null_hash(tip@)) by {
                    assert(chain@[0].0@ == tip@);
                }
            } else {
                assert(is_null_hash(tip@));
            }
        }
        Some(list)
    }
}

} // verus!
