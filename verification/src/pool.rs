//! Handing out audio buffers, and taking them back once nothing reads them.
use vstd::prelude::*;
use crate::error::CompileError;
use crate::ir::{Buf, MAX_BUFFERS, MAX_BUFFER_CHANNELS};

verus! {

/// The buffers of a program: how wide each is, and how many reads of it are
/// still to come.
pub struct Pool {
    pub widths: Vec<u16>,
    pub pending: Vec<usize>,
}

#[verifier::ext_equal]
pub struct PoolModel {
    pub widths: Seq<u16>,
    pub pending: Seq<usize>,
}

impl View for Pool {
    type V = PoolModel;

    open spec fn view(&self) -> PoolModel {
        PoolModel { widths: self.widths@, pending: self.pending@ }
    }
}

/// The first buffer from `at` on of that width that nobody waits for.
pub open spec fn free_from(pool: PoolModel, channels: u16, at: int) -> Option<int>
    decreases pool.widths.len() - at,
{
    if at >= pool.widths.len() {
        None
    } else if pool.pending[at] == 0 && pool.widths[at] == channels {
        Some(at)
    } else {
        free_from(pool, channels, at + 1)
    }
}

pub proof fn lemma_free_from(pool: PoolModel, channels: u16, at: int)
    requires
        0 <= at,
    ensures
        free_from(pool, channels, at) matches Some(i) ==> at <= i < pool.widths.len()
            && pool.pending[i] == 0 && pool.widths[i] == channels,
    decreases pool.widths.len() - at,
{
    if at < pool.widths.len() && !(pool.pending[at] == 0 && pool.widths[at] == channels) {
        lemma_free_from(pool, channels, at + 1);
    }
}

pub open spec fn occurs(list: Seq<Buf>, buf: int) -> bool {
    exists|i: int| 0 <= i < list.len() && #[trigger] list[i] == buf
}

/// Every buffer that was there is there, as wide as it was.
pub open spec fn keeps_widths(before: PoolModel, after: PoolModel) -> bool {
    &&& before.widths.len() <= after.widths.len()
    &&& forall|i: int|
        0 <= i < before.widths.len() ==> #[trigger] after.widths[i] == before.widths[i]
}

impl PoolModel {
    pub open spec fn wf(self) -> bool {
        &&& self.widths.len() == self.pending.len()
        &&& self.widths.len() <= MAX_BUFFERS
        &&& forall|i: int|
            0 <= i < self.widths.len() ==> #[trigger] self.widths[i] <= MAX_BUFFER_CHANNELS
    }

    /// A buffer of that width for so many reads: one that nobody waits for, or a
    /// new one.
    pub open spec fn given(self, channels: u16, readers: usize) -> Result<
        (PoolModel, Buf),
        CompileError,
    > {
        if channels > MAX_BUFFER_CHANNELS {
            Err(
                CompileError::TooLarge {
                    what: "channels in one buffer",
                    limit: MAX_BUFFER_CHANNELS,
                },
            )
        } else {
            match free_from(self, channels, 0) {
                Some(i) => Ok(
                    (PoolModel { pending: self.pending.update(i, readers), ..self }, i as Buf),
                ),
                None => if self.widths.len() >= MAX_BUFFERS {
                    Err(CompileError::TooLarge { what: "audio buffers", limit: MAX_BUFFERS })
                } else {
                    Ok(
                        (
                            PoolModel {
                                widths: self.widths.push(channels),
                                pending: self.pending.push(readers),
                            },
                            self.widths.len() as Buf,
                        ),
                    )
                },
            }
        }
    }

    /// The pool with some buffers out of reach.
    pub open spec fn hiding(self, avoid: Seq<Buf>) -> PoolModel {
        PoolModel {
            pending: Seq::new(
                self.pending.len(),
                |i: int|
                    if occurs(avoid, i) {
                        usize::MAX
                    } else {
                        self.pending[i]
                    },
            ),
            ..self
        }
    }

    /// The pool with those buffers back.
    pub open spec fn showing(self, avoid: Seq<Buf>, before: PoolModel) -> PoolModel {
        PoolModel {
            pending: Seq::new(
                self.pending.len(),
                |i: int|
                    if occurs(avoid, i) {
                        before.pending[i]
                    } else {
                        self.pending[i]
                    },
            ),
            ..self
        }
    }

    pub open spec fn given_avoiding(self, channels: u16, readers: usize, avoid: Seq<Buf>) -> Result<
        (PoolModel, Buf),
        CompileError,
    > {
        match self.hiding(avoid).given(channels, readers) {
            Err(error) => Err(error),
            Ok((pool, buf)) => Ok((pool.showing(avoid, self), buf)),
        }
    }

    /// One read of a buffer done.
    pub open spec fn consumed(self, buf: Buf) -> PoolModel {
        PoolModel {
            pending: self.pending.update(
                buf as int,
                if self.pending[buf as int] == 0 {
                    0
                } else {
                    (self.pending[buf as int] - 1) as usize
                },
            ),
            ..self
        }
    }
}

impl Pool {
    pub fn new() -> (r: Pool)
        ensures
            r@.widths == Seq::<u16>::empty(),
            r@.pending == Seq::<usize>::empty(),
            r@.wf(),
    {
        Pool { widths: Vec::new(), pending: Vec::new() }
    }

    /// Hands out a buffer that nobody waits for.
    pub fn allocate(&mut self, channels: u16, readers: usize) -> (r: Result<Buf, CompileError>)
        requires
            old(self)@.wf(),
        ensures
            final(self)@.wf(),
            match old(self)@.given(channels, readers) {
                Ok((pool, buf)) => r == Ok::<Buf, CompileError>(buf) && final(self)@ == pool && buf
                    < pool.widths.len() && pool.widths[buf as int] == channels && (buf < old(
                    self,
                )@.widths.len() ==> old(self)@.pending[buf as int] == 0),
                Err(error) => r == Err::<Buf, CompileError>(error) && final(self)@ == old(self)@,
            },
            keeps_widths(old(self)@, final(self)@),
    {
        if channels as usize > MAX_BUFFER_CHANNELS {
            return Err(
                CompileError::TooLarge {
                    what: "channels in one buffer",
                    limit: MAX_BUFFER_CHANNELS,
                },
            );
        }
        let mut at: usize = 0;
        while at < self.widths.len()
            invariant
                at <= self.widths@.len(),
                self@ == old(self)@,
                self@.wf(),
                free_from(self@, channels, 0) == free_from(self@, channels, at as int),
            decreases self.widths@.len() - at,
        {
            if self.pending[at] == 0 && self.widths[at] == channels {
                self.pending.set(at, readers);
                assert(self@ =~= (PoolModel {
                    pending: old(self)@.pending.update(at as int, readers),
                    ..old(self)@
                }));
                return Ok(at as Buf);
            }
            at += 1;
        }
        if self.widths.len() >= MAX_BUFFERS {
            return Err(CompileError::TooLarge { what: "audio buffers", limit: MAX_BUFFERS });
        }
        self.widths.push(channels);
        self.pending.push(readers);
        Ok((self.widths.len() - 1) as Buf)
    }

    /// Hands out a buffer that is none of those in `avoid`.
    pub fn alloc_avoiding(&mut self, channels: u16, readers: usize, avoid: &[Buf]) -> (r: Result<
        Buf,
        CompileError,
    >)
        requires
            old(self)@.wf(),
            forall|k: int| 0 <= k < avoid@.len() ==> #[trigger] avoid@[k] < old(self)@.widths.len(),
        ensures
            final(self)@.wf(),
            match old(self)@.given_avoiding(channels, readers, avoid@) {
                Ok((pool, buf)) => r == Ok::<Buf, CompileError>(buf) && final(self)@ == pool && buf
                    < pool.widths.len() && pool.widths[buf as int] == channels && !occurs(
                    avoid@,
                    buf as int,
                ),
                Err(error) => r == Err::<Buf, CompileError>(error) && final(self)@ == old(self)@,
            },
            keeps_widths(old(self)@, final(self)@),
    {
        let ghost before = self@;
        let mut saved: Vec<usize> = Vec::new();
        let mut k: usize = 0;
        while k < avoid.len()
            invariant
                k <= avoid@.len(),
                saved@.len() == k,
                self@.wf(),
                before.wf(),
                self@.widths == before.widths,
                forall|j: int| 0 <= j < avoid@.len() ==> #[trigger] avoid@[j] < before.widths.len(),
                forall|i: int|
                    0 <= i < before.widths.len() ==> #[trigger] self@.pending[i] == if occurs(
                        avoid@.take(k as int),
                        i,
                    ) {
                        usize::MAX
                    } else {
                        before.pending[i]
                    },
                forall|j: int|
                    0 <= j < k ==> #[trigger] saved@[j] == if occurs(
                        avoid@.take(j),
                        avoid@[j] as int,
                    ) {
                        usize::MAX
                    } else {
                        before.pending[avoid@[j] as int]
                    },
            decreases avoid@.len() - k,
        {
            let buf: usize = avoid[k] as usize;
            assert(avoid@[k as int] < before.widths.len());
            saved.push(self.pending[buf]);
            self.pending.set(buf, usize::MAX);
            proof {
                assert forall|i: int| 0 <= i < before.widths.len() implies occurs(
                    avoid@.take(k + 1),
                    i,
                ) == (occurs(avoid@.take(k as int), i) || i == buf) by {
                    lemma_occurs_more(avoid@, k as int, i);
                }
            }
            k += 1;
        }
        proof {
            assert(avoid@.take(k as int) =~= avoid@);
            assert(self@ =~= before.hiding(avoid@));
            lemma_free_from(self@, channels, 0);
        }
        let ghost hidden = self@;
        let got: Result<Buf, CompileError> = self.allocate(channels, readers);
        let ghost taken = self@;
        proof {
            assert forall|i: int| occurs(avoid@, i) implies i < taken.pending.len() && taken.pending[i]
                == usize::MAX by {
                let j = choose|j: int| 0 <= j < avoid@.len() && #[trigger] avoid@[j] == i;
                assert(avoid@[j] < before.widths.len());
                assert(hidden.pending[i] == usize::MAX);
            }
        }
        // From last to first, so that a buffer hidden twice gets back what it had
        // before it was hidden at all.
        while k > 0
            invariant
                k <= avoid@.len() == saved@.len(),
                self@.wf(),
                taken.wf(),
                self@.widths == taken.widths,
                before.widths.len() <= taken.widths.len(),
                forall|j: int| 0 <= j < avoid@.len() ==> #[trigger] avoid@[j] < before.widths.len(),
                forall|i: int|
                    occurs(avoid@, i) ==> i < taken.pending.len() && #[trigger] taken.pending[i]
                        == usize::MAX,
                forall|j: int|
                    0 <= j < avoid@.len() ==> #[trigger] saved@[j] == if occurs(
                        avoid@.take(j),
                        avoid@[j] as int,
                    ) {
                        usize::MAX
                    } else {
                        before.pending[avoid@[j] as int]
                    },
                forall|i: int|
                    0 <= i < taken.widths.len() ==> #[trigger] self@.pending[i] == if occurs(
                        avoid@,
                        i,
                    ) && !occurs(avoid@.take(k as int), i) {
                        before.pending[i]
                    } else {
                        taken.pending[i]
                    },
            decreases k,
        {
            k -= 1;
            let buf: usize = avoid[k] as usize;
            assert(avoid@[k as int] < before.widths.len());
            self.pending.set(buf, saved[k]);
            proof {
                assert forall|i: int| 0 <= i < taken.widths.len() implies occurs(
                    avoid@.take(k + 1),
                    i,
                ) == (occurs(avoid@.take(k as int), i) || i == buf) by {
                    lemma_occurs_more(avoid@, k as int, i);
                }
                assert(occurs(avoid@, buf as int)) by {
                    assert(avoid@[k as int] == buf);
                }
            }
        }
        proof {
            assert(self@ =~= taken.showing(avoid@, before));
            assert(got is Err ==> self@ =~= before);
            if got is Ok {
                let buf = got->Ok_0 as int;
                if occurs(avoid@, buf) {
                    let j = choose|j: int| 0 <= j < avoid@.len() && #[trigger] avoid@[j] == buf;
                    assert(avoid@[j] < before.widths.len());
                    assert(hidden.pending[buf] == usize::MAX);
                }
            }
        }
        got
    }

    pub fn width_of(&self, buf: Buf) -> (r: u16)
        requires
            buf < self@.widths.len(),
        ensures
            r == self@.widths[buf as int],
    {
        self.widths[buf as usize]
    }

    /// One read of a buffer is done.
    pub fn consume(&mut self, buf: Buf)
        requires
            old(self)@.wf(),
            buf < old(self)@.widths.len(),
        ensures
            final(self)@ == old(self)@.consumed(buf),
            final(self)@.wf(),
    {
        let left: usize = self.pending[buf as usize].saturating_sub(1);
        self.pending.set(buf as usize, left);
        assert(self@ =~= old(self)@.consumed(buf));
    }

    /// Whether anything but the read at hand still waits for a buffer.
    pub fn is_shared(&self, buf: Buf) -> (r: bool)
        requires
            self@.wf(),
            buf < self@.widths.len(),
        ensures
            r == (self@.pending[buf as int] > 1),
    {
        self.pending[buf as usize] > 1
    }
}

/// A buffer is never taken from its readers: what is handed out was waited for by
/// nobody, is none of those to avoid, is as wide as was asked, and nobody else's
/// buffer changes.
pub proof fn law_readers_keep_their_buffers(
    pool: PoolModel,
    channels: u16,
    readers: usize,
    avoid: Seq<Buf>,
    other: int,
)
    requires
        pool.wf(),
        forall|k: int| 0 <= k < avoid.len() ==> #[trigger] avoid[k] < pool.widths.len(),
        0 <= other < pool.widths.len(),
    ensures
        pool.given_avoiding(channels, readers, avoid) matches Ok((next, buf)) ==> {
            &&& buf < next.widths.len() && next.widths[buf as int] == channels
            &&& next.pending[buf as int] == readers
            &&& buf < pool.widths.len() ==> pool.pending[buf as int] == 0
            &&& !occurs(avoid, buf as int)
            &&& next.widths[other] == pool.widths[other]
            &&& other != buf ==> next.pending[other] == pool.pending[other]
        },
{
    let hidden = pool.hiding(avoid);
    lemma_free_from(hidden, channels, 0);
    if let Ok((taken, buf)) = hidden.given(channels, readers) {
        if occurs(avoid, buf as int) {
            let j = choose|j: int| 0 <= j < avoid.len() && #[trigger] avoid[j] == buf as int;
            assert(avoid[j] < pool.widths.len());
            assert(hidden.pending[buf as int] == usize::MAX);
        }
    }
}

/// A buffer comes back once nothing reads it: after the last of its reads the next
/// one asked for of that width is not a new one.
pub proof fn law_a_read_buffer_comes_back(pool: PoolModel, buf: Buf, readers: usize)
    requires
        pool.wf(),
        buf < pool.widths.len(),
        pool.pending[buf as int] == 1,
    ensures
        pool.consumed(buf).given(pool.widths[buf as int], readers) matches Ok((next, given))
            && given < pool.widths.len() && next.widths == pool.widths,
{
    lemma_free_found(pool.consumed(buf), pool.widths[buf as int], 0, buf as int);
    lemma_free_from(pool.consumed(buf), pool.widths[buf as int], 0);
}

proof fn lemma_free_found(pool: PoolModel, channels: u16, at: int, free: int)
    requires
        0 <= at <= free < pool.widths.len(),
        pool.pending[free] == 0,
        pool.widths[free] == channels,
    ensures
        free_from(pool, channels, at) is Some,
    decreases free - at,
{
    if at < free {
        lemma_free_found(pool, channels, at + 1, free);
    }
}

proof fn lemma_occurs_more(list: Seq<Buf>, k: int, i: int)
    requires
        0 <= k < list.len(),
    ensures
        occurs(list.take(k + 1), i) == (occurs(list.take(k), i) || i == list[k]),
{
    let short = list.take(k);
    let long = list.take(k + 1);
    assert(forall|j: int| 0 <= j < k ==> short[j] == #[trigger] long[j]);
    assert(long[k] == list[k]);
    if occurs(short, i) {
        let j = choose|j: int| 0 <= j < short.len() && #[trigger] short[j] == i;
        assert(long[j] == i);
    }
    if occurs(long, i) {
        let j = choose|j: int| 0 <= j < long.len() && #[trigger] long[j] == i;
        if j < k {
            assert(short[j] == i);
        }
    }
}

} // verus!
