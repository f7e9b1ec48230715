use vstd::prelude::*;
use crate::queue::WorkQueue;

verus! {

/// The byte that ends a line.
pub const NEWLINE: u8 = 10;

/// A carriage return; one just before the newline belongs to the terminator.
pub const CR: u8 = 13;

/// Lines written out with a terminator after each.
pub open spec fn joined(lines: Seq<Seq<u8>>) -> Seq<u8>
    decreases lines.len(),
{
    if lines.len() == 0 {
        Seq::empty()
    } else {
        joined(lines.drop_last()) + lines.last().push(NEWLINE)
    }
}

pub open spec fn no_newline(s: Seq<u8>) -> bool {
    forall|i: int| 0 <= i < s.len() ==> s[i] != NEWLINE
}

/// A line without the carriage return of a `\r\n` terminator.
pub open spec fn strip_cr(l: Seq<u8>) -> Seq<u8> {
    if l.len() > 0 && l.last() == CR {
        l.drop_last()
    } else {
        l
    }
}

/// Whether some bytes are well-formed UTF-8.
pub uninterp spec fn utf8_ok(b: Seq<u8>) -> bool;

pub open spec fn all_utf8(ls: Seq<Seq<u8>>) -> bool {
    forall|i: int| 0 <= i < ls.len() ==> utf8_ok(#[trigger] ls[i])
}

/// Relies on core::str::from_utf8: `Ok` exactly when the bytes are
/// well-formed UTF-8; the answer depends on the bytes alone.
#[verifier::external_body]
fn is_utf8(b: &[u8]) -> (r: bool)
    ensures
        r == utf8_ok(b@),
{
    std::str::from_utf8(b).is_ok()
}

/// The contents of a sequence of byte vectors.
pub open spec fn views(v: Seq<Vec<u8>>) -> Seq<Seq<u8>> {
    v.map_values(|l: Vec<u8>| l@)
}

/// Cuts a stream of bytes, read in chunks of any size, into complete lines.
///
/// A line is complete once its terminator (`\n` or `\r\n`) has arrived; the
/// terminator is not part of it. An unterminated tail is kept until the rest
/// of it comes.
pub struct LineSplitter {
    partial: Vec<u8>,
    input: Ghost<Seq<u8>>,
    raw: Ghost<Seq<Seq<u8>>>,
}

impl LineSplitter {
    /// Every byte fed so far.
    pub closed spec fn input(&self) -> Seq<u8> {
        self.input@
    }

    /// The complete lines fed so far, each as read up to its `\n`.
    pub closed spec fn raw_lines(&self) -> Seq<Seq<u8>> {
        self.raw@
    }

    /// The bytes of the line not yet terminated.
    pub closed spec fn partial(&self) -> Seq<u8> {
        self.partial@
    }

    /// Every complete line handed out so far, in order, without terminators.
    pub open spec fn emitted(&self) -> Seq<Seq<u8>> {
        self.raw_lines().map_values(|l: Seq<u8>| strip_cr(l))
    }

    pub open spec fn wf(&self) -> bool {
        &&& self.input() == joined(self.raw_lines()) + self.partial()
        &&& no_newline(self.partial())
        &&& forall|i: int|
            0 <= i < self.raw_lines().len() ==> no_newline(#[trigger] self.raw_lines()[i])
    }

    pub fn new() -> (t: Self)
        ensures
            t.wf(),
            t.input() == Seq::<u8>::empty(),
            t.emitted() == Seq::<Seq<u8>>::empty(),
    {
        let t = LineSplitter { partial: Vec::new(), input: Ghost(Seq::empty()), raw: Ghost(Seq::empty()) };
        proof {
            assert(joined(Seq::<Seq<u8>>::empty()) + t.partial@ =~= Seq::<u8>::empty());
            assert(t.emitted() =~= Seq::<Seq<u8>>::empty());
        }
        t
    }

    /// Bytes of an unterminated line held back for the next chunk.
    pub fn pending_len(&self) -> (n: usize)
        ensures
            n == self.partial().len(),
    {
        self.partial.len()
    }

    /// Takes the next chunk of input and returns the lines it completes, in
    /// input order, without their terminators.
    pub fn feed(&mut self, chunk: &[u8]) -> (lines: Vec<Vec<u8>>)
        requires
            old(self).wf(),
        ensures
            final(self).wf(),
            final(self).input() == old(self).input() + chunk@,
            final(self).raw_lines().len() == old(self).raw_lines().len() + lines@.len(),
            final(self).raw_lines().subrange(0, old(self).raw_lines().len() as int) == old(
                self,
            ).raw_lines(),
            final(self).emitted() == old(self).emitted() + views(lines@),
    {
        let mut lines: Vec<Vec<u8>> = Vec::new();
        let ghost r0 = self.raw@;
        let ghost in0 = self.input@;
        let ghost mut nr: Seq<Seq<u8>> = Seq::empty();
        let mut i: usize = 0;
        proof {
            assert(r0 + nr =~= r0);
            assert(views(lines@) =~= nr.map_values(|l: Seq<u8>| strip_cr(l)));
            assert(chunk@.subrange(0, 0) =~= Seq::<u8>::empty());
            assert(in0 + chunk@.subrange(0, 0) =~= in0);
        }
        while i < chunk.len()
            invariant
                i <= chunk@.len(),
                self.raw@ == r0 + nr,
                views(lines@) == nr.map_values(|l: Seq<u8>| strip_cr(l)),
                in0 + chunk@.subrange(0, i as int) == joined(self.raw@) + self.partial@,
                no_newline(self.partial@),
                forall|j: int| 0 <= j < self.raw@.len() ==> no_newline(#[trigger] self.raw@[j]),
            decreases chunk@.len() - i,
        {
            let b = chunk[i];
            let ghost before = in0 + chunk@.subrange(0, i as int);
            proof {
                assert(in0 + chunk@.subrange(0, i + 1) =~= before.push(b));
            }
            if b == NEWLINE {
                let mut line: Vec<u8> = Vec::new();
                std::mem::swap(&mut line, &mut self.partial);
                let ghost rl = line@;
                proof {
                    let rw = self.raw@.push(rl);
                    assert(rw.drop_last() =~= self.raw@);
                    assert(joined(rw) =~= before.push(b));
                    self.raw@ = rw;
                    assert(joined(rw) + self.partial@ =~= joined(rw));
                }
                let n = line.len();
                if n > 0 && line[n - 1] == CR {
                    line.pop();
                }
                proof {
                    assert(line@ =~= strip_cr(rl));
                }
                let ghost lo = lines@;
                let ghost nr0 = nr;
                lines.push(line);
                proof {
                    nr = nr.push(rl);
                    assert(views(lines@) =~= views(lo).push(strip_cr(rl)));
                    assert(nr.map_values(|l: Seq<u8>| strip_cr(l)) =~= nr0.map_values(
                        |l: Seq<u8>| strip_cr(l),
                    ).push(strip_cr(rl)));
                    assert(self.raw@ =~= r0 + nr);
                }
            } else {
                self.partial.push(b);
                proof {
                    assert(joined(self.raw@) + self.partial@ =~= before.push(b));
                }
            }
            i = i + 1;
        }
        proof {
            assert(chunk@.subrange(0, chunk@.len() as int) =~= chunk@);
            self.input@ = in0 + chunk@;
            assert(self.raw@.subrange(0, r0.len() as int) =~= r0);
            assert(self.emitted() =~= r0.map_values(|l: Seq<u8>| strip_cr(l)) + nr.map_values(
                |l: Seq<u8>| strip_cr(l),
            ));
        }
        lines
    }
}

/// Hands lines to the queue in the order given. Stops at the first refusal
/// (the queue is closed) and reports it.
pub fn enqueue_all(q: &mut WorkQueue<Vec<u8>>, lines: Vec<Vec<u8>>) -> (sent: bool)
    requires
        old(q).wf(),
    ensures
        final(q).wf(),
        final(q).delivered() == old(q).delivered(),
        final(q).is_closed() == old(q).is_closed(),
        sent == !old(q).is_closed(),
        sent ==> final(q).accepted() == old(q).accepted() + lines@,
        !sent ==> final(q).accepted() == old(q).accepted(),
{
    if q.is_closed_now() {
        return false;
    }
    let ghost acc0 = q.accepted();
    let ghost all = lines@;
    let n: usize = lines.len();
    let mut rest = lines;
    let mut k: usize = 0;
    proof {
        assert(all.subrange(0, 0) =~= Seq::<Vec<u8>>::empty());
        assert(acc0 + all.subrange(0, 0) =~= acc0);
        assert(all.subrange(0, all.len() as int) =~= all);
    }
    while rest.len() > 0
        invariant
            q.wf(),
            !q.is_closed(),
            q.delivered() == old(q).delivered(),
            k + rest@.len() == all.len(),
            all.len() == n,
            rest@ == all.subrange(k as int, all.len() as int),
            q.accepted() == acc0 + all.subrange(0, k as int),
        decreases rest@.len(),
    {
        let line = rest.remove(0);
        let _ = q.enqueue(line);
        proof {
            assert(all.subrange(0, k + 1) =~= all.subrange(0, k as int).push(line));
            assert(rest@ =~= all.subrange(k + 1, all.len() as int));
        }
        k = k + 1;
    }
    proof {
        assert(all.subrange(0, k as int) =~= all);
    }
    true
}

/// The lines completed between two states of a splitter.
pub open spec fn lines_since(before: &LineSplitter, after: &LineSplitter) -> Seq<Seq<u8>> {
    after.emitted().subrange(before.emitted().len() as int, after.emitted().len() as int)
}

/// How a read cycle of the tailer ended.
#[derive(Clone, Copy, Debug, PartialEq, Eq, Structural)]
pub enum Pumped {
    /// Every completed line was enqueued.
    Sent,
    /// The queue's producer side is closed: nothing was enqueued and the
    /// tailer stops.
    Closed,
    /// A completed line is not UTF-8: the lines before it were enqueued, it and
    /// those after it were not, and the tailer stops.
    NotUtf8,
}

/// One read cycle of the tailer: cuts the chunk into lines and enqueues each
/// completed line at the back of the queue, in input order.
pub fn pump(t: &mut LineSplitter, chunk: &[u8], q: &mut WorkQueue<Vec<u8>>) -> (r: Pumped)
    requires
        old(t).wf(),
        old(q).wf(),
    ensures
        final(t).wf(),
        final(q).wf(),
        final(t).input() == old(t).input() + chunk@,
        final(t).emitted().subrange(0, old(t).emitted().len() as int) == old(t).emitted(),
        final(q).delivered() == old(q).delivered(),
        final(q).is_closed() == old(q).is_closed(),
        (r == Pumped::Closed) == old(q).is_closed(),
        r == Pumped::Closed ==> final(q).accepted() == old(q).accepted() && final(q).pending()
            == old(q).pending(),
        r == Pumped::Sent ==> all_utf8(lines_since(old(t), final(t))) && views(final(q).accepted())
            == views(old(q).accepted()) + lines_since(old(t), final(t)),
        r == Pumped::NotUtf8 ==> exists|k: int|
            0 <= k < lines_since(old(t), final(t)).len() && !utf8_ok(
                #[trigger] lines_since(old(t), final(t))[k],
            ) && all_utf8(lines_since(old(t), final(t)).take(k)) && views(final(q).accepted())
                == views(old(q).accepted()) + lines_since(old(t), final(t)).take(k),
{
    let ghost t0 = *t;
    let lines = t.feed(chunk);
    let ghost new = lines_since(&t0, t);
    proof {
        assert(t.emitted().subrange(0, t0.emitted().len() as int) =~= t0.emitted());
        assert(new =~= views(lines@));
    }
    if q.is_closed_now() {
        return Pumped::Closed;
    }
    let ghost a0 = q.accepted();
    let ghost all = lines@;
    let n: usize = lines.len();
    let mut rest = lines;
    let mut k: usize = 0;
    proof {
        assert(all.subrange(0, all.len() as int) =~= all);
        assert(views(all.subrange(0, 0)) =~= Seq::<Seq<u8>>::empty());
        assert(views(a0) + views(all.subrange(0, 0)) =~= views(a0));
    }
    while rest.len() > 0
        invariant
            q.wf(),
            !q.is_closed(),
            !old(q).is_closed(),
            q.delivered() == old(q).delivered(),
            t.wf(),
            t.input() == t0.input() + chunk@,
            t.emitted().subrange(0, t0.emitted().len() as int) == t0.emitted(),
            new == lines_since(&t0, t),
            t0 == *old(t),
            a0 == old(q).accepted(),
            k + rest@.len() == all.len(),
            all.len() == n,
            new == views(all),
            rest@ == all.subrange(k as int, all.len() as int),
            views(q.accepted()) == views(a0) + views(all.subrange(0, k as int)),
            all_utf8(views(all.subrange(0, k as int))),
        decreases rest@.len(),
    {
        let line = rest.remove(0);
        proof {
            assert(rest@ =~= all.subrange(k + 1, all.len() as int));
            assert(line == all[k as int]);
            assert(views(all.subrange(0, k as int)) =~= new.take(k as int));
        }
        if !is_utf8(line.as_slice()) {
            proof {
                assert(new[k as int] == line@);
                assert(!utf8_ok(new[k as int]));
                assert(all_utf8(new.take(k as int)));
            }
            return Pumped::NotUtf8;
        }
        let ghost acc = q.accepted();
        let _ = q.enqueue(line);
        proof {
            assert(all.subrange(0, k + 1) =~= all.subrange(0, k as int).push(line));
            assert(views(acc.push(line)) =~= views(acc).push(line@));
            assert(views(all.subrange(0, k + 1)) =~= views(all.subrange(0, k as int)).push(line@));
        }
        k = k + 1;
    }
    proof {
        assert(all.subrange(0, k as int) =~= all);
    }
    Pumped::Sent
}

/// What has entered the queue is the input's complete lines, one statement
/// per line, none split or merged, each without its terminator, in input
/// order; what follows the last terminator is held back.
pub proof fn lemma_enqueue_order(t: &LineSplitter, q: &WorkQueue<Vec<u8>>)
    requires
        t.wf(),
        views(q.accepted()) == t.emitted(),
    ensures
        joined(t.raw_lines()) + t.partial() == t.input(),
        q.accepted().len() == t.raw_lines().len(),
        forall|i: int| 0 <= i < q.accepted().len() ==> #[trigger] q.accepted()[i]@ == strip_cr(t.raw_lines()[i]),
        forall|i: int| 0 <= i < q.accepted().len() ==> no_newline(#[trigger] t.raw_lines()[i]),
        no_newline(t.partial()),
{
    assert(views(q.accepted()).len() == q.accepted().len());
    assert(t.emitted().len() == t.raw_lines().len());
    assert forall|i: int| 0 <= i < q.accepted().len() implies #[trigger] q.accepted()[i]@ == strip_cr(t.raw_lines()[i]) by {
        assert(views(q.accepted())[i] == q.accepted()[i]@);
        assert(t.emitted()[i] == strip_cr(t.raw_lines()[i]));
    }
}

} // verus!
