//! How a chunk's code divides into instructions, and what it means for its
//! jumps to be in order. The compiler keeps its code in order while it
//! emits and patches; what is proved here is that emitting and patching
//! leave the earlier instructions where they were.

use crate::common::{ChunkView, Op};
use crate::value::ValueView;
use vstd::prelude::*;

verus! {

impl ChunkView {
    /// The number of variables that the `MakeClosure` at `ip` captures:
    /// what the function that its operand names asks for.
    pub open spec fn captures_at(self, ip: int) -> int {
        if ip + 1 < self.code.len() && self.code[ip + 1] < self.constants.len() {
            match self.constants[self.code[ip + 1] as int] {
                ValueView::Function(f) => f.upvalue_count as int,
                _ => 0,
            }
        } else {
            0
        }
    }

    /// The number of bytes that the instruction at `ip` takes, operands
    /// included. A byte that is no opcode counts as one.
    pub open spec fn width_at(self, ip: int) -> int {
        match Op::decode(self.code[ip]) {
            None => 1,
            Some(Op::MakeClosure) => 2 + 2 * self.captures_at(ip),
            Some(op) => op.spec_width() as int,
        }
    }

    /// Whether going from instruction to instruction from `from` on comes
    /// by `to`.
    pub open spec fn reaches(self, from: int, to: int) -> bool
        decreases to - from,
    {
        if from >= to {
            from == to
        } else {
            self.width_at(from) >= 1 && from + self.width_at(from) <= to && self.reaches(
                from + self.width_at(from),
                to,
            )
        }
    }

    /// Whether an instruction starts at `ip`, or the code ends there after
    /// a whole instruction.
    pub open spec fn is_start(self, ip: int) -> bool {
        0 <= ip <= self.code.len() && self.reaches(0, ip)
    }

    /// Whether the instruction at `ip` is one of the three jumps.
    pub open spec fn is_jump(self, ip: int) -> bool {
        match Op::decode(self.code[ip]) {
            Some(Op::JumpIfFalse) | Some(Op::Jump) | Some(Op::AbsJump) => true,
            _ => false,
        }
    }

    /// Where the jump at `ip` goes: to its operand if it is absolute, by
    /// its operand from `ip` on if it is relative.
    pub open spec fn target(self, ip: int) -> int {
        match Op::decode(self.code[ip]) {
            Some(Op::AbsJump) => self.double_at(ip + 1) as int,
            _ => ip + self.double_at(ip + 1),
        }
    }

    /// Whether the instruction at `ip` is one that the machine knows, and
    /// a `MakeClosure` there names a function of the pool.
    pub open spec fn sound_at(self, ip: int) -> bool {
        match Op::decode(self.code[ip]) {
            None => false,
            Some(Op::MakeClosure) => ip + 1 < self.code.len() && self.code[ip + 1]
                < self.constants.len() && self.constants[self.code[ip + 1] as int] is Function,
            Some(_) => true,
        }
    }

    /// The code is in order but for the jumps at `open`, which wait for their
    /// target: it is a whole number of instructions that the machine
    /// knows, and every other jump goes to the start of an instruction or
    /// to the end of the code.
    #[verifier::opaque]
    pub open spec fn tidy(self, open: Set<int>) -> bool {
        &&& self.is_start(self.code.len() as int)
        &&& forall|ip: int| 0 <= ip < self.code.len() && #[trigger] self.is_start(ip) ==> self.sound_at(ip)
        &&& forall|ip: int|
            0 <= ip < self.code.len() && #[trigger] self.is_start(ip) && self.is_jump(ip)
                && !open.contains(ip) ==> self.is_start(self.target(ip))
        &&& forall|p: int| #[trigger]
            open.contains(p) ==> 0 <= p < self.code.len() && self.is_start(p) && self.is_jump(p)
    }

    /// Every jump goes to the start of an instruction of this chunk.
    pub open spec fn jumps_valid(self) -> bool {
        forall|ip: int|
            0 <= ip < self.code.len() && #[trigger] self.is_start(ip) && self.is_jump(ip) ==> {
                &&& 0 <= self.target(ip) < self.code.len()
                &&& self.is_start(self.target(ip))
            }
    }

    /// The chunk with `bytes` behind its code.
    pub open spec fn append(self, bytes: Seq<u8>) -> ChunkView {
        ChunkView { code: self.code + bytes, ..self }
    }

    /// The chunk with `v` behind its constants.
    pub open spec fn with_constant(self, v: ValueView) -> ChunkView {
        ChunkView { constants: self.constants.push(v), ..self }
    }

    pub(crate) proof fn lemma_width_positive(self, ip: int)
        ensures
            self.width_at(ip) >= 1,
    {
    }

    /// Going on from where one has come goes where one comes.
    pub(crate) proof fn lemma_reaches_trans(self, a: int, b: int, c: int)
        requires
            self.reaches(a, b),
            self.reaches(b, c),
        ensures
            self.reaches(a, c),
        decreases b - a,
    {
        if a < b {
            self.lemma_width_positive(a);
            self.lemma_reaches_trans(a + self.width_at(a), b, c);
            if a >= c {
                self.lemma_reaches_order(a + self.width_at(a), b);
                self.lemma_reaches_order(b, c);
            }
        }
    }

    pub(crate) proof fn lemma_reaches_order(self, a: int, b: int)
        requires
            self.reaches(a, b),
        ensures
            a <= b,
    {
    }

    /// Of two places that one comes by, the nearer one leads to the
    /// farther one.
    pub(crate) proof fn lemma_reaches_split(self, a: int, b: int, c: int)
        requires
            self.reaches(a, b),
            self.reaches(a, c),
            b <= c,
        ensures
            self.reaches(b, c),
        decreases b - a,
    {
        if a < b {
            self.lemma_width_positive(a);
            self.lemma_reaches_split(a + self.width_at(a), b, c);
        }
    }

    /// The instruction at a start before another start ends by it.
    pub(crate) proof fn lemma_fits(self, ip: int, end: int)
        requires
            self.is_start(ip),
            self.is_start(end),
            ip < end,
        ensures
            ip + self.width_at(ip) <= end,
            self.reaches(ip + self.width_at(ip), end),
    {
        self.lemma_reaches_split(0, ip, end);
        self.lemma_reaches_order(ip + self.width_at(ip), end);
    }

    /// Whether the two chunks have instructions of the same width at
    /// every start of the first before `limit`.
    pub open spec fn same_widths(self, other: ChunkView, limit: int) -> bool {
        forall|ip: int|
            0 <= ip < limit && #[trigger] self.reaches(0, ip) ==> other.width_at(ip) == self.width_at(
                ip,
            )
    }

    proof fn lemma_same_chain_from(self, other: ChunkView, a: int, b: int, limit: int)
        requires
            0 <= a,
            b <= limit,
            forall|ip: int|
                a <= ip < limit && #[trigger] self.reaches(a, ip) ==> other.width_at(ip)
                    == self.width_at(ip),
        ensures
            other.reaches(a, b) == self.reaches(a, b),
        decreases b - a,
    {
        if a < b {
            let w = self.width_at(a);
            self.lemma_width_positive(a);
            other.lemma_width_positive(a);
            assert(self.reaches(a, a));
            if a + w <= b {
                assert forall|ip: int| a + w <= ip < limit && #[trigger] self.reaches(
                    a + w,
                    ip,
                ) implies other.width_at(ip) == self.width_at(ip) by {
                    assert(self.reaches(a, ip));
                }
                self.lemma_same_chain_from(other, a + w, b, limit);
            }
        }
    }

    /// Chunks with the same widths at the starts before `limit` have the
    /// same starts up to `limit`.
    pub(crate) proof fn lemma_same_starts(self, other: ChunkView, b: int, limit: int)
        requires
            self.same_widths(other, limit),
            b <= limit,
        ensures
            other.reaches(0, b) == self.reaches(0, b),
    {
        self.lemma_same_chain_from(other, 0, b, limit);
    }
}

} // verus!

verus! {

impl ChunkView {
    /// Whether `other` goes on from this chunk: it has the constants of
    /// this one at their indices, is at least as long, and has a start
    /// wherever this one has.
    #[verifier::opaque]
    pub open spec fn grows_to(self, other: ChunkView) -> bool {
        &&& self.code.len() <= other.code.len()
        &&& self.constants.len() <= other.constants.len()
        &&& forall|k: int|
            0 <= k < self.constants.len() ==> #[trigger] other.constants[k] == self.constants[k]
        &&& forall|b: int| #[trigger] self.is_start(b) ==> other.is_start(b)
        &&& forall|b: int|
            0 <= b < self.code.len() && #[trigger] self.is_start(b) ==> other.code[b]
                == self.code[b]
    }

    pub(crate) proof fn lemma_grows_refl(self)
        ensures
            self.grows_to(self),
    {
        reveal(ChunkView::grows_to);
    }

    pub(crate) proof fn lemma_grows_trans(self, b: ChunkView, c: ChunkView)
        requires
            self.grows_to(b),
            b.grows_to(c),
        ensures
            self.grows_to(c),
    {
        reveal(ChunkView::grows_to);
    }

    /// What `grows_to` says of one start.
    pub(crate) proof fn lemma_grows_start(self, other: ChunkView, b: int)
        requires
            self.grows_to(other),
            self.is_start(b),
        ensures
            other.is_start(b),
            self.code.len() <= other.code.len(),
            b < self.code.len() ==> other.code[b] == self.code[b],
    {
        reveal(ChunkView::grows_to);
    }

    /// What `grows_to` says of one constant: it keeps its index.
    pub(crate) proof fn lemma_grows_constant(self, other: ChunkView, k: int)
        requires
            self.grows_to(other),
            0 <= k < self.constants.len(),
        ensures
            k < other.constants.len(),
            other.constants[k] == self.constants[k],
    {
        reveal(ChunkView::grows_to);
    }

    /// A chunk whose change keeps the instructions at its starts as wide
    /// as they were keeps its starts.
    proof fn lemma_keeps_starts(self, other: ChunkView)
        requires
            self.same_widths(other, self.code.len() as int),
            self.code.len() <= other.code.len(),
        ensures
            forall|b: int| b <= self.code.len() ==> other.reaches(0, b) == self.reaches(0, b),
    {
        assert forall|b: int| b <= self.code.len() implies other.reaches(0, b) == self.reaches(
            0,
            b,
        ) by {
            self.lemma_same_starts(other, b, self.code.len() as int);
        }
    }

    /// No instruction starts inside the instruction at a start.
    proof fn lemma_no_start_inside(self, ip: int, x: int)
        requires
            self.reaches(0, ip),
            0 <= ip < x < ip + self.width_at(ip),
        ensures
            !self.reaches(0, x),
    {
        if self.reaches(0, x) {
            self.lemma_reaches_split(0, ip, x);
        }
    }

    /// Whether `bytes` are one instruction when they stand at the end of
    /// this chunk's code.
    pub open spec fn takes(self, bytes: Seq<u8>) -> bool {
        let c = self.append(bytes);
        let at = self.code.len() as int;
        bytes.len() >= 1 && c.width_at(at) == bytes.len() && c.sound_at(at)
    }

    proof fn lemma_append_widths(self, bytes: Seq<u8>)
        requires
            forall|ip: int|
                0 <= ip < self.code.len() && #[trigger] self.is_start(ip) ==> self.sound_at(ip),
        ensures
            self.same_widths(self.append(bytes), self.code.len() as int),
    {
        let c = self.append(bytes);
        assert forall|ip: int| 0 <= ip < self.code.len() && #[trigger] self.reaches(
            0,
            ip,
        ) implies c.width_at(ip) == self.width_at(ip) by {
            assert(self.is_start(ip));
            assert(self.sound_at(ip));
            assert(c.code[ip] == self.code[ip]);
            if Op::decode(self.code[ip]) == Some(Op::MakeClosure) {
                assert(c.code[ip + 1] == self.code[ip + 1]);
            }
        }
    }

    /// Emitting an instruction keeps the code in order. A jump that is
    /// emitted waits for its target, unless it goes back to a start.
    pub(crate) proof fn lemma_tidy_append(self, open: Set<int>, bytes: Seq<u8>)
        requires
            self.tidy(open),
            self.takes(bytes),
        ensures
            self.grows_to(self.append(bytes)),
            self.append(bytes).is_jump(self.code.len() as int) ==> self.append(bytes).tidy(
                open.insert(self.code.len() as int),
            ),
            !self.append(bytes).is_jump(self.code.len() as int) || self.is_start(
                self.append(bytes).target(self.code.len() as int),
            ) ==> self.append(bytes).tidy(open),
    {
        reveal(ChunkView::tidy);
        reveal(ChunkView::grows_to);
        let c = self.append(bytes);
        let at = self.code.len() as int;
        let end = c.code.len() as int;
        self.lemma_append_widths(bytes);
        self.lemma_keeps_starts(c);
        assert(c.reaches(at, end)) by {
            assert(c.reaches(end, end));
        }
        c.lemma_reaches_trans(0, at, end);
        assert forall|ip: int| 0 <= ip < end && #[trigger] c.is_start(ip) implies ip <= at && (ip
            < at ==> self.is_start(ip)) by {
            if ip > at {
                c.lemma_no_start_inside(at, ip);
            }
        }
        assert forall|ip: int| 0 <= ip < end && #[trigger] c.is_start(ip) implies c.sound_at(
            ip,
        ) by {
            if ip < at {
                assert(self.sound_at(ip));
                assert(c.code[ip] == self.code[ip]);
                if Op::decode(self.code[ip]) == Some(Op::MakeClosure) {
                    assert(c.code[ip + 1] == self.code[ip + 1]);
                }
            }
        }
        assert forall|ip: int|
            0 <= ip < at && #[trigger] self.is_start(ip) && self.is_jump(ip) implies c.is_jump(ip)
                && c.target(ip) == self.target(ip) by {
            self.lemma_fits(ip, at);
            assert(c.code[ip] == self.code[ip]);
            assert(c.code[ip + 1] == self.code[ip + 1]);
            assert(c.code[ip + 2] == self.code[ip + 2]);
        }
        assert forall|ip: int|
            0 <= ip < end && #[trigger] c.is_start(ip) && c.is_jump(ip) && !open.insert(at).contains(
                ip,
            ) implies c.is_start(c.target(ip)) by {
            assert(ip < at);
            assert(c.code[ip] == self.code[ip]);
            assert(self.is_start(ip));
            assert(self.is_start(self.target(ip)));
        }
        if c.is_jump(at) {
            assert forall|p: int| #[trigger] open.insert(at).contains(p) implies 0 <= p < end
                && c.is_start(p) && c.is_jump(p) by {
                if p != at {
                    assert(open.contains(p));
                    assert(self.is_start(p));
                }
            }
        }
        if !c.is_jump(at) || self.is_start(c.target(at)) {
            assert forall|ip: int|
                0 <= ip < end && #[trigger] c.is_start(ip) && c.is_jump(ip) && !open.contains(
                    ip,
                ) implies c.is_start(c.target(ip)) by {
                if ip < at {
                    assert(c.code[ip] == self.code[ip]);
                    assert(self.is_start(ip));
                    assert(self.is_start(self.target(ip)));
                }
            }
            assert forall|p: int| #[trigger] open.contains(p) implies 0 <= p < end && c.is_start(p)
                && c.is_jump(p) by {
                assert(self.is_start(p));
            }
        }
    }
}

} // verus!

verus! {

impl ChunkView {
    /// After an instruction that is no jump has been emitted behind code
    /// in which no jump waits, every jump goes to the start of an
    /// instruction of the chunk.
    pub(crate) proof fn lemma_append_seals(self, bytes: Seq<u8>)
        requires
            self.tidy(Set::empty()),
            self.takes(bytes),
            !self.append(bytes).is_jump(self.code.len() as int),
        ensures
            self.append(bytes).tidy(Set::empty()),
            self.append(bytes).jumps_valid(),
    {
        self.lemma_tidy_append(Set::empty(), bytes);
        reveal(ChunkView::tidy);
        let c = self.append(bytes);
        let at = self.code.len() as int;
        let end = c.code.len() as int;
        self.lemma_append_widths(bytes);
        self.lemma_keeps_starts(c);
        assert forall|ip: int|
            0 <= ip < end && #[trigger] c.is_start(ip) && c.is_jump(ip) implies 0 <= c.target(ip)
            < end && c.is_start(c.target(ip)) by {
            if ip > at {
                c.lemma_no_start_inside(at, ip);
            }
            assert(ip < at);
            assert(self.is_start(ip));
            assert(c.code[ip] == self.code[ip]);
            self.lemma_fits(ip, at);
            assert(c.code[ip + 1] == self.code[ip + 1]);
            assert(c.code[ip + 2] == self.code[ip + 2]);
            assert(c.target(ip) == self.target(ip));
            assert(self.is_start(self.target(ip)));
        }
    }

    /// A new constant keeps the code in order.
    pub(crate) proof fn lemma_tidy_constant(self, open: Set<int>, v: ValueView)
        requires
            self.tidy(open),
        ensures
            self.grows_to(self.with_constant(v)),
            self.with_constant(v).tidy(open),
    {
        reveal(ChunkView::tidy);
        reveal(ChunkView::grows_to);
        let c = self.with_constant(v);
        assert forall|ip: int| 0 <= ip < self.code.len() && #[trigger] self.reaches(
            0,
            ip,
        ) implies c.width_at(ip) == self.width_at(ip) by {
            assert(self.is_start(ip));
            assert(self.sound_at(ip));
        }
        self.lemma_keeps_starts(c);
        assert forall|ip: int| 0 <= ip < c.code.len() && #[trigger] c.is_start(ip) implies c.sound_at(
            ip,
        ) by {
            assert(self.is_start(ip));
            assert(self.sound_at(ip));
        }
        assert forall|ip: int|
            0 <= ip < c.code.len() && #[trigger] c.is_start(ip) && c.is_jump(ip) && !open.contains(
                ip,
            ) implies c.is_start(c.target(ip)) by {
            assert(self.is_start(ip));
            assert(self.is_start(self.target(ip)));
        }
        assert forall|p: int| #[trigger] open.contains(p) implies 0 <= p < c.code.len()
            && c.is_start(p) && c.is_jump(p) by {
            assert(self.is_start(p));
        }
    }

    /// Giving a jump that waits a target that is a start keeps the code in
    /// order, and the jump does not wait any more.
    pub(crate) proof fn lemma_tidy_patch(self, open: Set<int>, p: int, value: nat)
        requires
            self.tidy(open),
            open.contains(p),
            value <= 0xffff,
            self.is_start(self.with_double(p + 1, value).target(p)),
        ensures
            self.grows_to(self.with_double(p + 1, value)),
            self.with_double(p + 1, value).grows_to(self),
            self.with_double(p + 1, value).tidy(open.remove(p)),
            self.with_double(p + 1, value).tidy(open),
            self.with_double(p + 1, value).is_start(self.with_double(p + 1, value).target(p)),
            forall|q: int|
                q != p && #[trigger] open.contains(q) ==> self.with_double(p + 1, value).target(q)
                    == self.target(q),
    {
        reveal(ChunkView::tidy);
        reveal(ChunkView::grows_to);
        let c = self.with_double(p + 1, value);
        let len = self.code.len() as int;
        assert(self.is_start(p) && self.is_jump(p));
        self.lemma_fits(p, len);
        // what the patch leaves alone: every instruction but the operand of
        // the jump at `p`
        assert forall|ip: int| 0 <= ip < len && #[trigger] self.is_start(ip) implies {
            &&& c.code[ip] == self.code[ip]
            &&& c.width_at(ip) == self.width_at(ip)
            &&& c.sound_at(ip) == self.sound_at(ip)
            &&& c.is_jump(ip) == self.is_jump(ip)
            &&& (self.is_jump(ip) && ip != p ==> c.target(ip) == self.target(ip))
        } by {
            assert(self.sound_at(ip));
            self.lemma_fits(ip, len);
            if ip < p {
                self.lemma_fits(ip, p);
            } else if ip > p {
                self.lemma_fits(p, ip);
            }
        }
        assert forall|ip: int| 0 <= ip < len && #[trigger] self.reaches(0, ip) implies c.width_at(
            ip,
        ) == self.width_at(ip) by {
            assert(self.is_start(ip));
        }
        self.lemma_keeps_starts(c);
        assert forall|b: int| #[trigger] c.is_start(b) implies self.is_start(b) by {}
        assert forall|ip: int|
            0 <= ip < len && #[trigger] c.is_start(ip) && c.is_jump(ip) && !open.remove(p).contains(
                ip,
            ) implies c.is_start(c.target(ip)) by {
            assert(self.is_start(ip));
            if ip != p {
                assert(self.is_start(self.target(ip)));
            }
        }
        assert forall|q: int| #[trigger] open.contains(q) implies 0 <= q < len && c.is_start(q)
            && c.is_jump(q) && (q != p ==> c.target(q) == self.target(q)) by {
            assert(self.is_start(q));
        }
        assert forall|q: int| #[trigger] open.remove(p).contains(q) implies 0 <= q < len
            && c.is_start(q) && c.is_jump(q) by {
            assert(open.contains(q));
        }
        assert forall|ip: int| 0 <= ip < len && #[trigger] c.is_start(ip) implies c.sound_at(
            ip,
        ) by {
            assert(self.is_start(ip));
        }
    }

    /// Jumps that have their target need not be taken to wait.
    pub(crate) proof fn lemma_tidy_narrow(self, open: Set<int>, less: Set<int>)
        requires
            self.tidy(open),
            less.subset_of(open),
            forall|p: int| #[trigger]
                open.contains(p) && !less.contains(p) ==> self.is_start(self.target(p)),
        ensures
            self.tidy(less),
    {
        reveal(ChunkView::tidy);
    }

    /// The chunk with each of the jumps at `sites[i ..]` given the operand
    /// `target`.
    pub open spec fn patch_all(self, sites: Seq<usize>, i: nat, target: nat) -> ChunkView
        decreases sites.len() - i,
    {
        if i >= sites.len() {
            self
        } else {
            self.with_double(sites[i as int] + 1, target).patch_all(sites, i + 1, target)
        }
    }

    /// What being in order says of a jump that waits.
    pub(crate) proof fn lemma_tidy_open(self, open: Set<int>, p: int)
        requires
            self.tidy(open),
            open.contains(p),
        ensures
            0 <= p,
            p + 3 <= self.code.len(),
            self.is_start(p),
            self.is_jump(p),
    {
        reveal(ChunkView::tidy);
        self.lemma_fits(p, self.code.len() as int);
    }

    /// Code in order ends where an instruction would start.
    pub(crate) proof fn lemma_tidy_end(self, open: Set<int>)
        requires
            self.tidy(open),
        ensures
            self.is_start(self.code.len() as int),
    {
        reveal(ChunkView::tidy);
    }

    /// Empty code is in order.
    pub(crate) proof fn lemma_tidy_empty(self)
        requires
            self.code.len() == 0,
        ensures
            self.tidy(Set::empty()),
    {
        reveal(ChunkView::tidy);
    }
}

} // verus!

verus! {

/// Whether the function is whole: its code is a whole number of
/// instructions, every jump in it goes to the start of one of them, and
/// every function among its constants is whole in turn.
pub open spec fn sealed(f: crate::value::FunctionView) -> bool
    decreases f,
{
    &&& f.chunk.jumps_valid()
    &&& f.chunk.is_start(f.chunk.code.len() as int)
    &&& forall|k: int|
        0 <= k < f.chunk.constants.len() ==> value_sealed(#[trigger] f.chunk.constants[k])
}

/// Whether the value, if it is a function or a closure, is of a function
/// that is whole.
pub open spec fn value_sealed(v: ValueView) -> bool
    decreases v,
{
    match v {
        ValueView::Function(g) => sealed(g),
        ValueView::Closure(c) => sealed(c.function),
        _ => true,
    }
}

/// Whether the functions among the constants `pool` are whole.
pub open spec fn pool_sealed(pool: Seq<ValueView>) -> bool {
    forall|k: int| 0 <= k < pool.len() ==> value_sealed(#[trigger] pool[k])
}

/// Whether the functions among the literals of the tree are whole. This
/// holds of every tree without a function for a literal, and so of every
/// tree that the parser makes.
pub open spec fn literals_sealed(e: crate::common::CoreView) -> bool
    decreases e,
{
    match e {
        crate::common::CoreView::Lit(v) => value_sealed(v),
        crate::common::CoreView::Lambda(_, body) => literals_sealed(*body),
        crate::common::CoreView::Let(_, value) => literals_sealed(*value),
        crate::common::CoreView::Assign(_, value) => literals_sealed(*value),
        crate::common::CoreView::Get(_) => true,
        crate::common::CoreView::If(c, t, e) => literals_sealed(*c) && literals_sealed(*t)
            && literals_sealed(*e),
        crate::common::CoreView::Loop(body) => literals_sealed(*body),
        crate::common::CoreView::Continue => true,
        crate::common::CoreView::Break => true,
        crate::common::CoreView::Block(xs) => all_literals_sealed(xs),
        crate::common::CoreView::Call(callee, args) => literals_sealed(*callee)
            && all_literals_sealed(args),
        crate::common::CoreView::Return(x) => literals_sealed(*x),
    }
}

/// Whether `literals_sealed` holds of each of `xs`.
pub open spec fn all_literals_sealed(xs: Seq<crate::common::CoreView>) -> bool
    decreases xs,
{
    forall|i: int| 0 <= i < xs.len() ==> literals_sealed(#[trigger] xs[i])
}

} // verus!
