//! The engine: one buffer that holds the source and receives the output, a
//! cursor for reading and a cursor for writing, and the matching of bytes
//! against conditions. The output never overtakes the input.

use vstd::prelude::*;
use vstd::slice::slice_subrange;
use vstd::utf8::{encode_scalar, is_scalar};
use crate::err::{ErrorType, ProcessingResult};
use crate::pattern::{absent, first_occurrence, SinglePattern};
use crate::proc::range::ProcessorRange;
use crate::proc::trie::{lookup_gives, no_key, Trie};

pub mod attr;
pub mod checkpoint;
pub mod debug;
pub mod entity;
pub mod range;
pub mod trie;

verus! {

/// `code` with the bytes from `at` on replaced by `data`, as far as `data`
/// reaches.
pub open spec fn overlay(code: Seq<u8>, at: int, data: Seq<u8>) -> Seq<u8> {
    code.subrange(0, at) + data + code.subrange(at + data.len(), code.len() as int)
}

/// Copies `code[start..end]` to `dest` within the same buffer. The ranges
/// may overlap: the destination gets the bytes that the source held before.
fn move_bytes(code: &mut Vec<u8>, start: usize, end: usize, dest: usize)
    requires
        start <= end <= old(code)@.len(),
        dest + (end - start) <= old(code)@.len(),
    ensures
        final(code)@ == overlay(old(code)@, dest as int, old(code)@.subrange(start as int, end as int)),
{
    let n = end - start;
    let len = code.len();
    let ghost before = code@;
    if dest <= start {
        let mut i: usize = 0;
        while i < n
            invariant
                n == end - start,
                start <= end <= before.len(),
                dest + n <= before.len(),
                len == before.len(),
                dest <= start,
                i <= n,
                code@.len() == before.len(),
                forall|j: int| dest <= j < dest + i ==> #[trigger] code@[j] == before[j - dest + start],
                forall|j: int|
                    0 <= j < before.len() && !(dest <= j < dest + i) ==> code@[j] == before[j],
            decreases n - i,
        {
            let b = code[start + i];
            code.set(dest + i, b);
            i += 1;
        }
    } else {
        let mut i: usize = n;
        while i > 0
            invariant
                n == end - start,
                start <= end <= before.len(),
                dest + n <= before.len(),
                len == before.len(),
                dest > start,
                i <= n,
                code@.len() == before.len(),
                forall|j: int| dest + i <= j < dest + n ==> #[trigger] code@[j] == before[j - dest + start],
                forall|j: int|
                    0 <= j < before.len() && !(dest + i <= j < dest + n) ==> code@[j] == before[j],
            decreases i,
        {
            i -= 1;
            let b = code[start + i];
            code.set(dest + i, b);
        }
    }
    assert(code@ =~= overlay(before, dest as int, before.subrange(start as int, end as int)));
}

/// Writes `data` into `code` from `at` on.
fn put_bytes(code: &mut Vec<u8>, at: usize, data: &[u8])
    requires
        at + data@.len() <= old(code)@.len(),
    ensures
        final(code)@ == overlay(old(code)@, at as int, data@),
{
    let n = data.len();
    let len = code.len();
    let ghost before = code@;
    let mut i: usize = 0;
    while i < n
        invariant
            n == data@.len(),
            len == before.len(),
            at + n <= len,
            i <= n,
            code@.len() == before.len(),
            forall|j: int| at <= j < at + i ==> #[trigger] code@[j] == data@[j - at],
            forall|j: int| 0 <= j < before.len() && !(at <= j < at + i) ==> code@[j] == before[j],
        decreases n - i,
    {
        code.set(at + i, data[i]);
        i += 1;
    }
    assert(code@ =~= overlay(before, at as int, data@));
}

/// When a match holds.
pub enum MatchCond {
    Is,
    IsNot,
    While,
    WhileNot,
    /// Like `WhileNot` followed by `Is`, but matching nothing where `Is`
    /// would match nothing: everything up to and including the next
    /// delimiter, or no byte at all if there is no delimiter.
    Through,
}

/// What the bytes are held against.
pub enum MatchMode<P> {
    /// One given byte.
    Char(u8),
    /// A predicate on one byte.
    Pred(P),
    /// A fixed run of bytes, for `Is` and `IsNot` only.
    Sequence(&'static [u8]),
    /// A pattern searched for in the rest of the source, for `WhileNot` and
    /// `Through` only.
    Pat(&'static SinglePattern),
}

/// Whether the mode, which looks at one byte at a time, can answer `verdict`
/// on `b`. A predicate answers what its own contract admits.
pub open spec fn verdict<P: Fn(u8) -> bool>(mode: MatchMode<P>, b: u8, verdict: bool) -> bool {
    match mode {
        MatchMode::Char(c) => verdict == (b == c),
        MatchMode::Pred(p) => call_ensures(p, (b,), verdict),
        _ => false,
    }
}

/// Whether the engine offers this pairing of condition and mode.
pub open spec fn supported<P: Fn(u8) -> bool>(cond: MatchCond, mode: MatchMode<P>) -> bool {
    match mode {
        MatchMode::Char(_) => true,
        MatchMode::Pred(p) => forall|b: u8| call_requires(p, (b,)),
        MatchMode::Sequence(_) => cond is Is || cond is IsNot,
        MatchMode::Pat(_) => cond is WhileNot || cond is Through,
    }
}

/// Whether `count` is the length of the longest run at the start of `text`
/// on whose bytes the mode answers `want`.
pub open spec fn run_of<P: Fn(u8) -> bool>(
    mode: MatchMode<P>,
    text: Seq<u8>,
    want: bool,
    count: int,
) -> bool {
    &&& 0 <= count <= text.len()
    &&& forall|i: int| 0 <= i < count ==> verdict(mode, #[trigger] text[i], want)
    &&& count < text.len() ==> verdict(mode, text[count], !want)
}

/// Whether a match of `cond` and `mode` at the start of `text` takes exactly
/// `count` bytes.
pub open spec fn matched<P: Fn(u8) -> bool>(
    cond: MatchCond,
    mode: MatchMode<P>,
    text: Seq<u8>,
    count: int,
) -> bool {
    match mode {
        MatchMode::Char(_) | MatchMode::Pred(_) => match cond {
            MatchCond::Is => if count == 0 {
                text.len() > 0 ==> verdict(mode, text[0], false)
            } else {
                count == 1 && text.len() > 0 && verdict(mode, text[0], true)
            },
            MatchCond::IsNot => if count == 0 {
                text.len() > 0 ==> verdict(mode, text[0], true)
            } else {
                count == 1 && text.len() > 0 && verdict(mode, text[0], false)
            },
            MatchCond::While => run_of(mode, text, true, count),
            MatchCond::WhileNot => run_of(mode, text, false, count),
            MatchCond::Through => if count == 0 {
                run_of(mode, text, false, text.len() as int)
            } else {
                &&& run_of(mode, text, false, count - 1)
                &&& count <= text.len()
            },
        },
        MatchMode::Sequence(seq) => match cond {
            MatchCond::Is => count == if seq@.is_prefix_of(text) {
                seq@.len()
            } else {
                0
            },
            MatchCond::IsNot => count == if seq@.len() <= text.len() && !seq@.is_prefix_of(text) {
                seq@.len()
            } else {
                0
            },
            _ => false,
        },
        MatchMode::Pat(pat) => match cond {
            MatchCond::WhileNot => if count == text.len() {
                absent(text, pat@) || first_occurrence(text, pat@, count)
            } else {
                first_occurrence(text, pat@, count)
            },
            MatchCond::Through => if count == 0 {
                absent(text, pat@) || (pat@.len() == 0 && first_occurrence(text, pat@, 0))
            } else {
                first_occurrence(text, pat@, count - pat@.len())
            },
            _ => false,
        },
    }
}

/// What is done with the bytes that matched.
pub enum MatchAction {
    Keep,
    Discard,
    MatchOnly,
}

/// Whether two runs of bytes are the same.
fn same_bytes(a: &[u8], b: &[u8]) -> (r: bool)
    ensures
        r == (a@ == b@),
{
    let n = a.len();
    if n != b.len() {
        return false;
    }
    let mut i: usize = 0;
    while i < n
        invariant
            n == a@.len(),
            n == b@.len(),
            i <= n,
            forall|k: int| 0 <= k < i ==> a@[k] == b@[k],
        decreases n - i,
    {
        if a[i] != b[i] {
            return false;
        }
        i += 1;
    }
    assert(a@ =~= b@);
    true
}

/// What the engine holds: the buffer and its two cursors.
pub ghost struct ProcessorView {
    pub code: Seq<u8>,
    pub read_next: int,
    pub write_next: int,
}

impl ProcessorView {
    /// The output never overtakes the input: no unread byte is overwritten.
    pub open spec fn wf(self) -> bool {
        0 <= self.write_next <= self.read_next <= self.code.len() <= usize::MAX
    }

    /// The source bytes not yet read.
    pub open spec fn unread(self) -> Seq<u8> {
        self.code.subrange(self.read_next, self.code.len() as int)
    }

    /// The view after `amount` more source bytes were read and dropped.
    pub open spec fn skipped(self, amount: int) -> ProcessorView {
        ProcessorView { read_next: self.read_next + amount, ..self }
    }

    /// The view after `data` was appended to the output.
    pub open spec fn appended(self, data: Seq<u8>) -> ProcessorView {
        ProcessorView {
            code: overlay(self.code, self.write_next, data),
            write_next: self.write_next + data.len(),
            ..self
        }
    }

    /// The view after the next `amount` source bytes were moved to the
    /// output.
    pub open spec fn shifted(self, amount: int) -> ProcessorView {
        self.appended(self.code.subrange(self.read_next, self.read_next + amount)).skipped(amount)
    }
}

/// Appending in two steps is appending the whole at once.
pub proof fn lemma_appended_twice(view: ProcessorView, first: Seq<u8>, second: Seq<u8>)
    requires
        0 <= view.write_next,
        view.write_next + first.len() + second.len() <= view.code.len(),
    ensures
        view.appended(first).appended(second) == view.appended(first + second),
{
    assert(view.appended(first).appended(second).code =~= view.appended(first + second).code);
}

/// What is appended behind a place leaves the buffer from that place on as
/// it was.
pub proof fn lemma_appended_keeps(view: ProcessorView, data: Seq<u8>, from: int)
    requires
        0 <= view.write_next,
        view.write_next + data.len() <= from <= view.code.len(),
    ensures
        view.appended(data).code.len() == view.code.len(),
        forall|to: int|
            from <= to <= view.code.len() ==> #[trigger] view.appended(data).code.subrange(from, to)
                == view.code.subrange(from, to),
{
    assert forall|to: int| from <= to <= view.code.len() implies #[trigger] view.appended(
        data,
    ).code.subrange(from, to) == view.code.subrange(from, to) by {
        assert(view.appended(data).code.subrange(from, to) =~= view.code.subrange(from, to));
    }
}

/// The view after `action` was taken on the next `count` source bytes.
pub open spec fn after_match(before: ProcessorView, action: MatchAction, count: int) -> ProcessorView {
    match action {
        MatchAction::Keep => before.shifted(count),
        MatchAction::Discard => before.skipped(count),
        MatchAction::MatchOnly => before,
    }
}

/// Whether the longest key of `entries` that the unread bytes of `before`
/// start with ends at `end` and has the value `value`, and `after` is what
/// `action` on that key leaves.
pub open spec fn trie_match<V>(
    entries: Map<Seq<u8>, V>,
    before: ProcessorView,
    after: ProcessorView,
    action: MatchAction,
    end: usize,
    value: V,
) -> bool {
    &&& lookup_gives(entries, before.unread(), Some((end, value)))
    &&& after == after_match(before, action, end + 1)
}

/// Whether a lookup of the unread bytes of `before` in `entries` gives
/// `value`, and `after` is what `action` on the key found leaves; where no
/// key is found, nothing is done.
pub open spec fn trie_matched<V>(
    entries: Map<Seq<u8>, V>,
    before: ProcessorView,
    after: ProcessorView,
    action: MatchAction,
    value: Option<V>,
) -> bool {
    match value {
        Some(v) => exists|end: usize| #[trigger] trie_match(entries, before, after, action, end, v),
        None => no_key(entries, before.unread()) && after == before,
    }
}

/// The state of one pass over a document: the buffer, which holds the source
/// and receives the output, the index of the next byte to read and the index
/// of the next slot to write. Made once per pass.
pub struct Processor {
    code: Vec<u8>,
    // Index of the next byte to read.
    read_next: usize,
    // Index of the next unwritten slot.
    write_next: usize,
}

impl View for Processor {
    type V = ProcessorView;

    closed spec fn view(&self) -> ProcessorView {
        ProcessorView {
            code: self.code@,
            read_next: self.read_next as int,
            write_next: self.write_next as int,
        }
    }
}

impl Processor {
    /// The output never overtakes the input: no unread byte is overwritten.
    pub open spec fn wf(&self) -> bool {
        self@.wf()
    }

    pub fn new(code: Vec<u8>) -> (proc: Processor)
        ensures
            proc@ == (ProcessorView { code: code@, read_next: 0, write_next: 0 }),
            proc.wf(),
    {
        // A vector's length fits the machine.
        assert(code.len() == code@.len());
        Processor { write_next: 0, read_next: 0, code }
    }

    /// Ends the pass and hands the buffer back.
    pub fn into_code(self) -> (code: Vec<u8>)
        ensures
            code@ == self@.code,
    {
        self.code
    }

    /// The whole buffer, read and unread, written and unwritten.
    pub fn code(&self) -> (code: &[u8])
        ensures
            code@ == self@.code,
    {
        self.code.as_slice()
    }

    /// The bytes that `index` names.
    pub fn index(&self, index: ProcessorRange) -> (bytes: &[u8])
        requires
            index.start <= index.end <= self@.code.len(),
        ensures
            bytes@ == self@.code.subrange(index.start as int, index.end as int),
    {
        slice_subrange(self.code.as_slice(), index.start, index.end)
    }

    /// The written bytes that `index` names, to be changed in place.
    pub fn index_mut(&mut self, index: ProcessorRange) -> (bytes: &mut [u8])
        requires
            index.start <= index.end <= old(self)@.write_next,
            old(self).wf(),
        ensures
            bytes@ == old(self)@.code.subrange(index.start as int, index.end as int),
            final(self)@.read_next == old(self)@.read_next,
            final(self)@.write_next == old(self)@.write_next,
            final(self)@.code == old(self)@.code.subrange(0, index.start as int) + final(bytes)@
                + old(self)@.code.subrange(index.end as int, old(self)@.code.len() as int),
            final(bytes)@.len() == bytes@.len() ==> final(self).wf(),
    {
        let (_, rest) = self.code.as_mut_slice().split_at_mut(index.start);
        let (bytes, _) = rest.split_at_mut(index.end - index.start);
        bytes
    }

    // Bounds checking.
    pub fn _in_bounds(&self, offset: usize) -> (r: bool)
        requires
            self.wf(),
        ensures
            r == (self@.read_next + offset < self@.code.len()),
    {
        offset < self.code.len() - self.read_next
    }

    // Reading.
    /// The byte `offset` places after the next one; with 0, the next byte.
    pub fn _read_offset(&self, offset: usize) -> (c: u8)
        requires
            self.wf(),
            self@.read_next + offset < self@.code.len(),
        ensures
            c == self@.code[self@.read_next + offset],
    {
        self.code[self.read_next + offset]
    }

    pub fn _maybe_read_offset(&self, offset: usize) -> (c: Option<u8>)
        requires
            self.wf(),
        ensures
            c == if self@.read_next + offset < self@.code.len() {
                Some(self@.code[self@.read_next + offset])
            } else {
                None
            },
    {
        if self._in_bounds(offset) {
            Some(self._read_offset(offset))
        } else {
            None
        }
    }

    pub fn _maybe_read_slice_offset(&self, offset: usize, count: usize) -> (s: Option<&[u8]>)
        requires
            self.wf(),
        ensures
            s is Some <==> self@.read_next + offset + count <= self@.code.len(),
            s matches Some(bytes) ==> bytes@ == self@.code.subrange(
                self@.read_next + offset,
                self@.read_next + offset + count,
            ),
    {
        let rest = self.code.len() - self.read_next;
        if offset <= rest && count <= rest - offset {
            let from = self.read_next + offset;
            Some(slice_subrange(self.code.as_slice(), from, from + count))
        } else {
            None
        }
    }

    // Shifting.
    /// Moves the next `amount` source bytes to the output.
    pub fn _shift(&mut self, amount: usize)
        requires
            old(self).wf(),
            old(self)@.read_next + amount <= old(self)@.code.len(),
        ensures
            final(self)@ == old(self)@.shifted(amount as int),
            final(self).wf(),
    {
        // Nothing to move if it is already in place; the cursors still advance.
        if self.read_next != self.write_next {
            move_bytes(&mut self.code, self.read_next, self.read_next + amount, self.write_next);
        } else {
            assert(self.code@ =~= overlay(
                self.code@,
                self.write_next as int,
                self.code@.subrange(self.read_next as int, self.read_next + amount),
            ));
        }
        self.read_next += amount;
        self.write_next += amount;
    }

    /// Puts `data` in place of the written bytes `[start, end)`, moving the
    /// written bytes behind `end` up to make room, and returns by how much
    /// the output grew.
    pub fn _replace(&mut self, start: usize, end: usize, data: &[u8]) -> (added: usize)
        requires
            old(self).wf(),
            start <= end <= old(self)@.write_next,
            end - start <= data@.len(),
            old(self)@.write_next + (data@.len() - (end - start)) <= old(self)@.read_next,
        ensures
            added == data@.len() - (end - start),
            final(self)@.read_next == old(self)@.read_next,
            final(self)@.write_next == old(self)@.write_next + added,
            final(self)@.code == old(self)@.code.subrange(0, start as int) + data@
                + old(self)@.code.subrange(end as int, old(self)@.write_next)
                + old(self)@.code.subrange(
                final(self)@.write_next,
                old(self)@.code.len() as int,
            ),
            final(self).wf(),
    {
        let ghost before = self.code@;
        let added = data.len() - (end - start);
        move_bytes(&mut self.code, end, self.write_next, end + added);
        let ghost moved = self.code@;
        let ghost n = data@.len();
        put_bytes(&mut self.code, start, data);
        // Only bytes before `read_next` have changed.
        self.write_next += added;
        proof {
            let w = self.write_next - added;
            let goal = before.subrange(0, start as int) + data@ + before.subrange(end as int, w)
                + before.subrange(self.write_next as int, before.len() as int);
            assert(goal.len() == before.len());
            assert forall|j: int| 0 <= j < before.len() implies self.code@[j] == goal[j] by {
                if j < start {
                    assert(moved[j] == before[j]);
                } else if j < start + n {
                    assert(self.code@[j] == data@[j - start]);
                } else if j < w + added {
                    assert(moved[j] == before[j - (end + added) + end]);
                } else {
                    assert(moved[j] == before[j]);
                }
            }
        }
        assert(self.code@ =~= before.subrange(0, start as int) + data@ + before.subrange(
            end as int,
            self.write_next - added,
        ) + before.subrange(self.write_next as int, before.len() as int));
        added
    }

    /// Puts `data` into the output at `at`, moving the written bytes from
    /// `at` on up to make room.
    pub fn _insert(&mut self, at: usize, data: &[u8]) -> (added: usize)
        requires
            old(self).wf(),
            at <= old(self)@.write_next,
            old(self)@.write_next + data@.len() <= old(self)@.read_next,
        ensures
            added == data@.len(),
            final(self)@.read_next == old(self)@.read_next,
            final(self)@.write_next == old(self)@.write_next + added,
            final(self)@.code == old(self)@.code.subrange(0, at as int) + data@
                + old(self)@.code.subrange(at as int, old(self)@.write_next)
                + old(self)@.code.subrange(
                final(self)@.write_next,
                old(self)@.code.len() as int,
            ),
            final(self).wf(),
    {
        self._replace(at, at, data)
    }

    // Matching.
    /// 1 if there is a next byte and `cond` holds of it, else 0.
    pub fn _one<C: FnOnce(u8) -> bool>(&self, cond: C) -> (count: usize)
        requires
            self.wf(),
            forall|b: u8| call_requires(cond, (b,)),
        ensures
            count <= 1,
            count == 1 ==> self@.unread().len() > 0 && call_ensures(
                cond,
                (self@.unread()[0],),
                true,
            ),
            count == 0 && self@.unread().len() > 0 ==> call_ensures(
                cond,
                (self@.unread()[0],),
                false,
            ),
    {
        match self._maybe_read_offset(0) {
            Some(c) => if cond(c) {
                1
            } else {
                0
            },
            None => 0,
        }
    }

    /// The length of the longest run of next bytes of which `cond` holds.
    pub fn _many<C: Fn(u8) -> bool>(&self, cond: C) -> (count: usize)
        requires
            self.wf(),
            forall|b: u8| call_requires(cond, (b,)),
        ensures
            count <= self@.unread().len(),
            forall|i: int| 0 <= i < count ==> call_ensures(cond, (#[trigger] self@.unread()[i],), true),
            count < self@.unread().len() ==> call_ensures(
                cond,
                (self@.unread()[count as int],),
                false,
            ),
    {
        let rest = self.code.len() - self.read_next;
        let mut count: usize = 0;
        while count < rest
            invariant
                self.wf(),
                rest == self@.unread().len(),
                count <= rest,
                forall|b: u8| call_requires(cond, (b,)),
                forall|i: int|
                    0 <= i < count ==> call_ensures(cond, (#[trigger] self@.unread()[i],), true),
            decreases rest - count,
        {
            if !cond(self._read_offset(count)) {
                return count;
            }
            count += 1;
        }
        count
    }

    /// The number of bytes up to and including the first of which `cond`
    /// holds, or 0 if it holds of none.
    fn through<C: Fn(u8) -> bool>(&self, cond: C) -> (count: usize)
        requires
            self.wf(),
            forall|b: u8| call_requires(cond, (b,)),
        ensures
            count <= self@.unread().len(),
            count > 0 ==> call_ensures(cond, (self@.unread()[count - 1],), true),
            forall|i: int|
                0 <= i < (if count == 0 {
                    self@.unread().len() as int
                } else {
                    count - 1
                }) ==> call_ensures(cond, (#[trigger] self@.unread()[i],), false),
    {
        let rest = self.code.len() - self.read_next;
        let mut at: usize = 0;
        while at < rest
            invariant
                self.wf(),
                rest == self@.unread().len(),
                at <= rest,
                forall|b: u8| call_requires(cond, (b,)),
                forall|i: int|
                    0 <= i < at ==> call_ensures(cond, (#[trigger] self@.unread()[i],), false),
            decreases rest - at,
        {
            if cond(self._read_offset(at)) {
                return at + 1;
            }
            at += 1;
        }
        0
    }

    /// How many of the next bytes `cond` and `mode` match.
    fn match_count<P: Fn(u8) -> bool>(&self, cond: MatchCond, mode: &MatchMode<P>) -> (count:
        usize)
        requires
            self.wf(),
            supported(cond, *mode),
        ensures
            matched(cond, *mode, self@.unread(), count as int),
            count <= self@.unread().len(),
    {
        let ghost text = self@.unread();
        match mode {
            MatchMode::Char(c) => {
                let c = *c;
                let is = |n: u8| -> (r: bool)
                    ensures
                        r == (n == c),
                    { n == c };
                let is_not = |n: u8| -> (r: bool)
                    ensures
                        r == (n != c),
                    { n != c };
                match cond {
                    MatchCond::Is => self._one(is),
                    MatchCond::IsNot => self._one(is_not),
                    MatchCond::While => self._many(is),
                    MatchCond::WhileNot => self._many(is_not),
                    MatchCond::Through => self.through(is),
                }
            },
            MatchMode::Pred(p) => {
                let is = |n: u8| -> (r: bool)
                    requires
                        call_requires(p, (n,)),
                    ensures
                        call_ensures(p, (n,), r),
                    { p(n) };
                let is_not = |n: u8| -> (r: bool)
                    requires
                        call_requires(p, (n,)),
                    ensures
                        call_ensures(p, (n,), !r),
                    { !p(n) };
                match cond {
                    MatchCond::Is => self._one(is),
                    MatchCond::IsNot => self._one(is_not),
                    MatchCond::While => self._many(is),
                    MatchCond::WhileNot => self._many(is_not),
                    MatchCond::Through => self.through(is),
                }
            },
            // Matching a sequence is slow: in a loop, use a pattern.
            MatchMode::Sequence(seq) => {
                let found = self._maybe_read_slice_offset(0, seq.len());
                let same = match found {
                    Some(src) => same_bytes(src, seq),
                    None => false,
                };
                proof {
                    if found is Some {
                        assert(text.subrange(0, seq@.len() as int) == found.unwrap()@);
                    }
                }
                match cond {
                    MatchCond::Is => if same {
                        seq.len()
                    } else {
                        0
                    },
                    _ => if found.is_some() && !same {
                        seq.len()
                    } else {
                        0
                    },
                }
            },
            MatchMode::Pat(pat) => {
                let rest = self.remaining();
                let rest_len = rest.len();
                match cond {
                    MatchCond::WhileNot => match pat.match_against(rest) {
                        Some(at) => at,
                        None => rest_len,
                    },
                    _ => match pat.match_against(rest) {
                        Some(at) => at + pat.len(),
                        None => 0,
                    },
                }
            },
        }
    }

    /// Matches `cond` and `mode` against the next bytes, does with them what
    /// `action` says, and returns their span: in the output where they were
    /// kept, else in the source.
    pub fn m<P: Fn(u8) -> bool>(
        &mut self,
        cond: MatchCond,
        mode: MatchMode<P>,
        action: MatchAction,
    ) -> (range: ProcessorRange)
        requires
            old(self).wf(),
            supported(cond, mode),
        ensures
            range.start <= range.end,
            matched(cond, mode, old(self)@.unread(), range.end - range.start),
            final(self)@ == after_match(old(self)@, action, range.end - range.start),
            range.start == match action {
                MatchAction::Keep => old(self)@.write_next,
                _ => old(self)@.read_next,
            },
            final(self).wf(),
    {
        let count = self.match_count(cond, &mode);
        // Where the bytes are kept, the match stands in the output, which
        // lasts; where they are dropped, only the source has them.
        let start = match action {
            MatchAction::Discard | MatchAction::MatchOnly => self.read_next,
            MatchAction::Keep => self.write_next,
        };
        self.act(action, count);
        ProcessorRange { start, end: start + count }
    }

    /// Finds the longest key of `trie` that the next bytes start with, does
    /// with those bytes what `action` says, and returns the key's value; does
    /// nothing where they start with no key.
    pub fn m_trie<V: 'static + Copy>(&mut self, trie: &Trie<V>, action: MatchAction) -> (value:
        Option<V>)
        requires
            old(self).wf(),
            trie.wf(),
        ensures
            trie_matched(trie.entries(), old(self)@, final(self)@, action, value),
            final(self).wf(),
    {
        let rest = self.remaining();
        let rest_len = rest.len();
        match trie.find(rest) {
            Some((end, value)) => {
                assert(end < rest_len);
                self.act(action, end + 1);
                assert(trie_match(trie.entries(), old(self)@, self@, action, end, value));
                assert(exists|e: usize| #[trigger]
                    trie_match(trie.entries(), old(self)@, self@, action, e, value));
                let found = Some(value);
                assert(found matches Some(v) && v == value);
                found
            },
            None => None,
        }
    }

    /// Does with the next `count` bytes what `action` says.
    fn act(&mut self, action: MatchAction, count: usize)
        requires
            old(self).wf(),
            old(self)@.read_next + count <= old(self)@.code.len(),
        ensures
            final(self)@ == after_match(old(self)@, action, count as int),
            final(self).wf(),
    {
        match action {
            MatchAction::Discard => {
                self.read_next += count;
            },
            MatchAction::Keep => self._shift(count),
            MatchAction::MatchOnly => {},
        }
    }

    // Bounds checking.
    /// Whether every source byte has been read.
    pub fn at_end(&self) -> (r: bool)
        requires
            self.wf(),
        ensures
            r == (self@.read_next == self@.code.len()),
    {
        !self._in_bounds(0)
    }

    /// How many bytes have been consumed from the source.
    pub fn read_len(&self) -> (n: usize)
        ensures
            n == self@.read_next,
    {
        self.read_next
    }

    /// How many bytes have been written to the output.
    pub fn written_len(&self) -> (n: usize)
        ensures
            n == self@.write_next,
    {
        self.write_next
    }

    /// Claims the next `amount` output slots without writing them.
    pub fn reserve_output(&mut self, amount: usize)
        requires
            old(self).wf(),
            old(self)@.write_next + amount <= old(self)@.read_next,
        ensures
            final(self)@ == (ProcessorView {
                write_next: old(self)@.write_next + amount,
                ..old(self)@
            }),
            final(self).wf(),
    {
        self.write_next += amount;
    }

    /// Puts both cursors back where they once stood.
    pub(crate) fn set_cursors(&mut self, read_next: usize, write_next: usize)
        requires
            old(self).wf(),
            write_next <= read_next <= old(self)@.code.len(),
        ensures
            final(self)@ == (ProcessorView {
                read_next: read_next as int,
                write_next: write_next as int,
                ..old(self)@
            }),
            final(self).wf(),
    {
        self.read_next = read_next;
        self.write_next = write_next;
    }

    // Looking ahead.
    /// The byte `offset` places after the next one, if the source reaches
    /// that far; with 0, the next byte.
    pub fn peek(&self, offset: usize) -> (c: Option<u8>)
        requires
            self.wf(),
        ensures
            c == if self@.read_next + offset < self@.code.len() {
                Some(self@.code[self@.read_next + offset])
            } else {
                None
            },
    {
        self._maybe_read_offset(offset)
    }

    /// The `count` bytes that start `offset` places after the next one, if
    /// the source reaches that far.
    pub fn peek_many(&self, offset: usize, count: usize) -> (s: Option<&[u8]>)
        requires
            self.wf(),
        ensures
            s is Some <==> self@.read_next + offset + count <= self@.code.len(),
            s matches Some(bytes) ==> bytes@ == self@.code.subrange(
                self@.read_next + offset,
                self@.read_next + offset + count,
            ),
    {
        self._maybe_read_slice_offset(offset, count)
    }

    /// The source bytes not yet read.
    pub fn remaining(&self) -> (s: &[u8])
        requires
            self.wf(),
        ensures
            s@ == self@.unread(),
    {
        slice_subrange(self.code.as_slice(), self.read_next, self.code.len())
    }

    // Consuming source bytes.
    /// Drops the next byte and returns it; fails where none is left.
    pub fn skip(&mut self) -> (r: ProcessingResult<u8>)
        requires
            old(self).wf(),
        ensures
            final(self).wf(),
            match r {
                Ok(c) => {
                    &&& old(self)@.read_next < old(self)@.code.len()
                    &&& c == old(self)@.code[old(self)@.read_next]
                    &&& final(self)@ == old(self)@.skipped(1)
                },
                Err(e) => {
                    &&& e == ErrorType::UnexpectedEnd
                    &&& old(self)@.read_next == old(self)@.code.len()
                    &&& final(self)@ == old(self)@
                },
            },
    {
        match self._maybe_read_offset(0) {
            Some(c) => {
                self.skip_expect();
                Ok(c)
            },
            None => Err(ErrorType::UnexpectedEnd),
        }
    }

    /// Drops the next `amount` bytes, which the caller knows to be there.
    pub fn skip_amount_expect(&mut self, amount: usize)
        requires
            old(self).wf(),
            old(self)@.read_next < old(self)@.code.len(),
            old(self)@.read_next + amount <= old(self)@.code.len(),
        ensures
            final(self)@ == old(self)@.skipped(amount as int),
            final(self).wf(),
    {
        self.read_next += amount;
    }

    /// Drops the next byte, which the caller knows to be there.
    pub fn skip_expect(&mut self)
        requires
            old(self).wf(),
            old(self)@.read_next < old(self)@.code.len(),
        ensures
            final(self)@ == old(self)@.skipped(1),
            final(self).wf(),
    {
        self.read_next += 1;
    }

    // Writing bytes directly.
    /// Appends `c` to the output.
    pub fn write(&mut self, c: u8)
        requires
            old(self).wf(),
            old(self)@.write_next < old(self)@.read_next,
        ensures
            final(self)@ == old(self)@.appended(seq![c]),
            final(self).wf(),
    {
        let ghost before = self.code@;
        self.code.set(self.write_next, c);
        assert(self.code@ =~= overlay(before, self.write_next as int, seq![c]));
        self.write_next += 1;
    }

    /// Appends to the output the bytes that `s` names, and returns the span
    /// in which they now stand.
    pub fn write_range(&mut self, s: ProcessorRange) -> (dest: ProcessorRange)
        requires
            old(self).wf(),
            s.start <= s.end <= old(self)@.code.len(),
            old(self)@.write_next + (s.end - s.start) <= old(self)@.read_next,
        ensures
            final(self)@ == old(self)@.appended(
                old(self)@.code.subrange(s.start as int, s.end as int),
            ),
            dest.start == old(self)@.write_next,
            dest.end == final(self)@.write_next,
            final(self).wf(),
    {
        let dest_start = self.write_next;
        let dest_end = dest_start + s.len();
        move_bytes(&mut self.code, s.start, s.end, dest_start);
        self.write_next = dest_end;
        ProcessorRange { start: dest_start, end: dest_end }
    }

    /// Appends `s` to the output.
    pub fn write_slice(&mut self, s: &[u8])
        requires
            old(self).wf(),
            old(self)@.write_next + s@.len() <= old(self)@.read_next,
        ensures
            final(self)@ == old(self)@.appended(s@),
            final(self).wf(),
    {
        put_bytes(&mut self.code, self.write_next, s);
        self.write_next += s.len();
    }

    /// Appends the UTF-8 encoding of `c` to the output.
    pub fn write_utf8(&mut self, c: char)
        requires
            old(self).wf(),
            old(self)@.write_next + encode_scalar(c as u32).len() <= old(self)@.read_next,
        ensures
            final(self)@ == old(self)@.appended(encode_scalar(c as u32)),
            final(self).wf(),
    {
        self.write_scalar(c as u32)
    }

    /// Appends the UTF-8 encoding of the scalar value `scalar` to the
    /// output.
    pub fn write_scalar(&mut self, scalar: u32)
        requires
            old(self).wf(),
            is_scalar(scalar),
            old(self)@.write_next + encode_scalar(scalar).len() <= old(self)@.read_next,
        ensures
            final(self)@ == old(self)@.appended(encode_scalar(scalar)),
            final(self).wf(),
    {
        let ghost before = self@;
        let ghost encoded = encode_scalar(scalar);
        if scalar <= 0x7f {
            assert(scalar & 0x7f <= 0x7f) by (bit_vector);
            self.write((scalar & 0x7f) as u8);
            assert(seq![(scalar & 0x7f) as u8] =~= encoded);
        } else if scalar <= 0x7ff {
            assert((scalar >> 6) & 0x1f <= 0x1f && scalar & 0x3f <= 0x3f) by (bit_vector);
            let first = 0xc0 | (((scalar >> 6) & 0x1f) as u8);
            let last = 0x80 | ((scalar & 0x3f) as u8);
            self.write(first);
            self.write(last);
            proof {
                lemma_appended_twice(before, seq![first], seq![last]);
                assert(seq![first] + seq![last] =~= encoded);
            }
        } else if scalar <= 0xffff {
            assert((scalar >> 12) & 0x0f <= 0x0f && (scalar >> 6) & 0x3f <= 0x3f && scalar & 0x3f
                <= 0x3f) by (bit_vector);
            let first = 0xe0 | (((scalar >> 12) & 0x0f) as u8);
            let second = 0x80 | (((scalar >> 6) & 0x3f) as u8);
            let last = 0x80 | ((scalar & 0x3f) as u8);
            self.write(first);
            self.write(second);
            self.write(last);
            proof {
                lemma_appended_twice(before, seq![first], seq![second]);
                lemma_appended_twice(before, seq![first] + seq![second], seq![last]);
                assert(seq![first] + seq![second] + seq![last] =~= encoded);
            }
        } else {
            assert((scalar >> 18) & 0x7 <= 0x7 && (scalar >> 12) & 0x3f <= 0x3f && (scalar >> 6)
                & 0x3f <= 0x3f && scalar & 0x3f <= 0x3f) by (bit_vector);
            let first = 0xf0 | (((scalar >> 18) & 0x7) as u8);
            let second = 0x80 | (((scalar >> 12) & 0x3f) as u8);
            let third = 0x80 | (((scalar >> 6) & 0x3f) as u8);
            let last = 0x80 | ((scalar & 0x3f) as u8);
            self.write(first);
            self.write(second);
            self.write(third);
            self.write(last);
            proof {
                lemma_appended_twice(before, seq![first], seq![second]);
                lemma_appended_twice(before, seq![first] + seq![second], seq![third]);
                lemma_appended_twice(
                    before,
                    seq![first] + seq![second] + seq![third],
                    seq![last],
                );
                assert(seq![first] + seq![second] + seq![third] + seq![last] =~= encoded);
            }
        }
    }

    // Shifting bytes.
    /// Moves the next byte to the output and returns it; fails where none
    /// is left.
    pub fn accept(&mut self) -> (r: ProcessingResult<u8>)
        requires
            old(self).wf(),
        ensures
            final(self).wf(),
            match r {
                Ok(c) => {
                    &&& old(self)@.read_next < old(self)@.code.len()
                    &&& c == old(self)@.code[old(self)@.read_next]
                    &&& final(self)@ == old(self)@.shifted(1)
                },
                Err(e) => {
                    &&& e == ErrorType::UnexpectedEnd
                    &&& old(self)@.read_next == old(self)@.code.len()
                    &&& final(self)@ == old(self)@
                },
            },
    {
        match self._maybe_read_offset(0) {
            Some(c) => {
                self._shift(1);
                Ok(c)
            },
            None => Err(ErrorType::UnexpectedEnd),
        }
    }

    /// Moves the next byte, which the caller knows to be there, to the
    /// output and returns it.
    pub fn accept_expect(&mut self) -> (c: u8)
        requires
            old(self).wf(),
            old(self)@.read_next < old(self)@.code.len(),
        ensures
            c == old(self)@.code[old(self)@.read_next],
            final(self)@ == old(self)@.shifted(1),
            final(self).wf(),
    {
        let c = self._read_offset(0);
        self._shift(1);
        c
    }

    /// Moves the next `count` bytes, which the caller knows to be there, to
    /// the output.
    pub fn accept_amount_expect(&mut self, count: usize)
        requires
            old(self).wf(),
            old(self)@.read_next + count <= old(self)@.code.len(),
        ensures
            final(self)@ == old(self)@.shifted(count as int),
            final(self).wf(),
    {
        self._shift(count);
    }
}

} // verus!
